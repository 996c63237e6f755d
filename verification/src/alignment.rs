use vstd::prelude::*;

verus! {

/// A pair of token positions `(source position, target position)`.
pub type Link = (usize, usize);

/// The pairs of a set with their two positions exchanged.
pub open spec fn reversed_links(s: Set<Link>) -> Set<Link> {
    Set::new(|p: Link| s.contains((p.1, p.0)))
}

/// A hard alignment of one sentence pair: a finite set of links.
#[derive(Debug)]
pub struct AlgnHard {
    links: Vec<Link>,
}

/// A gold alignment of one sentence pair: the sure links and the possible links.
pub type AlgnGold = (AlgnHard, AlgnHard);

impl View for AlgnHard {
    type V = Set<Link>;

    closed spec fn view(&self) -> Set<Link> {
        self.links@.to_set()
    }
}

impl AlgnHard {
    /// No link is stored twice.
    #[verifier::type_invariant]
    closed spec fn inv(&self) -> bool {
        self.links@.no_duplicates()
    }

    /// Every alignment is a finite set.
    pub proof fn lemma_finite(&self)
        ensures
            self@.finite(),
    {
        self.links@.lemma_cardinality_of_set();
    }

    /// The empty alignment.
    pub fn new() -> (r: Self)
        ensures
            r@ == Set::<Link>::empty(),
    {
        let r = AlgnHard { links: Vec::new() };
        proof {
            assert(r.links@.to_set() =~= Set::<Link>::empty());
        }
        r
    }

    /// Whether the alignment holds the link `p`.
    pub fn contains(&self, p: Link) -> (b: bool)
        ensures
            b == self@.contains(p),
    {
        let n = self.links.len();
        let mut i: usize = 0;
        while i < n
            invariant
                n == self.links@.len(),
                i <= n,
                forall|k: int| 0 <= k < i ==> self.links@[k] != p,
            decreases n - i,
        {
            let q = self.links[i];
            if q.0 == p.0 && q.1 == p.1 {
                proof {
                    assert(self.links@.contains(p));
                }
                return true;
            }
            i = i + 1;
        }
        false
    }

    /// Adds the link `p`.
    pub fn insert(&mut self, p: Link)
        ensures
            final(self)@ == old(self)@.insert(p),
    {
        if !self.contains(p) {
            proof {
                use_type_invariant(&*self);
                let s = self.links@.push(p);
                assert forall|i: int, j: int| 0 <= i < j < s.len() implies s[i] != s[j] by {
                    if j == s.len() - 1 {
                        assert(self.links@.contains(self.links@[i]));
                    }
                }
                self.links@.lemma_push_to_set_commute(p);
            }
            let mut links: Vec<Link> = Vec::new();
            std::mem::swap(&mut links, &mut self.links);
            links.push(p);
            self.links = links;
        } else {
            proof {
                assert(self@.insert(p) =~= self@);
            }
        }
    }

    /// The number of links.
    pub fn len(&self) -> (n: usize)
        ensures
            self@.finite(),
            n == self@.len(),
    {
        proof {
            use_type_invariant(self);
            self.links@.unique_seq_to_set();
        }
        self.links.len()
    }

    /// Whether the alignment holds no link.
    pub fn is_empty(&self) -> (b: bool)
        ensures
            b == (self@ == Set::<Link>::empty()),
    {
        proof {
            if self.links@.len() > 0 {
                assert(self@.contains(self.links@[0]));
            } else {
                assert(self@ =~= Set::<Link>::empty());
            }
        }
        self.links.len() == 0
    }

    /// The alignment made of the given links (repetitions are kept once).
    pub fn from_links(links: &[Link]) -> (r: Self)
        ensures
            r@ == links@.to_set(),
    {
        let mut r = AlgnHard::new();
        let n = links.len();
        let mut i: usize = 0;
        while i < n
            invariant
                n == links@.len(),
                i <= n,
                r@ == links@.take(i as int).to_set(),
            decreases n - i,
        {
            r.insert(links[i]);
            proof {
                assert(links@.take(i + 1) =~= links@.take(i as int).push(links@[i as int]));
                links@.take(i as int).lemma_push_to_set_commute(links@[i as int]);
            }
            i = i + 1;
        }
        proof {
            assert(links@.take(n as int) =~= links@);
        }
        r
    }

    /// The links, each once.
    pub fn to_vec(&self) -> (v: Vec<Link>)
        ensures
            v@.to_set() == self@,
            v@.no_duplicates(),
    {
        proof {
            use_type_invariant(self);
        }
        let n = self.links.len();
        let mut v: Vec<Link> = Vec::new();
        let mut i: usize = 0;
        while i < n
            invariant
                n == self.links@.len(),
                i <= n,
                v@ == self.links@.take(i as int),
            decreases n - i,
        {
            v.push(self.links[i]);
            proof {
                assert(self.links@.take(i + 1) =~= self.links@.take(i as int).push(self.links@[i as int]));
            }
            i = i + 1;
        }
        proof {
            assert(self.links@.take(n as int) =~= self.links@);
        }
        v
    }

    /// The links held by both alignments.
    pub fn intersection(&self, other: &Self) -> (r: Self)
        ensures
            r@ == self@.intersect(other@),
    {
        let mut r = AlgnHard::new();
        let n = self.links.len();
        let mut i: usize = 0;
        while i < n
            invariant
                n == self.links@.len(),
                i <= n,
                r@ == self.links@.take(i as int).to_set().intersect(other@),
            decreases n - i,
        {
            let p = self.links[i];
            proof {
                assert(self.links@.take(i + 1) =~= self.links@.take(i as int).push(p));
                self.links@.take(i as int).lemma_push_to_set_commute(p);
            }
            if other.contains(p) {
                r.insert(p);
                proof {
                    assert(r@ =~= self.links@.take(i + 1).to_set().intersect(other@));
                }
            } else {
                proof {
                    assert(r@ =~= self.links@.take(i + 1).to_set().intersect(other@));
                }
            }
            i = i + 1;
        }
        proof {
            assert(self.links@.take(n as int) =~= self.links@);
        }
        r
    }

    /// The links held by either alignment.
    pub fn union(&self, other: &Self) -> (r: Self)
        ensures
            r@ == self@.union(other@),
    {
        let mut r = AlgnHard::new();
        let n = self.links.len();
        let mut i: usize = 0;
        while i < n
            invariant
                n == self.links@.len(),
                i <= n,
                r@ == self.links@.take(i as int).to_set(),
            decreases n - i,
        {
            let p = self.links[i];
            proof {
                assert(self.links@.take(i + 1) =~= self.links@.take(i as int).push(p));
                self.links@.take(i as int).lemma_push_to_set_commute(p);
            }
            r.insert(p);
            i = i + 1;
        }
        proof {
            assert(self.links@.take(n as int) =~= self.links@);
        }
        let m = other.links.len();
        let mut j: usize = 0;
        while j < m
            invariant
                m == other.links@.len(),
                j <= m,
                r@ == self@.union(other.links@.take(j as int).to_set()),
            decreases m - j,
        {
            let p = other.links[j];
            proof {
                assert(other.links@.take(j + 1) =~= other.links@.take(j as int).push(p));
                other.links@.take(j as int).lemma_push_to_set_commute(p);
            }
            r.insert(p);
            proof {
                assert(r@ =~= self@.union(other.links@.take(j + 1).to_set()));
            }
            j = j + 1;
        }
        proof {
            assert(other.links@.take(m as int) =~= other.links@);
        }
        r
    }

    /// Whether the two alignments share no link.
    pub fn is_disjoint(&self, other: &Self) -> (b: bool)
        ensures
            b == self@.disjoint(other@),
    {
        let common = self.intersection(other);
        let e = common.is_empty();
        proof {
            if !e {
                let w = choose|p: Link| common@.contains(p);
                assert(common@.contains(w) ==> !self@.disjoint(other@));
                if !common@.contains(w) {
                    assert(common@ =~= Set::<Link>::empty());
                }
            } else {
                assert forall|p: Link| self@.contains(p) implies !other@.contains(p) by {
                    if other@.contains(p) {
                        assert(common@.contains(p));
                    }
                }
            }
        }
        e
    }

    /// The alignment with source and target positions exchanged in every link.
    pub fn reversed(&self) -> (r: Self)
        ensures
            r@ == reversed_links(self@),
    {
        let mut r = AlgnHard::new();
        let n = self.links.len();
        let mut i: usize = 0;
        while i < n
            invariant
                n == self.links@.len(),
                i <= n,
                r@ == reversed_links(self.links@.take(i as int).to_set()),
            decreases n - i,
        {
            let p = self.links[i];
            proof {
                assert(self.links@.take(i + 1) =~= self.links@.take(i as int).push(p));
                self.links@.take(i as int).lemma_push_to_set_commute(p);
            }
            r.insert((p.1, p.0));
            proof {
                assert(r@ =~= reversed_links(self.links@.take(i + 1).to_set()));
            }
            i = i + 1;
        }
        proof {
            assert(self.links@.take(n as int) =~= self.links@);
        }
        r
    }
}

impl Clone for AlgnHard {
    fn clone(&self) -> (r: Self)
        ensures
            r@ == self@,
    {
        let v = self.to_vec();
        AlgnHard::from_links(v.as_slice())
    }
}

} // verus!
