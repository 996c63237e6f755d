use vstd::prelude::*;

use crate::alignment::{reversed_links, AlgnGold, AlgnHard, Link};
use crate::optimizer::min_len;

verus! {

/// Reverse a hard alignment: every link `(x, y)` of every sentence becomes `(y, x)`.
pub fn alignment_reverse(alignment: &[AlgnHard]) -> (r: Vec<AlgnHard>)
    ensures
        r@.len() == alignment@.len(),
        forall|i: int| 0 <= i < r@.len() ==> #[trigger] r@[i]@ == reversed_links(alignment@[i]@),
{
    let n = alignment.len();
    let mut out: Vec<AlgnHard> = Vec::new();
    let mut i: usize = 0;
    while i < n
        invariant
            n == alignment@.len(),
            i <= n,
            out@.len() == i,
            forall|k: int| 0 <= k < i ==> #[trigger] out@[k]@ == reversed_links(alignment@[k]@),
        decreases n - i,
    {
        out.push(alignment[i].reversed());
        i = i + 1;
    }
    out
}

/// A reversed alignment holds `(y, x)` exactly when the alignment holds `(x, y)`.
pub proof fn lemma_reverse_members(s: Set<Link>, x: usize, y: usize)
    ensures
        reversed_links(s).contains((y, x)) <==> s.contains((x, y)),
{
}

/// Reversing twice gives back the same links.
pub proof fn lemma_reverse_involution(s: Set<Link>)
    ensures
        reversed_links(reversed_links(s)) == s,
{
    assert(reversed_links(reversed_links(s)) =~= s);
}

/// Reversing keeps the number of links.
pub proof fn lemma_reverse_len(s: Set<Link>)
    requires
        s.finite(),
    ensures
        reversed_links(s).finite(),
        reversed_links(s).len() == s.len(),
{
    let f = |p: Link| (p.1, p.0);
    assert(reversed_links(s) =~= s.map(f));
    assert forall|p: Link, q: Link| #[trigger] f(p) == #[trigger] f(q) implies p == q by {}
    assert(vstd::relations::injective(f));
    s.lemma_map_finite(f);
    vstd::set_lib::lemma_map_size(s, s.map(f), f);
}

/// The quantities from which the alignment error rate of one sentence pair is computed:
/// `|A ∩ S|`, `|A ∩ P|`, `|A|` and `|S|`, for a proposed alignment `A`, sure links `S`
/// and possible links `P`.
#[derive(Clone, Copy, Debug, PartialEq, Eq, Structural)]
pub struct AerCounts {
    pub a_intersect_s: usize,
    pub a_intersect_p: usize,
    pub a_len: usize,
    pub s_len: usize,
}

/// The counts of one sentence pair, for a gold alignment whose sure and possible
/// links do not overlap.
pub open spec fn spec_aer_counts(algn: Set<Link>, sure: Set<Link>, poss: Set<Link>) -> (nat, nat, nat, nat) {
    (algn.intersect(sure).len(), algn.intersect(poss).len(), algn.len(), sure.len())
}

/// Counts the links of one proposed alignment against one gold alignment.
pub fn sentence_counts(algn: &AlgnHard, gold: &AlgnGold) -> (c: AerCounts)
    requires
        gold.0@.disjoint(gold.1@),
    ensures
        (c.a_intersect_s as nat, c.a_intersect_p as nat, c.a_len as nat, c.s_len as nat)
            == spec_aer_counts(algn@, gold.0@, gold.1@),
{
    let a_s = algn.intersection(&gold.0);
    let a_p = algn.intersection(&gold.1);
    AerCounts {
        a_intersect_s: a_s.len(),
        a_intersect_p: a_p.len(),
        a_len: algn.len(),
        s_len: gold.0.len(),
    }
}

/// Counts every sentence pair of a proposed corpus alignment against the gold one.
/// The corpus is truncated to the shorter of the two. The sure and possible links of
/// each gold alignment must not overlap.
pub fn alignment_error_counts(alignment: &[AlgnHard], alignment_gold: &[AlgnGold]) -> (r: Vec<AerCounts>)
    requires
        forall|i: int|
            0 <= i < min_len(alignment@.len(), alignment_gold@.len()) ==> (#[trigger] alignment_gold@[i]).0@.disjoint(
                alignment_gold@[i].1@,
            ),
    ensures
        r@.len() == min_len(alignment@.len(), alignment_gold@.len()),
        forall|i: int|
            0 <= i < r@.len() ==> ((#[trigger] r@[i]).a_intersect_s as nat, r@[i].a_intersect_p as nat, r@[i].a_len as nat, r@[i].s_len as nat)
                == spec_aer_counts(alignment@[i]@, alignment_gold@[i].0@, alignment_gold@[i].1@),
{
    let n = if alignment.len() <= alignment_gold.len() { alignment.len() } else { alignment_gold.len() };
    let mut out: Vec<AerCounts> = Vec::new();
    let mut i: usize = 0;
    while i < n
        invariant
            n == min_len(alignment@.len(), alignment_gold@.len()),
            i <= n,
            out@.len() == i,
            forall|j: int|
                0 <= j < n ==> (#[trigger] alignment_gold@[j]).0@.disjoint(alignment_gold@[j].1@),
            forall|k: int|
                0 <= k < i ==> ((#[trigger] out@[k]).a_intersect_s as nat, out@[k].a_intersect_p as nat, out@[k].a_len as nat, out@[k].s_len as nat)
                    == spec_aer_counts(alignment@[k]@, alignment_gold@[k].0@, alignment_gold@[k].1@),
        decreases n - i,
    {
        let c = sentence_counts(&alignment[i], &alignment_gold[i]);
        out.push(c);
        i = i + 1;
    }
    out
}


/// Counts one proposed alignment against a gold alignment whose sure and possible
/// links may overlap: the possible links are taken to be `S ∪ P`, so the second count
/// is `|A ∩ (S ∪ P)|`.
pub fn sentence_counts_overlapping(algn: &AlgnHard, gold: &AlgnGold) -> (c: AerCounts)
    ensures
        (c.a_intersect_s as nat, c.a_intersect_p as nat, c.a_len as nat, c.s_len as nat)
            == spec_aer_counts(algn@, gold.0@, gold.0@.union(gold.1@)),
{
    let s_union_p = gold.0.union(&gold.1);
    let a_s = algn.intersection(&gold.0);
    let a_sp = algn.intersection(&s_union_p);
    AerCounts {
        a_intersect_s: a_s.len(),
        a_intersect_p: a_sp.len(),
        a_len: algn.len(),
        s_len: gold.0.len(),
    }
}

/// Counts every sentence pair of a proposed corpus alignment against the gold one,
/// taking the possible links of each gold alignment to be `S ∪ P`. The corpus is
/// truncated to the shorter of the two.
pub fn alignment_error_counts_overlapping(alignment: &[AlgnHard], alignment_gold: &[AlgnGold]) -> (r: Vec<AerCounts>)
    ensures
        r@.len() == min_len(alignment@.len(), alignment_gold@.len()),
        forall|i: int|
            0 <= i < r@.len() ==> ((#[trigger] r@[i]).a_intersect_s as nat, r@[i].a_intersect_p as nat, r@[i].a_len as nat, r@[i].s_len as nat)
                == spec_aer_counts(alignment@[i]@, alignment_gold@[i].0@, alignment_gold@[i].0@.union(alignment_gold@[i].1@)),
{
    let n = if alignment.len() <= alignment_gold.len() { alignment.len() } else { alignment_gold.len() };
    let mut out: Vec<AerCounts> = Vec::new();
    let mut i: usize = 0;
    while i < n
        invariant
            n == min_len(alignment@.len(), alignment_gold@.len()),
            i <= n,
            out@.len() == i,
            forall|k: int|
                0 <= k < i ==> ((#[trigger] out@[k]).a_intersect_s as nat, out@[k].a_intersect_p as nat, out@[k].a_len as nat, out@[k].s_len as nat)
                    == spec_aer_counts(alignment@[k]@, alignment_gold@[k].0@, alignment_gold@[k].0@.union(alignment_gold@[k].1@)),
        decreases n - i,
    {
        let c = sentence_counts_overlapping(&alignment[i], &alignment_gold[i]);
        out.push(c);
        i = i + 1;
    }
    out
}


/// Counting starts from nothing: an empty proposal has no sure or possible link and
/// no link at all, while the sure count is the number of sure links.
pub proof fn lemma_aer_counts_empty(sure: Set<Link>, poss: Set<Link>)
    ensures
        spec_aer_counts(Set::<Link>::empty(), sure, poss) == (0nat, 0nat, 0nat, sure.len()),
{
    assert(Set::<Link>::empty().intersect(sure) =~= Set::<Link>::empty());
    assert(Set::<Link>::empty().intersect(poss) =~= Set::<Link>::empty());
}

/// Proposing one more link raises the first count by one exactly when that very
/// link is sure, the second by one exactly when it is possible, and the proposal's
/// size by one; the number of sure links stays.
pub proof fn lemma_aer_counts_insert(algn: Set<Link>, sure: Set<Link>, poss: Set<Link>, p: Link)
    requires
        algn.finite(),
        !algn.contains(p),
    ensures
        spec_aer_counts(algn.insert(p), sure, poss) == (
            spec_aer_counts(algn, sure, poss).0 + if sure.contains(p) { 1nat } else { 0nat },
            spec_aer_counts(algn, sure, poss).1 + if poss.contains(p) { 1nat } else { 0nat },
            spec_aer_counts(algn, sure, poss).2 + 1,
            spec_aer_counts(algn, sure, poss).3,
        ),
{
    let a2 = algn.insert(p);
    vstd::set_lib::lemma_len_intersect(algn, sure);
    vstd::set_lib::lemma_len_intersect(algn, poss);
    if sure.contains(p) {
        assert(a2.intersect(sure) =~= algn.intersect(sure).insert(p));
    } else {
        assert(a2.intersect(sure) =~= algn.intersect(sure));
    }
    if poss.contains(p) {
        assert(a2.intersect(poss) =~= algn.intersect(poss).insert(p));
    } else {
        assert(a2.intersect(poss) =~= algn.intersect(poss));
    }
}

/// A proposal that shares no link with the sure links has no sure link counted,
/// whatever else it holds (a reversed sure link, for one, is not sure).
pub proof fn lemma_aer_counts_disjoint(algn: Set<Link>, sure: Set<Link>, poss: Set<Link>)
    requires
        algn.disjoint(sure),
    ensures
        spec_aer_counts(algn, sure, poss).0 == 0,
{
    assert(algn.intersect(sure) =~= Set::<Link>::empty());
}

/// Proposing exactly the sure links of a gold alignment is counted as a perfect
/// match: every proposed link is sure, none is merely possible, and the sizes agree.
pub proof fn lemma_perfect_alignment_counts(sure: Set<Link>, poss: Set<Link>)
    requires
        sure.finite(),
        sure.disjoint(poss),
    ensures
        spec_aer_counts(sure, sure, poss) == (sure.len(), 0nat, sure.len(), sure.len()),
{
    assert(sure.intersect(sure) =~= sure);
    assert(sure.intersect(poss) =~= Set::<Link>::empty());
}


/// The alignment error rate `1 - (2|A ∩ S| + |A ∩ P|) / (|A| + |S|)` lies between 0 and 1:
/// its numerator never exceeds its denominator when the sure and possible links do not overlap.
pub proof fn lemma_aer_counts_bounded(algn: Set<Link>, sure: Set<Link>, poss: Set<Link>)
    requires
        algn.finite(),
        sure.finite(),
        sure.disjoint(poss),
    ensures
        2 * algn.intersect(sure).len() + algn.intersect(poss).len() <= algn.len() + sure.len(),
{
    let x = algn.intersect(sure);
    let y = algn.intersect(poss);
    vstd::set_lib::lemma_len_subset(x, algn);
    vstd::set_lib::lemma_len_subset(y, algn);
    vstd::set_lib::lemma_len_subset(x, sure);
    assert(x.disjoint(y));
    vstd::set_lib::lemma_set_disjoint_lens(x, y);
    vstd::set_lib::lemma_len_subset(x + y, algn);
}

} // verus!
