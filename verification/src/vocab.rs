use std::collections::HashMap;
use vstd::prelude::*;
use vstd::string::StringExecFns;

use crate::text::{chars_of, string_views};

verus! {

broadcast use vstd::std_specs::hash::group_hash_axioms;

/// The modulus of the word hash that spreads words over buckets.
pub const HASH_MODULUS: u64 = 1_000_003;

/// A polynomial hash of a word's characters, reduced after each character.
pub open spec fn word_hash(w: Seq<char>) -> u64
    decreases w.len(),
{
    if w.len() == 0 {
        0
    } else {
        ((word_hash(w.drop_last()) as nat * 31 + (w.last() as u32) as nat) % (HASH_MODULUS as nat)) as u64
    }
}

/// Computes `word_hash` of a word.
fn hash_word(w: &str) -> (h: u64)
    ensures
        h == word_hash(w@),
        h < HASH_MODULUS,
{
    let chars = chars_of(w);
    let n = chars.len();
    let mut h: u64 = 0;
    let mut i: usize = 0;
    proof {
        assert(w@.take(0) =~= Seq::<char>::empty());
    }
    while i < n
        invariant
            chars@ == w@,
            n == w@.len(),
            i <= n,
            h == word_hash(w@.take(i as int)),
            h < HASH_MODULUS,
        decreases n - i,
    {
        let c = chars[i] as u32;
        proof {
            assert(w@.take(i + 1).drop_last() =~= w@.take(i as int));
            assert(w@.take(i + 1).last() == chars@[i as int]);
        }
        h = (h * 31 + c as u64) % HASH_MODULUS;
        i = i + 1;
    }
    proof {
        assert(w@.take(n as int) =~= w@);
    }
    h
}

/// The words of a vocabulary by id.
pub type VocabRev = HashMap<usize, String>;

/// A vocabulary: distinct words, each identified by its position in order of insertion.
pub struct Vocab {
    words: Vec<String>,
    buckets: HashMap<u64, Vec<usize>>,
}

impl View for Vocab {
    type V = Seq<Seq<char>>;

    closed spec fn view(&self) -> Seq<Seq<char>> {
        string_views(self.words@)
    }
}

/// A copy of a vector of ids.
fn copy_ids(v: &Vec<usize>) -> (r: Vec<usize>)
    ensures
        r@ == v@,
{
    let n = v.len();
    let mut r: Vec<usize> = Vec::new();
    let mut i: usize = 0;
    while i < n
        invariant
            n == v@.len(),
            i <= n,
            r@ == v@.take(i as int),
        decreases n - i,
    {
        r.push(v[i]);
        proof {
            assert(v@.take(i + 1) =~= v@.take(i as int).push(v@[i as int]));
        }
        i = i + 1;
    }
    proof {
        assert(v@.take(n as int) =~= v@);
    }
    r
}

impl Vocab {
    /// Words are distinct, and each id is filed under the hash of its word and nowhere else.
    #[verifier::type_invariant]
    closed spec fn inv(&self) -> bool {
        &&& string_views(self.words@).no_duplicates()
        &&& forall|i: int|
            0 <= i < self.words@.len() ==> {
                &&& self.buckets@.contains_key(#[trigger] word_hash(self.words@[i]@))
                &&& self.buckets@[word_hash(self.words@[i]@)]@.contains(i as usize)
            }
        &&& forall|h: u64, k: int|
            self.buckets@.contains_key(h) && 0 <= k < self.buckets@[h]@.len() ==> {
                &&& #[trigger] self.buckets@[h]@[k] < self.words@.len()
                &&& word_hash(self.words@[self.buckets@[h]@[k] as int]@) == h
            }
    }

    /// The empty vocabulary.
    pub fn new() -> (v: Self)
        ensures
            v@ == Seq::<Seq<char>>::empty(),
    {
        let v = Vocab { words: Vec::new(), buckets: HashMap::new() };
        proof {
            assert(string_views(v.words@) =~= Seq::<Seq<char>>::empty());
        }
        v
    }

    /// The number of words.
    pub fn len(&self) -> (n: usize)
        ensures
            n == self@.len(),
    {
        self.words.len()
    }

    /// The word with the given id.
    pub fn word(&self, id: usize) -> (w: String)
        requires
            id < self@.len(),
        ensures
            w@ == self@[id as int],
    {
        self.words[id].clone()
    }

    /// The id of a word, if the vocabulary holds it.
    pub fn get(&self, word: &str) -> (r: Option<usize>)
        ensures
            match r {
                Some(id) => id < self@.len() && self@[id as int] == word@,
                None => !self@.contains(word@),
            },
            r matches Some(id) ==> forall|i: int| 0 <= i < self@.len() && #[trigger] self@[i] == word@ ==> i == id,
    {
        proof {
            use_type_invariant(self);
        }
        let h = hash_word(word);
        let w = <String as StringExecFns>::from_str(word);
        let n = self.words.len();
        match self.buckets.get(&h) {
            None => {
                proof {
                    if self@.contains(word@) {
                        let i = choose|i: int| 0 <= i < self@.len() && self@[i] == word@;
                        assert(self.words@[i]@ == word@);
                        assert(self.buckets@.contains_key(word_hash(self.words@[i]@)));
                    }
                }
                None
            },
            Some(bucket) => {
                let m = bucket.len();
                let mut k: usize = 0;
                while k < m
                    invariant
                        m == bucket@.len(),
                        k <= m,
                        self.buckets@.contains_key(h),
                        self.buckets@[h] == *bucket,
                        h == word_hash(word@),
                        w@ == word@,
                        forall|q: int| 0 <= q < bucket@.len() ==> #[trigger] bucket@[q] < self.words@.len(),
                        forall|q: int| 0 <= q < k ==> self.words@[#[trigger] bucket@[q] as int]@ != word@,
                        n == self.words@.len(),
                    decreases m - k,
                {
                    let id = bucket[k];
                    if self.words[id] == w {
                        proof {
                            use_type_invariant(self);
                            assert forall|i: int| 0 <= i < self@.len() && #[trigger] self@[i] == word@ implies i
                                == id by {
                                if i != id as int {
                                    assert(string_views(self.words@)[i] != string_views(self.words@)[id as int]);
                                }
                            }
                        }
                        return Some(id);
                    }
                    k = k + 1;
                }
                proof {
                    if self@.contains(word@) {
                        let i = choose|i: int| 0 <= i < self@.len() && self@[i] == word@;
                        assert(self.words@[i]@ == word@);
                        assert(i < n);
                        assert(bucket@.contains(i as usize));
                        let q = choose|q: int| 0 <= q < bucket@.len() && bucket@[q] == i as usize;
                        assert(bucket@[q] as int == i);
                        assert(self.words@[bucket@[q] as int]@ == word@);
                    }
                }
                None
            },
        }
    }

    /// The id of a word, adding it as the next id if the vocabulary does not hold it yet.
    pub fn get_or_insert(&mut self, word: &str) -> (id: usize)
        ensures
            old(self)@.contains(word@) ==> final(self)@ == old(self)@,
            !old(self)@.contains(word@) ==> final(self)@ == old(self)@.push(word@),
            id < final(self)@.len(),
            final(self)@[id as int] == word@,
    {
        match self.get(word) {
            Some(id) => id,
            None => {
                proof {
                    use_type_invariant(&*self);
                }
                let h = hash_word(word);
                let mut taken = Vocab::new();
                std::mem::swap(self, &mut taken);
                proof {
                    use_type_invariant(&taken);
                }
                let Vocab { mut words, mut buckets } = taken;
                let ghost old_words = words@;
                let ghost old_buckets = buckets@;
                let id = words.len();
                let mut bucket: Vec<usize> = match buckets.get(&h) {
                    Some(b) => copy_ids(b),
                    None => Vec::new(),
                };
                let ghost old_bucket = bucket@;
                bucket.push(id);
                buckets.insert(h, bucket);
                words.push(<String as StringExecFns>::from_str(word));
                proof {
                    assert(string_views(words@) =~= string_views(old_words).push(word@));
                    assert forall|i: int, j: int|
                        0 <= i < j < string_views(words@).len() implies string_views(words@)[i]
                        != string_views(words@)[j] by {
                        if j == old_words.len() {
                            assert(string_views(old_words).contains(string_views(old_words)[i]));
                        }
                    }
                    assert forall|i: int| 0 <= i < words@.len() implies {
                        &&& buckets@.contains_key(#[trigger] word_hash(words@[i]@))
                        &&& buckets@[word_hash(words@[i]@)]@.contains(i as usize)
                    } by {
                        if i < old_words.len() {
                            assert(words@[i] == old_words[i]);
                            let hi = word_hash(old_words[i]@);
                            if hi == h {
                                let q = choose|q: int| 0 <= q < old_buckets[h]@.len() && old_buckets[h]@[q] == i as usize;
                                assert(buckets@[h]@[q] == i as usize);
                            } else {
                                assert(buckets@[hi] == old_buckets[hi]);
                            }
                        } else {
                            assert(buckets@[h]@[old_bucket.len() as int] == id);
                        }
                    }
                    assert forall|g: u64, k: int|
                        buckets@.contains_key(g) && 0 <= k < buckets@[g]@.len() implies {
                        &&& #[trigger] buckets@[g]@[k] < words@.len()
                        &&& word_hash(words@[buckets@[g]@[k] as int]@) == g
                    } by {
                        if g == h {
                            if k < old_bucket.len() {
                                assert(buckets@[g]@[k] == old_buckets[g]@[k]);
                            }
                        } else {
                            assert(buckets@[g] == old_buckets[g]);
                        }
                    }
                }
                let mut rebuilt = Vocab { words, buckets };
                std::mem::swap(self, &mut rebuilt);
                id
            },
        }
    }
}

/// The words of a vocabulary by id.
pub fn vocab_rev(vocab: &Vocab) -> (r: VocabRev)
    ensures
        forall|id: usize| r@.contains_key(id) <==> id < vocab@.len(),
        forall|id: usize| #[trigger] r@.contains_key(id) ==> r@[id]@ == vocab@[id as int],
{
    let n = vocab.len();
    let mut r: HashMap<usize, String> = HashMap::new();
    let mut i: usize = 0;
    while i < n
        invariant
            n == vocab@.len(),
            i <= n,
            forall|id: usize| r@.contains_key(id) <==> id < i,
            forall|id: usize| #[trigger] r@.contains_key(id) ==> r@[id]@ == vocab@[id as int],
        decreases n - i,
    {
        r.insert(i, vocab.word(i));
        i = i + 1;
    }
    r
}

} // verus!
