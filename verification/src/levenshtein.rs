use vstd::prelude::*;

use crate::text::chars_of;

verus! {

/// The smaller of three natural numbers.
pub open spec fn min3(x: nat, y: nat, z: nat) -> nat {
    if x <= y && x <= z {
        x
    } else if y <= z {
        y
    } else {
        z
    }
}

/// Levenshtein distance between two character sequences: the least number of
/// single-character insertions, deletions and substitutions that turn `a` into `b`,
/// written as the usual recurrence on the last characters.
pub open spec fn edit_distance(a: Seq<char>, b: Seq<char>) -> nat
    decreases a.len() + b.len(),
{
    if a.len() == 0 {
        b.len()
    } else if b.len() == 0 {
        a.len()
    } else if a.last() == b.last() {
        edit_distance(a.drop_last(), b.drop_last())
    } else {
        1 + min3(
            edit_distance(a, b.drop_last()),
            edit_distance(a.drop_last(), b),
            edit_distance(a.drop_last(), b.drop_last()),
        )
    }
}

/// Turning a word into the empty word, or the empty word into a word, takes one
/// deletion or insertion per character.
pub proof fn lemma_edit_distance_empty(a: Seq<char>)
    ensures
        edit_distance(a, Seq::<char>::empty()) == a.len(),
        edit_distance(Seq::<char>::empty(), a) == a.len(),
{
}

/// Words that end in the same character are as far apart as the words without it.
pub proof fn lemma_edit_distance_same_last(a: Seq<char>, b: Seq<char>, x: char)
    ensures
        edit_distance(a.push(x), b.push(x)) == edit_distance(a, b),
{
    assert(a.push(x).drop_last() =~= a);
    assert(b.push(x).drop_last() =~= b);
}

/// Words that end in different characters: the last step of a cheapest edit is an
/// insertion, a deletion or a substitution, each costing one, and nothing else
/// (no step swaps two neighbouring characters at once).
pub proof fn lemma_edit_distance_different_last(a: Seq<char>, b: Seq<char>, x: char, y: char)
    requires
        x != y,
    ensures
        ({
            let d = edit_distance(a.push(x), b.push(y));
            let ins = edit_distance(a.push(x), b);
            let del = edit_distance(a, b.push(y));
            let sub = edit_distance(a, b);
            &&& d <= ins + 1
            &&& d <= del + 1
            &&& d <= sub + 1
            &&& (d == ins + 1 || d == del + 1 || d == sub + 1)
        }),
{
    assert(a.push(x).drop_last() =~= a);
    assert(b.push(y).drop_last() =~= b);
}

/// The distance never exceeds the length of the longer sequence.
pub proof fn lemma_edit_distance_bound(a: Seq<char>, b: Seq<char>)
    ensures
        edit_distance(a, b) <= if a.len() >= b.len() { a.len() } else { b.len() },
    decreases a.len() + b.len(),
{
    if a.len() > 0 && b.len() > 0 {
        lemma_edit_distance_bound(a.drop_last(), b.drop_last());
        lemma_edit_distance_bound(a, b.drop_last());
        lemma_edit_distance_bound(a.drop_last(), b);
    }
}

/// The distance from a word to itself is zero.
pub proof fn lemma_edit_distance_identity(a: Seq<char>)
    ensures
        edit_distance(a, a) == 0,
    decreases a.len(),
{
    if a.len() > 0 {
        lemma_edit_distance_identity(a.drop_last());
    }
}

/// The distance does not depend on the order of its arguments.
pub proof fn lemma_edit_distance_symmetric(a: Seq<char>, b: Seq<char>)
    ensures
        edit_distance(a, b) == edit_distance(b, a),
    decreases a.len() + b.len(),
{
    if a.len() > 0 && b.len() > 0 {
        lemma_edit_distance_symmetric(a.drop_last(), b.drop_last());
        lemma_edit_distance_symmetric(a, b.drop_last());
        lemma_edit_distance_symmetric(a.drop_last(), b);
    }
}

/// The distance is at least the difference of the two lengths.
pub proof fn lemma_edit_distance_length_difference(a: Seq<char>, b: Seq<char>)
    ensures
        edit_distance(a, b) >= a.len() - b.len(),
        edit_distance(a, b) >= b.len() - a.len(),
    decreases a.len() + b.len(),
{
    if a.len() > 0 && b.len() > 0 {
        lemma_edit_distance_length_difference(a.drop_last(), b.drop_last());
        lemma_edit_distance_length_difference(a, b.drop_last());
        lemma_edit_distance_length_difference(a.drop_last(), b);
    }
}

/// Levenshtein distance between the character sequences of two words,
/// computed row by row over the prefixes of `word2`.
pub fn levenstein_distance(word1: &str, word2: &str) -> (d: usize)
    ensures
        d == edit_distance(word1@, word2@),
{
    let w1 = chars_of(word1);
    let w2 = chars_of(word2);
    let n1 = w1.len();
    let n2 = w2.len();
    let ghost a = w1@;
    let ghost b = w2@;

    // row 0: distances from the prefixes of word1 to the empty word
    let mut prev: Vec<usize> = Vec::new();
    proof {
        assert(b.take(0).len() == 0);
    }
    prev.push(0);
    let mut i: usize = 0;
    while i < n1
        invariant
            n1 == a.len(),
            i <= n1,
            prev@.len() == i + 1,
            forall|k: int| 0 <= k <= i ==> prev@[k] == edit_distance(a.take(k), b.take(0)),
        decreases n1 - i,
    {
        i = i + 1;
        proof {
            assert(b.take(0).len() == 0);
        }
        prev.push(i);
    }

    let mut jj: usize = 0;
    while jj < n2
        invariant
            n1 == a.len(),
            n2 == b.len(),
            w1@ == a,
            w2@ == b,
            jj <= n2,
            prev@.len() == n1 + 1,
            forall|k: int| 0 <= k <= n1 ==> prev@[k] == edit_distance(a.take(k), b.take(jj as int)),
        decreases n2 - jj,
    {
        let j = jj + 1;
        let mut cur: Vec<usize> = Vec::new();
        proof {
            assert(a.take(0).len() == 0);
        }
        cur.push(j);
        let mut ii: usize = 0;
        while ii < n1
            invariant
                n1 == a.len(),
                n2 == b.len(),
                w1@ == a,
                w2@ == b,
                j == jj + 1,
                jj < n2,
                ii <= n1,
                prev@.len() == n1 + 1,
                forall|k: int| 0 <= k <= n1 ==> prev@[k] == edit_distance(a.take(k), b.take(jj as int)),
                cur@.len() == ii + 1,
                forall|k: int| 0 <= k <= ii ==> cur@[k] == edit_distance(a.take(k), b.take(j as int)),
            decreases n1 - ii,
        {
            let i = ii + 1;
            let ghost ai = a.take(i as int);
            let ghost bj = b.take(j as int);
            proof {
                assert(ai.drop_last() =~= a.take(ii as int));
                assert(bj.drop_last() =~= b.take(jj as int));
                assert(ai.last() == a[ii as int]);
                assert(bj.last() == b[jj as int]);
                lemma_edit_distance_bound(a.take(ii as int), b.take(jj as int));
            }
            let x: usize = if w1[ii] == w2[jj] {
                prev[ii]
            } else {
                let left = cur[ii];
                let up = prev[i];
                let diag = prev[ii];
                let m1 = if left < up { left } else { up };
                let m = if m1 < diag { m1 } else { diag };
                1 + m
            };
            cur.push(x);
            ii = i;
        }
        prev = cur;
        jj = j;
    }
    proof {
        assert(a.take(n1 as int) =~= a);
        assert(b.take(n2 as int) =~= b);
    }
    prev[n1]
}

} // verus!
