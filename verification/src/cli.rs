use vstd::prelude::*;

use crate::text::{chars_of, is_white_space, split_char, split_on, string_views};

verus! {

/// Collects characters into a `String` through std's `FromIterator<char>` for
/// `String`, which appends them in order; the contract states that the string holds
/// exactly these characters.
#[verifier::external_body]
fn collect_string(chars: &[char]) -> (s: String)
    ensures
        s@ == chars@,
{
    chars.iter().collect()
}

/// The characters of a parameter specification that matter: whitespace and
/// closing brackets are dropped.
pub open spec fn param_chars(raw: Seq<char>) -> Seq<char> {
    raw.filter(|c: char| !is_white_space(c) && c != ']')
}

/// The non-empty comma-separated values of one group.
pub open spec fn group_values(g: Seq<char>) -> Seq<Seq<char>> {
    split_on(g, ',').filter(|t: Seq<char>| t.len() > 0)
}

/// Filtering by a predicate and by its negation splits a sequence in two.
proof fn lemma_filter_complement<A>(s: Seq<A>, p: spec_fn(A) -> bool, q: spec_fn(A) -> bool)
    requires
        forall|x: A| #[trigger] q(x) == !p(x),
    ensures
        s.filter(p).len() + s.filter(q).len() == s.len(),
    decreases s.len(),
{
    reveal(Seq::filter);
    if s.len() > 0 {
        lemma_filter_complement(s.drop_last(), p, q);
        assert(q(s.last()) == !p(s.last()));
    }
}

/// Filtering by a predicate that every element meets keeps the whole sequence.
proof fn lemma_filter_keeps_all<A>(s: Seq<A>, p: spec_fn(A) -> bool)
    requires
        forall|i: int| 0 <= i < s.len() ==> p(#[trigger] s[i]),
    ensures
        s.filter(p) == s,
    decreases s.len(),
{
    reveal(Seq::filter);
    if s.len() > 0 {
        let d = s.drop_last();
        assert forall|i: int| 0 <= i < d.len() implies p(#[trigger] d[i]) by {
            assert(d[i] == s[i]);
        }
        lemma_filter_keeps_all(d, p);
        assert(p(s[s.len() - 1]));
        assert(d.push(s.last()) =~= s);
    }
}

/// A group keeps every non-empty comma-separated piece, repeated values included:
/// its values and its empty pieces together are as many as its pieces, each value is
/// a non-empty piece, and every non-empty piece is a value.
pub proof fn lemma_group_values_pieces(g: Seq<char>)
    ensures
        group_values(g).len() + split_on(g, ',').filter(|t: Seq<char>| t.len() == 0).len() == split_on(g, ',').len(),
        forall|k: int| 0 <= k < group_values(g).len() ==> (#[trigger] group_values(g)[k]).len() > 0 && split_on(
            g,
            ',',
        ).contains(group_values(g)[k]),
        forall|j: int| 0 <= j < split_on(g, ',').len() && (#[trigger] split_on(g, ',')[j]).len() > 0 ==> group_values(
            g,
        ).contains(split_on(g, ',')[j]),
{
    let ps = split_on(g, ',');
    let ne = |t: Seq<char>| t.len() > 0;
    let em = |t: Seq<char>| t.len() == 0;
    lemma_filter_complement(ps, ne, em);
    assert forall|k: int| 0 <= k < group_values(g).len() implies (#[trigger] group_values(g)[k]).len() > 0
        && ps.contains(group_values(g)[k]) by {
        ps.lemma_filter_pred(ne, k);
        assert(ps.filter(ne).contains(ps.filter(ne)[k]));
        ps.lemma_filter_contains_rev(ne, ps.filter(ne)[k]);
    }
    assert forall|j: int| 0 <= j < ps.len() && (#[trigger] ps[j]).len() > 0 implies group_values(g).contains(ps[j]) by {
        ps.lemma_filter_contains(ne, j);
    }
}

/// A group without empty pieces has exactly its comma-separated pieces as values,
/// in order.
pub proof fn lemma_group_values_no_empty(g: Seq<char>)
    requires
        forall|j: int| 0 <= j < split_on(g, ',').len() ==> (#[trigger] split_on(g, ',')[j]).len() > 0,
    ensures
        group_values(g) == split_on(g, ','),
{
    lemma_filter_keeps_all(split_on(g, ','), |t: Seq<char>| t.len() > 0);
}

/// The value groups of a parameter specification such as `[0.0],[0.1, 0.2]`:
/// every `[` opens a group, whose values are separated by commas.
pub open spec fn param_groups(raw: Seq<char>) -> Seq<Seq<Seq<char>>> {
    split_on(param_chars(raw), '[').drop_first().map_values(|g: Seq<char>| group_values(g))
}

/// The views of a list of lists of strings.
pub open spec fn nested_views(v: Seq<Vec<String>>) -> Seq<Seq<Seq<char>>> {
    v.map_values(|g: Vec<String>| string_views(g@))
}

/// Splits a parameter specification such as `[0.0],[0.1, 0.2]` into its groups of
/// value texts: whitespace and `]` are removed, every `[` starts a group, and the
/// non-empty comma-separated pieces of a group are its values.
pub fn split_param_groups(raw: &str) -> (r: Vec<Vec<String>>)
    ensures
        nested_views(r@) == param_groups(raw@),
{
    let chars = chars_of(raw);
    let n = chars.len();
    let ghost keep = |c: char| !is_white_space(c) && c != ']';
    let mut cleaned: Vec<char> = Vec::new();
    let mut i: usize = 0;
    proof {
        assert(raw@.take(0) =~= Seq::<char>::empty());
        assert(Seq::<char>::empty().filter(keep) =~= Seq::<char>::empty());
    }
    while i < n
        invariant
            chars@ == raw@,
            n == raw@.len(),
            i <= n,
            keep == (|c: char| !is_white_space(c) && c != ']'),
            cleaned@ == raw@.take(i as int).filter(keep),
        decreases n - i,
    {
        let c = chars[i];
        proof {
            assert(raw@.take(i + 1) =~= raw@.take(i as int).push(c));
            raw@.take(i as int).lemma_filter_push(c, keep);
        }
        if !crate::text::char_is_whitespace(c) && c != ']' {
            cleaned.push(c);
        }
        i = i + 1;
    }
    proof {
        assert(raw@.take(n as int) =~= raw@);
    }
    let text = collect_string(cleaned.as_slice());
    let groups = split_char(text.as_str(), '[');
    let ghost gs = split_on(param_chars(raw@), '[');
    let m = groups.len();
    proof {
        assert(string_views(groups@) == gs);
        assert(gs.len() >= 1);
    }
    let mut out: Vec<Vec<String>> = Vec::new();
    let mut k: usize = 1;
    while k < m
        invariant
            string_views(groups@) == gs,
            m == gs.len(),
            1 <= k <= m,
            nested_views(out@) == gs.drop_first().take(k - 1).map_values(|g: Seq<char>| group_values(g)),
        decreases m - k,
    {
        let pieces = split_char(groups[k].as_str(), ',');
        let ghost ps = split_on(gs[k as int], ',');
        let ghost nonempty = |t: Seq<char>| t.len() > 0;
        assert(groups@[k as int]@ == gs[k as int]);
        let mut values: Vec<String> = Vec::new();
        let np = pieces.len();
        let mut q: usize = 0;
        proof {
            assert(ps.take(0) =~= Seq::<Seq<char>>::empty());
            assert(Seq::<Seq<char>>::empty().filter(nonempty) =~= Seq::<Seq<char>>::empty());
            assert(string_views(values@) =~= Seq::<Seq<char>>::empty());
        }
        while q < np
            invariant
                string_views(pieces@) == ps,
                np == ps.len(),
                q <= np,
                nonempty == (|t: Seq<char>| t.len() > 0),
                string_views(values@) == ps.take(q as int).filter(nonempty),
            decreases np - q,
        {
            let piece = &pieces[q];
            let ghost pv = ps[q as int];
            assert(piece@ == pv);
            proof {
                assert(ps.take(q + 1) =~= ps.take(q as int).push(pv));
                ps.take(q as int).lemma_filter_push(pv, nonempty);
            }
            if !piece.as_str().is_empty() {
                let ghost before = values@;
                values.push(piece.clone());
                proof {
                    assert(string_views(values@) =~= string_views(before).push(pv));
                }
            }
            q = q + 1;
        }
        proof {
            assert(ps.take(np as int) =~= ps);
            let f = |g: Seq<char>| group_values(g);
            let rest = gs.drop_first();
            assert(rest.take(k as int) =~= rest.take(k - 1).push(gs[k as int]));
            assert(rest.take(k as int).map_values(f) =~= rest.take(k - 1).map_values(f).push(f(gs[k as int])));
            assert(nested_views(out@.push(values)) =~= nested_views(out@).push(string_views(values@)));
        }
        out.push(values);
        k = k + 1;
    }
    proof {
        assert(gs.drop_first().take(m - 1) =~= gs.drop_first());
    }
    out
}

} // verus!
