use vstd::prelude::*;

use crate::alignment::{AlgnGold, AlgnHard, Link};
use crate::optimizer::min_len;
use crate::text::{
    contains_char, parse_usize, parse_usize_spec, split_char, split_on, split_whitespace, split_ws,
    string_views,
};
use crate::vocab::Vocab;

verus! {

/// A sentence as the vocabulary ids of its words.
pub type Sent = Vec<usize>;

/// The vocabulary `v` extended by the words `ws` in order, each word added when first seen.
pub open spec fn extend_vocab(v: Seq<Seq<char>>, ws: Seq<Seq<char>>) -> Seq<Seq<char>>
    decreases ws.len(),
{
    if ws.len() == 0 {
        v
    } else {
        let p = extend_vocab(v, ws.drop_last());
        if p.contains(ws.last()) {
            p
        } else {
            p.push(ws.last())
        }
    }
}

/// The vocabulary of a list of lines: their words in order of first appearance.
pub open spec fn corpus_vocab(lines: Seq<Seq<char>>) -> Seq<Seq<char>>
    decreases lines.len(),
{
    if lines.len() == 0 {
        Seq::empty()
    } else {
        extend_vocab(corpus_vocab(lines.drop_last()), split_ws(lines.last()))
    }
}

/// Extending a vocabulary of distinct words keeps its words distinct, keeps them
/// in place, and adds exactly the new words.
pub proof fn lemma_extend_vocab(v: Seq<Seq<char>>, ws: Seq<Seq<char>>)
    requires
        v.no_duplicates(),
    ensures
        extend_vocab(v, ws).no_duplicates(),
        extends(v, extend_vocab(v, ws)),
        forall|j: int| 0 <= j < ws.len() ==> extend_vocab(v, ws).contains(#[trigger] ws[j]),
        forall|i: int|
            0 <= i < extend_vocab(v, ws).len() ==> v.contains(#[trigger] extend_vocab(v, ws)[i]) || ws.contains(
                extend_vocab(v, ws)[i],
            ),
    decreases ws.len(),
{
    if ws.len() > 0 {
        let p = extend_vocab(v, ws.drop_last());
        lemma_extend_vocab(v, ws.drop_last());
        let e = extend_vocab(v, ws);
        assert forall|j: int| 0 <= j < ws.len() implies e.contains(#[trigger] ws[j]) by {
            if j < ws.len() - 1 {
                assert(ws.drop_last()[j] == ws[j]);
                let k = choose|k: int| 0 <= k < p.len() && p[k] == ws[j];
                assert(e[k] == ws[j]);
            } else if !p.contains(ws.last()) {
                assert(e[p.len() as int] == ws.last());
            }
        }
        assert forall|i: int| 0 <= i < e.len() implies v.contains(#[trigger] e[i]) || ws.contains(e[i]) by {
            if i < p.len() {
                assert(e[i] == p[i]);
                if ws.drop_last().contains(p[i]) {
                    let k = choose|k: int| 0 <= k < ws.drop_last().len() && ws.drop_last()[k] == p[i];
                    assert(ws[k] == p[i]);
                }
            } else {
                assert(ws[ws.len() - 1] == e[i]);
            }
        }
    }
}

/// Reading one more word: a word already in the vocabulary leaves it as it is, a new
/// word is added at the end, as the next id.
pub proof fn lemma_extend_vocab_push(v: Seq<Seq<char>>, ws: Seq<Seq<char>>, w: Seq<char>)
    ensures
        extend_vocab(v, ws).contains(w) ==> extend_vocab(v, ws.push(w)) == extend_vocab(v, ws),
        !extend_vocab(v, ws).contains(w) ==> extend_vocab(v, ws.push(w)) == extend_vocab(v, ws).push(w),
{
    assert(ws.push(w).drop_last() =~= ws);
    assert(ws.push(w).last() == w);
}

/// `w` is one of the words of the lines.
pub open spec fn occurs_in(lines: Seq<Seq<char>>, w: Seq<char>) -> bool {
    exists|i: int, j: int| 0 <= i < lines.len() && 0 <= j < split_ws(lines[i]).len() && #[trigger] split_ws(lines[i])[j] == w
}

/// The vocabulary of a list of lines holds each of their words exactly once, and nothing else.
pub proof fn lemma_corpus_vocab(lines: Seq<Seq<char>>)
    ensures
        corpus_vocab(lines).no_duplicates(),
        forall|i: int, j: int|
            0 <= i < lines.len() && 0 <= j < split_ws(lines[i]).len() ==> corpus_vocab(lines).contains(
                #[trigger] split_ws(lines[i])[j],
            ),
        forall|k: int| 0 <= k < corpus_vocab(lines).len() ==> occurs_in(lines, #[trigger] corpus_vocab(lines)[k]),
    decreases lines.len(),
{
    if lines.len() > 0 {
        let pl = lines.drop_last();
        let p = corpus_vocab(pl);
        let ws = split_ws(lines.last());
        lemma_corpus_vocab(pl);
        lemma_extend_vocab(p, ws);
        let c = corpus_vocab(lines);
        assert forall|i: int, j: int|
            0 <= i < lines.len() && 0 <= j < split_ws(lines[i]).len() implies c.contains(
            #[trigger] split_ws(lines[i])[j],
        ) by {
            if i < lines.len() - 1 {
                assert(pl[i] == lines[i]);
                let k = choose|k: int| 0 <= k < p.len() && p[k] == split_ws(pl[i])[j];
                assert(c[k] == p[k]);
            } else {
                assert(ws[j] == split_ws(lines[i])[j]);
            }
        }
        assert forall|k: int| 0 <= k < c.len() implies occurs_in(lines, #[trigger] c[k]) by {
            if p.contains(c[k]) {
                let q = choose|q: int| 0 <= q < p.len() && p[q] == c[k];
                assert(occurs_in(pl, p[q]));
                let (i, j) = choose|i: int, j: int|
                    0 <= i < pl.len() && 0 <= j < split_ws(pl[i]).len() && #[trigger] split_ws(pl[i])[j] == p[q];
                assert(pl[i] == lines[i]);
                assert(c[k] == split_ws(lines[i])[j]);
            } else {
                let j = choose|j: int| 0 <= j < ws.len() && ws[j] == c[k];
                let i = lines.len() - 1;
                assert(lines[i] == lines.last());
                assert(c[k] == split_ws(lines[i])[j]);
            }
        }
    }
}

/// `ids` are the vocabulary ids of the words of `line`, in order.
pub open spec fn encodes(ids: Seq<usize>, vocab: Seq<Seq<char>>, line: Seq<char>) -> bool {
    &&& ids.len() == split_ws(line).len()
    &&& forall|j: int| 0 <= j < ids.len() ==> #[trigger] ids[j] < vocab.len() && vocab[ids[j] as int] == split_ws(line)[j]
}

/// Every entry of `a` stays at its position in `b`.
pub open spec fn extends(a: Seq<Seq<char>>, b: Seq<Seq<char>>) -> bool {
    a.len() <= b.len() && forall|i: int| 0 <= i < a.len() ==> #[trigger] b[i] == a[i]
}

proof fn lemma_encodes_extends(ids: Seq<usize>, a: Seq<Seq<char>>, b: Seq<Seq<char>>, line: Seq<char>)
    requires
        encodes(ids, a, line),
        extends(a, b),
    ensures
        encodes(ids, b, line),
{
    assert forall|j: int| 0 <= j < ids.len() implies #[trigger] ids[j] < b.len() && b[ids[j] as int] == split_ws(line)[j] by {
        assert(ids[j] < a.len());
    }
}

/// Replaces every word of `line` by its id in `vocab`, adding the words not seen before.
pub fn tokenize(line: &str, vocab: &mut Vocab) -> (ids: Sent)
    ensures
        final(vocab)@ == extend_vocab(old(vocab)@, split_ws(line@)),
        extends(old(vocab)@, final(vocab)@),
        encodes(ids@, final(vocab)@, line@),
{
    let words = split_whitespace(line);
    let ghost ws = split_ws(line@);
    let ghost v0 = vocab@;
    let n = words.len();
    let mut ids: Vec<usize> = Vec::new();
    let mut j: usize = 0;
    proof {
        assert(ws.take(0) =~= Seq::<Seq<char>>::empty());
    }
    while j < n
        invariant
            string_views(words@) == ws,
            n == ws.len(),
            j <= n,
            vocab@ == extend_vocab(v0, ws.take(j as int)),
            extends(v0, vocab@),
            ids@.len() == j,
            forall|q: int| 0 <= q < j ==> #[trigger] ids@[q] < vocab@.len() && vocab@[ids@[q] as int] == ws[q],
        decreases n - j,
    {
        let ghost before = vocab@;
        assert(words@[j as int]@ == ws[j as int]);
        let id = vocab.get_or_insert(words[j].as_str());
        proof {
            assert(ws.take(j + 1).drop_last() =~= ws.take(j as int));
            assert(ws.take(j + 1).last() == ws[j as int]);
            assert(extends(before, vocab@));
            assert forall|q: int| 0 <= q < j implies #[trigger] ids@[q] < vocab@.len() && vocab@[ids@[q] as int] == ws[q] by {
                assert(ids@[q] < before.len());
            }
        }
        ids.push(id);
        j = j + 1;
    }
    proof {
        assert(ws.take(n as int) =~= ws);
    }
    ids
}

/// The line pairs selected from two parallel lists of lines: they are paired up
/// while both last, then `start` pairs are skipped and at most `count` kept.
pub open spec fn selected(lines: Seq<Seq<char>>, other_len: nat, start: nat, count: nat) -> Seq<Seq<char>> {
    let paired = min_len(lines.len(), other_len);
    let first = if start <= paired { start } else { paired };
    let last = if first + count <= paired { first + count } else { paired };
    lines.subrange(first as int, last as int)
}

/// The selection skips `start` pairs and then keeps `count` of them: it holds
/// `count` lines where that many pairs follow the first `start`, the rest of the
/// pairs where fewer follow, none where there are no more than `start` pairs, and its
/// `i`-th line is line `start + i`.
pub proof fn lemma_selected(lines: Seq<Seq<char>>, other_len: nat, start: nat, count: nat)
    ensures
        ({
            let paired = if lines.len() <= other_len { lines.len() } else { other_len };
            let sel = selected(lines, other_len, start, count);
            &&& start + count <= paired ==> sel.len() == count
            &&& start <= paired < start + count ==> sel.len() == paired - start
            &&& paired <= start ==> sel.len() == 0
            &&& forall|i: int| 0 <= i < sel.len() ==> #[trigger] sel[i] == lines[start + i]
        }),
{
}

/// Reads parallel lines into sentence pairs of vocabulary ids, one vocabulary per side.
/// The lines are paired while both lists last; `start` pairs are skipped and at most
/// `count` pairs are read. Every word gets the id of its first appearance.
pub fn load_lines(lines1: &[String], lines2: &[String], start: usize, count: usize) -> (r: (
    Vec<(Sent, Sent)>,
    (Vocab, Vocab),
))
    ensures
        ({
            let sel1 = selected(string_views(lines1@), lines2@.len(), start as nat, count as nat);
            let sel2 = selected(string_views(lines2@), lines1@.len(), start as nat, count as nat);
            &&& r.0@.len() == sel1.len()
            &&& r.0@.len() == sel2.len()
            &&& r.1.0@ == corpus_vocab(sel1)
            &&& r.1.1@ == corpus_vocab(sel2)
            &&& forall|i: int|
                0 <= i < r.0@.len() ==> encodes((#[trigger] r.0@[i]).0@, r.1.0@, sel1[i]) && encodes(
                    r.0@[i].1@,
                    r.1.1@,
                    sel2[i],
                )
        }),
        start as int + count as int <= min_len(lines1@.len(), lines2@.len()) ==> r.0@.len() == count,
        forall|i: int|
            0 <= i < r.0@.len() ==> start + i < min_len(lines1@.len(), lines2@.len()) && encodes(
                (#[trigger] r.0@[i]).0@,
                r.1.0@,
                lines1@[start + i]@,
            ) && encodes(r.0@[i].1@, r.1.1@, lines2@[start + i]@),
{
    proof {
        lemma_selected(string_views(lines1@), lines2@.len(), start as nat, count as nat);
        lemma_selected(string_views(lines2@), lines1@.len(), start as nat, count as nat);
    }
    let ghost v1 = string_views(lines1@);
    let ghost v2 = string_views(lines2@);
    let paired = if lines1.len() <= lines2.len() { lines1.len() } else { lines2.len() };
    let first = if start <= paired { start } else { paired };
    let last = if count <= paired - first { first + count } else { paired };
    let ghost sel1 = v1.subrange(first as int, last as int);
    let ghost sel2 = v2.subrange(first as int, last as int);
    proof {
        assert(sel1 == selected(v1, lines2@.len(), start as nat, count as nat));
        assert(sel2 == selected(v2, lines1@.len(), start as nat, count as nat));
        assert(sel1.take(0) =~= Seq::<Seq<char>>::empty());
        assert(sel2.take(0) =~= Seq::<Seq<char>>::empty());
    }
    let mut sents: Vec<(Sent, Sent)> = Vec::new();
    let mut vocab1 = Vocab::new();
    let mut vocab2 = Vocab::new();
    let mut i: usize = first;
    while i < last
        invariant
            v1 == string_views(lines1@),
            v2 == string_views(lines2@),
            first <= i <= last,
            last <= lines1@.len(),
            last <= lines2@.len(),
            sel1 == v1.subrange(first as int, last as int),
            sel2 == v2.subrange(first as int, last as int),
            sents@.len() == i - first,
            vocab1@ == corpus_vocab(sel1.take(i - first)),
            vocab2@ == corpus_vocab(sel2.take(i - first)),
            forall|k: int|
                0 <= k < sents@.len() ==> encodes((#[trigger] sents@[k]).0@, vocab1@, sel1[k]) && encodes(
                    sents@[k].1@,
                    vocab2@,
                    sel2[k],
                ),
        decreases last - i,
    {
        let ghost k = i - first;
        let ghost before1 = vocab1@;
        let ghost before2 = vocab2@;
        assert(lines1@[i as int]@ == sel1[k]);
        assert(lines2@[i as int]@ == sel2[k]);
        let s1 = tokenize(lines1[i].as_str(), &mut vocab1);
        let s2 = tokenize(lines2[i].as_str(), &mut vocab2);
        proof {
            assert(sel1.take(k + 1).drop_last() =~= sel1.take(k));
            assert(sel1.take(k + 1).last() == sel1[k]);
            assert(sel2.take(k + 1).drop_last() =~= sel2.take(k));
            assert(sel2.take(k + 1).last() == sel2[k]);
            assert forall|q: int| 0 <= q < sents@.len() implies encodes((#[trigger] sents@[q]).0@, vocab1@, sel1[q])
                && encodes(sents@[q].1@, vocab2@, sel2[q]) by {
                lemma_encodes_extends(sents@[q].0@, before1, vocab1@, sel1[q]);
                lemma_encodes_extends(sents@[q].1@, before2, vocab2@, sel2[q]);
            }
        }
        sents.push((s1, s2));
        i = i + 1;
    }
    proof {
        assert(sel1.take(last - first) =~= sel1);
        assert(sel2.take(last - first) =~= sel2);
    }
    (sents, (vocab1, vocab2))
}

/// Reads sentence pairs given as two texts with one sentence per line (separated by `\n`).
pub fn load_sent(sents1: &str, sents2: &str) -> (r: (Vec<(Sent, Sent)>, (Vocab, Vocab)))
    ensures
        ({
            let l1 = split_on(sents1@, '\n');
            let l2 = split_on(sents2@, '\n');
            let n = min_len(l1.len(), l2.len());
            &&& r.0@.len() == n
            &&& r.1.0@ == corpus_vocab(l1.take(n as int))
            &&& r.1.1@ == corpus_vocab(l2.take(n as int))
            &&& forall|i: int|
                0 <= i < n ==> encodes((#[trigger] r.0@[i]).0@, r.1.0@, l1[i]) && encodes(
                    r.0@[i].1@,
                    r.1.1@,
                    l2[i],
                )
        }),
{
    let lines1 = split_char(sents1, '\n');
    let lines2 = split_char(sents2, '\n');
    let n1 = lines1.len();
    let n2 = lines2.len();
    let r = load_lines(lines1.as_slice(), lines2.as_slice(), 0, usize::MAX);
    proof {
        let l1 = split_on(sents1@, '\n');
        let l2 = split_on(sents2@, '\n');
        let n = min_len(l1.len(), l2.len());
        assert(l1.subrange(0, n as int) =~= l1.take(n as int));
        assert(l2.subrange(0, n as int) =~= l2.take(n as int));
        assert(n1 == l1.len() && n2 == l2.len());
    }
    r
}


/// A copy of a sentence.
fn copy_sent(s: &Sent) -> (r: Sent)
    ensures
        r@ == s@,
{
    let r = s.clone();
    proof {
        assert(r@ =~= s@);
    }
    r
}

/// The sentence pairs with the two sides exchanged, for aligning in the reverse direction.
pub fn swapped_pairs(sents: &[(Sent, Sent)]) -> (r: Vec<(Sent, Sent)>)
    ensures
        r@.len() == sents@.len(),
        forall|i: int|
            0 <= i < r@.len() ==> (#[trigger] r@[i]).0@ == sents@[i].1@ && r@[i].1@ == sents@[i].0@,
{
    let n = sents.len();
    let mut out: Vec<(Sent, Sent)> = Vec::new();
    let mut i: usize = 0;
    while i < n
        invariant
            n == sents@.len(),
            i <= n,
            out@.len() == i,
            forall|k: int|
                0 <= k < i ==> (#[trigger] out@[k]).0@ == sents@[k].1@ && out@[k].1@ == sents@[k].0@,
        decreases n - i,
    {
        let a = copy_sent(&sents[i].1);
        let b = copy_sent(&sents[i].0);
        out.push((a, b));
        i = i + 1;
    }
    out
}


/// Reads one line `_ prob word1 word2` of a dictionary of word translation
/// probabilities: gives back the text of the probability and the ids of the two
/// words, adding each word to its vocabulary if it is new. `None`, with both
/// vocabularies unchanged, where the line has fewer than four words.
pub fn dict_line_ids(line: &str, vocab1: &mut Vocab, vocab2: &mut Vocab) -> (r: Option<(String, usize, usize)>)
    ensures
        ({
            let ws = split_ws(line@);
            &&& r is Some <==> ws.len() >= 4
            &&& r is None ==> final(vocab1)@ == old(vocab1)@ && final(vocab2)@ == old(vocab2)@
            &&& r matches Some(t) ==> {
                &&& t.0@ == ws[1]
                &&& final(vocab1)@ == extend_vocab(old(vocab1)@, seq![ws[2]])
                &&& final(vocab2)@ == extend_vocab(old(vocab2)@, seq![ws[3]])
                &&& t.1 < final(vocab1)@.len() && final(vocab1)@[t.1 as int] == ws[2]
                &&& t.2 < final(vocab2)@.len() && final(vocab2)@[t.2 as int] == ws[3]
            }
        }),
{
    let tokens = split_whitespace(line);
    if tokens.len() < 4 {
        return None;
    }
    let ghost ws = split_ws(line@);
    assert(tokens@[1]@ == ws[1] && tokens@[2]@ == ws[2] && tokens@[3]@ == ws[3]);
    let ghost v1 = vocab1@;
    let ghost v2 = vocab2@;
    let w1 = vocab1.get_or_insert(tokens[2].as_str());
    let w2 = vocab2.get_or_insert(tokens[3].as_str());
    proof {
        let one1 = seq![ws[2]];
        let one2 = seq![ws[3]];
        assert(one1.drop_last() =~= Seq::<Seq<char>>::empty());
        assert(one2.drop_last() =~= Seq::<Seq<char>>::empty());
        assert(extend_vocab(v1, one1.drop_last()) == v1);
        assert(extend_vocab(v2, one2.drop_last()) == v2);
        assert(one1.last() == ws[2]);
        assert(one2.last() == ws[3]);
    }
    Some((tokens[1].clone(), w1, w2))
}


/// The link written in a gold token as two indices around the separator `sep`
/// (`x-y` for sure links, `x?y` for possible ones). With `substract_one` the
/// indices are 1-based and are shifted down by one. `None` where the token has not
/// exactly two parts, a part is not an unsigned number, or a 1-based index is 0.
pub open spec fn parse_link(tok: Seq<char>, sep: char, substract_one: bool) -> Option<Link> {
    let parts = split_on(tok, sep);
    if parts.len() != 2 {
        None
    } else {
        match (parse_usize_spec(parts[0]), parse_usize_spec(parts[1])) {
            (Some(a), Some(b)) => if !substract_one {
                Some((a, b))
            } else if a >= 1 && b >= 1 {
                Some(((a - 1) as usize, (b - 1) as usize))
            } else {
                None
            },
            _ => None,
        }
    }
}

/// A token `x<sep>y` of two unsigned numbers writes the link `(x, y)`, or
/// `(x - 1, y - 1)` for 1-based indices, which must then both be at least 1.
pub proof fn lemma_parse_link_numbers(x: Seq<char>, sep: char, y: Seq<char>, substract_one: bool)
    requires
        forall|j: int| 0 <= j < x.len() ==> #[trigger] x[j] != sep,
        forall|j: int| 0 <= j < y.len() ==> #[trigger] y[j] != sep,
        parse_usize_spec(x) is Some,
        parse_usize_spec(y) is Some,
    ensures
        !substract_one ==> parse_link(x + seq![sep] + y, sep, substract_one) == Some(
            (parse_usize_spec(x)->0, parse_usize_spec(y)->0),
        ),
        substract_one ==> (parse_link(x + seq![sep] + y, sep, substract_one) is Some <==> parse_usize_spec(x)->0
            >= 1 && parse_usize_spec(y)->0 >= 1),
        substract_one && parse_usize_spec(x)->0 >= 1 && parse_usize_spec(y)->0 >= 1 ==> parse_link(
            x + seq![sep] + y,
            sep,
            substract_one,
        ) == Some(((parse_usize_spec(x)->0 - 1) as usize, (parse_usize_spec(y)->0 - 1) as usize)),
{
    crate::text::lemma_split_on_at_sep(x, sep, y);
    crate::text::lemma_split_on_single_piece(x, sep);
    crate::text::lemma_split_on_single_piece(y, sep);
    let parts = split_on(x + seq![sep] + y, sep);
    assert(parts =~= seq![x, y]);
}

/// Which kind of link a gold token writes: `-` (sure) is looked for first, then `?`
/// (possible); other tokens write no link.
pub open spec fn link_kind(tok: Seq<char>) -> Option<char> {
    if tok.contains('-') {
        Some('-')
    } else if tok.contains('?') {
        Some('?')
    } else {
        None
    }
}

/// Every token that writes a link writes a well-formed one.
pub open spec fn gold_tokens_valid(toks: Seq<Seq<char>>, substract_one: bool) -> bool {
    forall|j: int|
        0 <= j < toks.len() ==> match link_kind(#[trigger] toks[j]) {
            Some(sep) => parse_link(toks[j], sep, substract_one) is Some,
            None => true,
        }
}

/// The links of the given kind written by a list of gold tokens.
pub open spec fn gold_links(toks: Seq<Seq<char>>, sep: char, substract_one: bool) -> Set<Link>
    decreases toks.len(),
{
    if toks.len() == 0 {
        Set::empty()
    } else {
        let s = gold_links(toks.drop_last(), sep, substract_one);
        let t = toks.last();
        if link_kind(t) == Some(sep) && parse_link(t, sep, substract_one) is Some {
            s.insert(parse_link(t, sep, substract_one)->0)
        } else {
            s
        }
    }
}

/// A link is among the links of a kind exactly when some token of that kind writes
/// it: every well-formed token contributes its link, whatever other links are there.
pub proof fn lemma_gold_links_members(toks: Seq<Seq<char>>, sep: char, substract_one: bool, p: Link)
    ensures
        gold_links(toks, sep, substract_one).contains(p) <==> exists|j: int|
            0 <= j < toks.len() && link_kind(#[trigger] toks[j]) == Some(sep) && parse_link(
                toks[j],
                sep,
                substract_one,
            ) == Some(p),
    decreases toks.len(),
{
    if toks.len() > 0 {
        let pre = toks.drop_last();
        lemma_gold_links_members(pre, sep, substract_one, p);
        let t = toks.last();
        if gold_links(toks, sep, substract_one).contains(p) {
            if gold_links(pre, sep, substract_one).contains(p) {
                let j = choose|j: int|
                    0 <= j < pre.len() && link_kind(#[trigger] pre[j]) == Some(sep) && parse_link(
                        pre[j],
                        sep,
                        substract_one,
                    ) == Some(p);
                assert(toks[j] == pre[j]);
            } else {
                assert(toks[toks.len() - 1] == t);
            }
        }
        if exists|j: int|
            0 <= j < toks.len() && link_kind(#[trigger] toks[j]) == Some(sep) && parse_link(
                toks[j],
                sep,
                substract_one,
            ) == Some(p) {
            let j = choose|j: int|
                0 <= j < toks.len() && link_kind(#[trigger] toks[j]) == Some(sep) && parse_link(
                    toks[j],
                    sep,
                    substract_one,
                ) == Some(p);
            if j < toks.len() - 1 {
                assert(pre[j] == toks[j]);
            } else {
                assert(t == toks[j]);
            }
        }
    }
}

/// Parses one gold token that holds the separator `sep`.
fn parse_link_token(tok: &str, sep: char, substract_one: bool) -> (r: Option<Link>)
    ensures
        r == parse_link(tok@, sep, substract_one),
{
    let parts = split_char(tok, sep);
    if parts.len() != 2 {
        return None;
    }
    assert(parts@[0]@ == split_on(tok@, sep)[0]);
    assert(parts@[1]@ == split_on(tok@, sep)[1]);
    let a = parse_usize(parts[0].as_str());
    let b = parse_usize(parts[1].as_str());
    match (a, b) {
        (Some(a), Some(b)) => {
            if !substract_one {
                Some((a, b))
            } else if a >= 1 && b >= 1 {
                Some((a - 1, b - 1))
            } else {
                None
            }
        },
        _ => None,
    }
}

/// Parses one line of a gold alignment file: whitespace-separated tokens `x-y`
/// (sure links) and `x?y` (possible links); other tokens are ignored. `None` where a
/// token that writes a link is malformed.
pub fn parse_gold_line(line: &str, substract_one: bool) -> (r: Option<AlgnGold>)
    ensures
        r is Some <==> gold_tokens_valid(split_ws(line@), substract_one),
        r matches Some(g) ==> g.0@ == gold_links(split_ws(line@), '-', substract_one) && g.1@
            == gold_links(split_ws(line@), '?', substract_one),
        r matches Some(g) ==> forall|p: Link|
            g.0@.contains(p) <==> exists|j: int|
                0 <= j < split_ws(line@).len() && link_kind(#[trigger] split_ws(line@)[j]) == Some('-')
                    && parse_link(split_ws(line@)[j], '-', substract_one) == Some(p),
        r matches Some(g) ==> forall|p: Link|
            g.1@.contains(p) <==> exists|j: int|
                0 <= j < split_ws(line@).len() && link_kind(#[trigger] split_ws(line@)[j]) == Some('?')
                    && parse_link(split_ws(line@)[j], '?', substract_one) == Some(p),
{
    let toks = split_whitespace(line);
    let ghost ts = split_ws(line@);
    let n = toks.len();
    let mut sure = AlgnHard::new();
    let mut poss = AlgnHard::new();
    let mut j: usize = 0;
    proof {
        assert(ts.take(0) =~= Seq::<Seq<char>>::empty());
    }
    while j < n
        invariant
            string_views(toks@) == ts,
            ts == split_ws(line@),
            n == ts.len(),
            j <= n,
            gold_tokens_valid(ts.take(j as int), substract_one),
            sure@ == gold_links(ts.take(j as int), '-', substract_one),
            poss@ == gold_links(ts.take(j as int), '?', substract_one),
        decreases n - j,
    {
        let tok = toks[j].as_str();
        let ghost t = ts[j as int];
        assert(tok@ == t);
        let ghost pre = ts.take(j as int);
        let ghost next = ts.take(j + 1);
        proof {
            assert(next.drop_last() =~= pre);
            assert(next.last() == t);
        }
        if contains_char(tok, '-') {
            match parse_link_token(tok, '-', substract_one) {
                Some(link) => {
                    sure.insert(link);
                },
                None => {
                    proof {
                        assert(ts[j as int] == t);
                        assert(!gold_tokens_valid(ts, substract_one));
                    }
                    return None;
                },
            }
        } else if contains_char(tok, '?') {
            match parse_link_token(tok, '?', substract_one) {
                Some(link) => {
                    poss.insert(link);
                },
                None => {
                    proof {
                        assert(ts[j as int] == t);
                        assert(!gold_tokens_valid(ts, substract_one));
                    }
                    return None;
                },
            }
        }
        proof {
            assert forall|q: int| 0 <= q < next.len() implies match link_kind(#[trigger] next[q]) {
                Some(sep) => parse_link(next[q], sep, substract_one) is Some,
                None => true,
            } by {
                if q < j {
                    assert(next[q] == pre[q]);
                }
            }
        }
        j = j + 1;
    }
    proof {
        assert(ts.take(n as int) =~= ts);
        assert forall|p: Link| sure@.contains(p) <==> exists|j: int|
            0 <= j < ts.len() && link_kind(#[trigger] ts[j]) == Some('-') && parse_link(ts[j], '-', substract_one)
                == Some(p) by {
            lemma_gold_links_members(ts, '-', substract_one, p);
        }
        assert forall|p: Link| poss@.contains(p) <==> exists|j: int|
            0 <= j < ts.len() && link_kind(#[trigger] ts[j]) == Some('?') && parse_link(ts[j], '?', substract_one)
                == Some(p) by {
            lemma_gold_links_members(ts, '?', substract_one, p);
        }
    }
    Some((sure, poss))
}

} // verus!
