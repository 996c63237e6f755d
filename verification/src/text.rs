use vstd::prelude::*;
use vstd::string::StrSliceExecFns;
use vstd::string::StringExecFns;

verus! {

broadcast use vstd::string::group_string_axioms;

/// Whether a character has the Unicode `White_Space` property.
pub open spec fn is_white_space(c: char) -> bool {
    let u = c as u32;
    ||| 0x09 <= u <= 0x0d
    ||| u == 0x20
    ||| u == 0x85
    ||| u == 0xa0
    ||| u == 0x1680
    ||| 0x2000 <= u <= 0x200a
    ||| u == 0x2028
    ||| u == 0x2029
    ||| u == 0x202f
    ||| u == 0x205f
    ||| u == 0x3000
}

/// Calls `char::is_whitespace`, which std documents as true exactly for the
/// characters with the Unicode `White_Space` property; the contract lists them.
#[verifier::external_body]
pub(crate) fn char_is_whitespace(c: char) -> (b: bool)
    ensures
        b == is_white_space(c),
{
    c.is_whitespace()
}

/// The views of a sequence of strings.
pub open spec fn string_views(v: Seq<String>) -> Seq<Seq<char>> {
    v.map_values(|s: String| s@)
}

/// The characters of a string slice, in order.
pub fn chars_of(s: &str) -> (r: Vec<char>)
    ensures
        r@ == s@,
{
    let mut v: Vec<char> = Vec::new();
    for c in it: s.chars()
        invariant
            v@ == it.seq().take(it.index() as int),
            it.seq() == s@,
    {
        v.push(c);
    }
    v
}

// ---------------------------------------------------------------------------
// Splitting at whitespace

/// The number of leading characters of `s` that are not whitespace.
pub open spec fn token_len(s: Seq<char>) -> nat
    decreases s.len(),
{
    if s.len() == 0 || is_white_space(s[0]) {
        0
    } else {
        1 + token_len(s.drop_first())
    }
}

pub proof fn lemma_token_len_bound(s: Seq<char>)
    ensures
        token_len(s) <= s.len(),
        s.len() > 0 && !is_white_space(s[0]) ==> token_len(s) >= 1,
    decreases s.len(),
{
    if s.len() > 0 && !is_white_space(s[0]) {
        lemma_token_len_bound(s.drop_first());
    }
}

/// The words of `s`: its maximal runs of non-whitespace characters, in order.
pub open spec fn split_ws(s: Seq<char>) -> Seq<Seq<char>>
    decreases s.len(),
{
    if s.len() == 0 {
        Seq::empty()
    } else if is_white_space(s[0]) {
        split_ws(s.drop_first())
    } else {
        let n = token_len(s);
        proof {
            lemma_token_len_bound(s);
        }
        seq![s.take(n as int)] + split_ws(s.skip(n as int))
    }
}

/// Every word is non-empty and holds no whitespace.
pub proof fn lemma_split_ws_words(s: Seq<char>)
    ensures
        forall|i: int| 0 <= i < split_ws(s).len() ==> (#[trigger] split_ws(s)[i]).len() > 0,
        forall|i: int, j: int|
            0 <= i < split_ws(s).len() && 0 <= j < split_ws(s)[i].len() ==> !is_white_space(
                #[trigger] split_ws(s)[i][j],
            ),
    decreases s.len(),
{
    if s.len() == 0 {
    } else if is_white_space(s[0]) {
        lemma_split_ws_words(s.drop_first());
        assert(split_ws(s) == split_ws(s.drop_first()));
    } else {
        let n = token_len(s) as int;
        lemma_token_len_bound(s);
        lemma_token_prefix(s, n);
        lemma_split_ws_words(s.skip(n));
        let w = split_ws(s);
        assert(w == seq![s.take(n)] + split_ws(s.skip(n)));
        assert forall|i: int| 0 <= i < w.len() implies (#[trigger] w[i]).len() > 0 by {
            if i > 0 {
                assert(w[i] == split_ws(s.skip(n))[i - 1]);
            }
        }
        assert forall|i: int, j: int| 0 <= i < w.len() && 0 <= j < w[i].len() implies !is_white_space(
            #[trigger] w[i][j],
        ) by {
            if i > 0 {
                assert(w[i] == split_ws(s.skip(n))[i - 1]);
            } else {
                assert(w[0][j] == s[j]);
            }
        }
    }
}

/// A non-empty run of non-whitespace characters is one word.
pub proof fn lemma_split_ws_single_word(w: Seq<char>)
    requires
        w.len() > 0,
        forall|j: int| 0 <= j < w.len() ==> !is_white_space(#[trigger] w[j]),
    ensures
        split_ws(w) == seq![w],
{
    lemma_token_len_run(w, w.len() as int);
    assert(!is_white_space(w[0]));
    assert(w.take(w.len() as int) =~= w);
    assert(w.skip(w.len() as int) =~= Seq::<char>::empty());
    assert(split_ws(Seq::<char>::empty()) =~= Seq::<Seq<char>>::empty());
    assert(split_ws(w) =~= seq![w.take(w.len() as int)] + split_ws(w.skip(w.len() as int)));
    assert(split_ws(w) =~= seq![w]);
}

/// A word ends at whitespace or at the end.
proof fn lemma_token_len_stop(s: Seq<char>)
    ensures
        token_len(s) < s.len() ==> is_white_space(s[token_len(s) as int]),
    decreases s.len(),
{
    if s.len() > 0 && !is_white_space(s[0]) {
        lemma_token_len_stop(s.drop_first());
        lemma_token_len_bound(s.drop_first());
        if token_len(s) < s.len() {
            assert(s[token_len(s) as int] == s.drop_first()[token_len(s.drop_first()) as int]);
        }
    }
}

/// Splitting at a whitespace character: the words of `a`, then the words of `b`.
pub proof fn lemma_split_ws_at_space(a: Seq<char>, c: char, b: Seq<char>)
    requires
        is_white_space(c),
    ensures
        split_ws(a + seq![c] + b) == split_ws(a) + split_ws(b),
    decreases a.len(),
{
    let x = a + seq![c] + b;
    if a.len() == 0 {
        assert(x[0] == c);
        assert(x.drop_first() =~= b);
        assert(split_ws(a) =~= Seq::<Seq<char>>::empty());
        assert(split_ws(x) =~= split_ws(a) + split_ws(b));
    } else if is_white_space(a[0]) {
        assert(x[0] == a[0]);
        assert(x.drop_first() =~= a.drop_first() + seq![c] + b);
        lemma_split_ws_at_space(a.drop_first(), c, b);
    } else {
        let m = token_len(a) as int;
        lemma_token_len_bound(a);
        lemma_token_prefix(a, m);
        assert forall|j: int| 0 <= j < m implies !is_white_space(#[trigger] x[j]) by {
            assert(x[j] == a[j]);
        }
        if m < a.len() {
            lemma_token_len_stop(a);
            assert(x[m] == a[m]);
        } else {
            assert(x[m] == c);
        }
        lemma_token_len_run(x, m);
        assert(x[0] == a[0]);
        assert(x.take(m) =~= a.take(m));
        assert(x.skip(m) =~= a.skip(m) + seq![c] + b);
        lemma_split_ws_at_space(a.skip(m), c, b);
        assert(split_ws(x) =~= split_ws(a) + split_ws(b));
    }
}

/// The first `token_len(s)` characters are not whitespace.
proof fn lemma_token_prefix(s: Seq<char>, n: int)
    requires
        n == token_len(s),
    ensures
        forall|j: int| 0 <= j < n ==> !is_white_space(#[trigger] s[j]),
    decreases s.len(),
{
    if s.len() > 0 && !is_white_space(s[0]) {
        lemma_token_len_bound(s);
        lemma_token_prefix(s.drop_first(), n - 1);
        assert forall|j: int| 0 <= j < n implies !is_white_space(#[trigger] s[j]) by {
            if j > 0 {
                assert(s[j] == s.drop_first()[j - 1]);
            }
        }
    }
}

proof fn lemma_token_len_run(s: Seq<char>, k: int)
    requires
        0 <= k <= s.len(),
        forall|j: int| 0 <= j < k ==> !is_white_space(#[trigger] s[j]),
        k == s.len() || is_white_space(s[k]),
    ensures
        token_len(s) == k,
    decreases k,
{
    if k > 0 {
        let t = s.drop_first();
        assert forall|j: int| 0 <= j < k - 1 implies !is_white_space(#[trigger] t[j]) by {
            assert(t[j] == s[j + 1]);
        }
        if k < s.len() {
            assert(t[k - 1] == s[k]);
        }
        lemma_token_len_run(t, k - 1);
    }
}

proof fn lemma_split_ws_word(s: Seq<char>, start: int, i: int)
    requires
        0 <= start < i <= s.len(),
        forall|j: int| start <= j < i ==> !is_white_space(#[trigger] s[j]),
        i == s.len() || is_white_space(s[i]),
    ensures
        split_ws(s.skip(start)) == seq![s.subrange(start, i)] + split_ws(s.skip(i)),
{
    let t = s.skip(start);
    assert forall|j: int| 0 <= j < i - start implies !is_white_space(#[trigger] t[j]) by {
        assert(t[j] == s[start + j]);
    }
    if i < s.len() {
        assert(t[i - start] == s[i]);
    }
    lemma_token_len_run(t, i - start);
    assert(t[0] == s[start]);
    assert(t.take(i - start) =~= s.subrange(start, i));
    assert(t.skip(i - start) =~= s.skip(i));
}

proof fn lemma_split_ws_space(s: Seq<char>, i: int)
    requires
        0 <= i < s.len(),
        is_white_space(s[i]),
    ensures
        split_ws(s.skip(i)) == split_ws(s.skip(i + 1)),
{
    let t = s.skip(i);
    assert(t[0] == s[i]);
    assert(t.drop_first() =~= s.skip(i + 1));
}

/// Split a string at whitespace into its words.
pub fn split_whitespace(s: &str) -> (r: Vec<String>)
    ensures
        string_views(r@) == split_ws(s@),
{
    let chars = chars_of(s);
    let n = chars.len();
    let mut out: Vec<String> = Vec::new();
    let mut in_word = false;
    let mut start: usize = 0;
    let mut i: usize = 0;
    proof {
        assert(s@.skip(0) =~= s@);
    }
    while i < n
        invariant
            chars@ == s@,
            n == s@.len(),
            i <= n,
            start <= i,
            !in_word ==> start == i,
            in_word ==> start < i,
            forall|j: int| start <= j < i ==> !is_white_space(#[trigger] s@[j]),
            string_views(out@) + split_ws(s@.skip(start as int)) == split_ws(s@),
        decreases n - i,
    {
        let c = chars[i];
        if char_is_whitespace(c) {
            if in_word {
                let word = <String as StringExecFns>::from_str(s.substring_char(start, i));
                proof {
                    lemma_split_ws_word(s@, start as int, i as int);
                    assert(string_views(out@.push(word)) =~= string_views(out@).push(word@));
                    assert(seq![s@.subrange(start as int, i as int)] + split_ws(s@.skip(i as int))
                        =~= seq![word@] + split_ws(s@.skip(i as int)));
                    assert(string_views(out@).push(word@) + split_ws(s@.skip(i as int))
                        =~= string_views(out@) + (seq![word@] + split_ws(s@.skip(i as int))));
                }
                out.push(word);
                in_word = false;
            }
            proof {
                lemma_split_ws_space(s@, i as int);
            }
            i = i + 1;
            start = i;
        } else {
            if !in_word {
                in_word = true;
                start = i;
            }
            i = i + 1;
        }
    }
    if in_word {
        let word = <String as StringExecFns>::from_str(s.substring_char(start, n));
        proof {
            lemma_split_ws_word(s@, start as int, n as int);
            assert(s@.skip(n as int) =~= Seq::<char>::empty());
            assert(string_views(out@.push(word)) =~= string_views(out@).push(word@));
            assert(string_views(out@).push(word@) + split_ws(s@.skip(n as int)) =~= string_views(out@)
                + (seq![word@] + split_ws(s@.skip(n as int))));
        }
        out.push(word);
    }
    proof {
        assert(s@.skip(n as int) =~= Seq::<char>::empty());
        assert(string_views(out@) + Seq::<Seq<char>>::empty() =~= string_views(out@));
    }
    out
}

// ---------------------------------------------------------------------------
// Splitting at a separator character

/// The number of leading characters of `s` before the first `sep`.
pub open spec fn piece_len(s: Seq<char>, sep: char) -> nat
    decreases s.len(),
{
    if s.len() == 0 || s[0] == sep {
        0
    } else {
        1 + piece_len(s.drop_first(), sep)
    }
}

pub proof fn lemma_piece_len_bound(s: Seq<char>, sep: char)
    ensures
        piece_len(s, sep) <= s.len(),
    decreases s.len(),
{
    if s.len() > 0 && s[0] != sep {
        lemma_piece_len_bound(s.drop_first(), sep);
    }
}

/// The pieces of `s` between occurrences of `sep`: one more than the number of
/// separators, empty pieces included.
pub open spec fn split_on(s: Seq<char>, sep: char) -> Seq<Seq<char>>
    decreases s.len(),
{
    let k = piece_len(s, sep);
    proof {
        lemma_piece_len_bound(s, sep);
    }
    if k >= s.len() {
        seq![s]
    } else {
        seq![s.take(k as int)] + split_on(s.skip((k + 1) as int), sep)
    }
}

proof fn lemma_piece_len_run(s: Seq<char>, sep: char, k: int)
    requires
        0 <= k <= s.len(),
        forall|j: int| 0 <= j < k ==> #[trigger] s[j] != sep,
        k == s.len() || s[k] == sep,
    ensures
        piece_len(s, sep) == k,
    decreases k,
{
    if k > 0 {
        let t = s.drop_first();
        assert forall|j: int| 0 <= j < k - 1 implies #[trigger] t[j] != sep by {
            assert(t[j] == s[j + 1]);
        }
        if k < s.len() {
            assert(t[k - 1] == s[k]);
        }
        lemma_piece_len_run(t, sep, k - 1);
    }
}

/// A piece holds no separator and ends at a separator or at the end.
proof fn lemma_piece_len_facts(s: Seq<char>, sep: char)
    ensures
        forall|j: int| 0 <= j < piece_len(s, sep) ==> #[trigger] s[j] != sep,
        piece_len(s, sep) < s.len() ==> s[piece_len(s, sep) as int] == sep,
    decreases s.len(),
{
    if s.len() > 0 && s[0] != sep {
        let t = s.drop_first();
        lemma_piece_len_facts(t, sep);
        lemma_piece_len_bound(t, sep);
        assert forall|j: int| 0 <= j < piece_len(s, sep) implies #[trigger] s[j] != sep by {
            if j > 0 {
                assert(s[j] == t[j - 1]);
            }
        }
        if piece_len(s, sep) < s.len() {
            assert(s[piece_len(s, sep) as int] == t[piece_len(t, sep) as int]);
        }
    }
}

/// A text without the separator is a single piece.
pub proof fn lemma_split_on_single_piece(w: Seq<char>, sep: char)
    requires
        forall|j: int| 0 <= j < w.len() ==> #[trigger] w[j] != sep,
    ensures
        split_on(w, sep) == seq![w],
{
    lemma_piece_len_run(w, sep, w.len() as int);
}

/// Splitting at a separator: the pieces of `a`, then the pieces of `b`.
pub proof fn lemma_split_on_at_sep(a: Seq<char>, sep: char, b: Seq<char>)
    ensures
        split_on(a + seq![sep] + b, sep) == split_on(a, sep) + split_on(b, sep),
    decreases a.len(),
{
    let x = a + seq![sep] + b;
    let m = piece_len(a, sep) as int;
    lemma_piece_len_bound(a, sep);
    lemma_piece_len_facts(a, sep);
    assert forall|j: int| 0 <= j < m implies #[trigger] x[j] != sep by {
        assert(x[j] == a[j]);
    }
    if m < a.len() {
        assert(x[m] == a[m]);
        lemma_piece_len_run(x, sep, m);
        assert(x.take(m) =~= a.take(m));
        assert(x.skip(m + 1) =~= a.skip(m + 1) + seq![sep] + b);
        lemma_split_on_at_sep(a.skip(m + 1), sep, b);
        assert(split_on(x, sep) =~= split_on(a, sep) + split_on(b, sep));
    } else {
        assert(x[m] == sep);
        lemma_piece_len_run(x, sep, m);
        assert(x.take(m) =~= a);
        assert(x.skip(m + 1) =~= b);
        assert(split_on(a, sep) == seq![a]);
        assert(split_on(x, sep) =~= split_on(a, sep) + split_on(b, sep));
    }
}

proof fn lemma_split_on_piece(s: Seq<char>, sep: char, start: int, i: int)
    requires
        0 <= start <= i <= s.len(),
        forall|j: int| start <= j < i ==> #[trigger] s[j] != sep,
        i == s.len() || s[i] == sep,
    ensures
        i == s.len() ==> split_on(s.skip(start), sep) == seq![s.skip(start)],
        i < s.len() ==> split_on(s.skip(start), sep) == seq![s.subrange(start, i)] + split_on(
            s.skip(i + 1),
            sep,
        ),
{
    let t = s.skip(start);
    assert forall|j: int| 0 <= j < i - start implies #[trigger] t[j] != sep by {
        assert(t[j] == s[start + j]);
    }
    if i < s.len() {
        assert(t[i - start] == s[i]);
    }
    lemma_piece_len_run(t, sep, i - start);
    assert(t.take(i - start) =~= s.subrange(start, i));
    if i < s.len() {
        assert(t.skip(i - start + 1) =~= s.skip(i + 1));
    } else {
        assert(t.take(i - start) =~= t);
    }
}

/// Split a string at every occurrence of `sep`.
pub fn split_char(s: &str, sep: char) -> (r: Vec<String>)
    ensures
        string_views(r@) == split_on(s@, sep),
{
    let chars = chars_of(s);
    let n = chars.len();
    let mut out: Vec<String> = Vec::new();
    let mut start: usize = 0;
    let mut i: usize = 0;
    proof {
        assert(s@.skip(0) =~= s@);
    }
    while i < n
        invariant
            chars@ == s@,
            n == s@.len(),
            start <= i <= n,
            forall|j: int| start <= j < i ==> #[trigger] s@[j] != sep,
            string_views(out@) + split_on(s@.skip(start as int), sep) == split_on(s@, sep),
        decreases n - i,
    {
        if chars[i] == sep {
            let piece = <String as StringExecFns>::from_str(s.substring_char(start, i));
            proof {
                lemma_split_on_piece(s@, sep, start as int, i as int);
                assert(string_views(out@.push(piece)) =~= string_views(out@).push(piece@));
                assert(string_views(out@).push(piece@) + split_on(s@.skip(i + 1), sep) =~= string_views(
                    out@,
                ) + (seq![piece@] + split_on(s@.skip(i + 1), sep)));
            }
            out.push(piece);
            start = i + 1;
        }
        i = i + 1;
    }
    let piece = <String as StringExecFns>::from_str(s.substring_char(start, n));
    proof {
        lemma_split_on_piece(s@, sep, start as int, n as int);
        assert(s@.subrange(start as int, n as int) =~= s@.skip(start as int));
        assert(string_views(out@.push(piece)) =~= string_views(out@).push(piece@));
        assert(string_views(out@).push(piece@) =~= string_views(out@) + seq![piece@]);
    }
    out.push(piece);
    out
}


// ---------------------------------------------------------------------------
// Unsigned integers and character tests

/// Whether the character is an ASCII decimal digit.
pub open spec fn is_digit(c: char) -> bool {
    '0' <= c && c <= '9'
}

/// The value of a decimal digit.
pub open spec fn digit_value(c: char) -> nat {
    ((c as u32) - ('0' as u32)) as nat
}

/// The value of a sequence of decimal digits.
pub open spec fn digits_value(d: Seq<char>) -> nat
    decreases d.len(),
{
    if d.len() == 0 {
        0
    } else {
        digits_value(d.drop_last()) * 10 + digit_value(d.last())
    }
}

/// The digits of an unsigned number: the text after an optional leading `+`.
pub open spec fn unsigned_digits(s: Seq<char>) -> Seq<char> {
    if s.len() > 0 && s[0] == '+' {
        s.drop_first()
    } else {
        s
    }
}

/// The `usize` written in `s` as an optional `+` followed by one or more decimal
/// digits, if it does not exceed `usize::MAX`.
pub open spec fn parse_usize_spec(s: Seq<char>) -> Option<usize> {
    let d = unsigned_digits(s);
    if d.len() > 0 && (forall|i: int| 0 <= i < d.len() ==> is_digit(#[trigger] d[i])) && digits_value(d)
        <= usize::MAX {
        Some(digits_value(d) as usize)
    } else {
        None
    }
}

/// Positional notation: the digits of `a` followed by those of `b` are worth `a`
/// shifted left by the length of `b`, plus `b`.
pub proof fn lemma_digits_value_append(a: Seq<char>, b: Seq<char>)
    ensures
        digits_value(a + b) == digits_value(a) * vstd::arithmetic::power::pow(10, b.len()) + digits_value(b),
    decreases b.len(),
{
    reveal(vstd::arithmetic::power::pow);
    if b.len() == 0 {
        assert(a + b =~= a);
    } else {
        let bd = b.drop_last();
        lemma_digits_value_append(a, bd);
        assert((a + b).drop_last() =~= a + bd);
        assert((a + b).last() == b.last());
        let va = digits_value(a) as int;
        let p = vstd::arithmetic::power::pow(10, bd.len());
        assert(vstd::arithmetic::power::pow(10, b.len()) == 10 * p);
        assert((va * p + digits_value(bd)) * 10 + digit_value(b.last()) == va * (10 * p) + (digits_value(bd) * 10
            + digit_value(b.last()))) by (nonlinear_arith);
    }
}

/// A single decimal digit is read as its value.
pub proof fn lemma_parse_usize_digit(c: char)
    requires
        is_digit(c),
    ensures
        parse_usize_spec(seq![c]) == Some(digit_value(c) as usize),
{
    let d = seq![c];
    assert(d[0] == c);
    assert(c != '+');
    assert(unsigned_digits(d) == d);
    assert(d.drop_last() =~= Seq::<char>::empty());
    assert(d.last() == c);
    assert(digits_value(d.drop_last()) == 0);
    assert(digits_value(d) == digits_value(d.drop_last()) * 10 + digit_value(d.last()));
    assert(digits_value(d) == digit_value(c));
    assert(digit_value(c) <= 9);
    assert(forall|i: int| 0 <= i < d.len() ==> is_digit(#[trigger] d[i]));
}

proof fn lemma_digits_value_prefix(d: Seq<char>, i: int)
    requires
        0 <= i <= d.len(),
    ensures
        digits_value(d.take(i)) <= digits_value(d),
    decreases d.len() - i,
{
    if i < d.len() {
        lemma_digits_value_prefix(d, i + 1);
        assert(d.take(i + 1).drop_last() =~= d.take(i));
    } else {
        assert(d.take(i) =~= d);
    }
}

/// Parses an unsigned integer as `usize::from_str` does: an optional `+`, then
/// decimal digits only, without overflow.
pub fn parse_usize(s: &str) -> (r: Option<usize>)
    ensures
        r == parse_usize_spec(s@),
{
    let chars = chars_of(s);
    let n = chars.len();
    let skip: usize = if n > 0 && chars[0] == '+' { 1 } else { 0 };
    let ghost d = unsigned_digits(s@);
    proof {
        assert(d =~= s@.skip(skip as int));
    }
    if skip == n {
        return None;
    }
    let mut v: usize = 0;
    let mut i: usize = skip;
    proof {
        assert(d.take(0) =~= Seq::<char>::empty());
    }
    while i < n
        invariant
            chars@ == s@,
            n == s@.len(),
            skip <= i <= n,
            skip < n,
            d == s@.skip(skip as int),
            d == unsigned_digits(s@),
            forall|j: int| 0 <= j < i - skip ==> is_digit(#[trigger] d[j]),
            v as nat == digits_value(d.take(i - skip)),
        decreases n - i,
    {
        let c = chars[i];
        assert(c == d[i - skip]);
        if !('0' <= c && c <= '9') {
            proof {
                assert(!is_digit(d[i - skip]));
            }
            return None;
        }
        let dig = (c as u32 - '0' as u32) as usize;
        proof {
            assert(d.take(i - skip + 1).drop_last() =~= d.take(i - skip));
            assert(d.take(i - skip + 1).last() == c);
        }
        let next = match v.checked_mul(10) {
            Some(t) => t.checked_add(dig),
            None => None,
        };
        match next {
            Some(t) => {
                v = t;
            },
            None => {
                proof {
                    assert(dig as nat == digit_value(c));
                    assert(digits_value(d.take(i - skip + 1)) == v as nat * 10 + dig as nat);
                    assert(digits_value(d.take(i - skip + 1)) > usize::MAX);
                    if forall|j: int| 0 <= j < d.len() ==> is_digit(#[trigger] d[j]) {
                        lemma_digits_value_prefix(d, i - skip + 1);
                    }
                }
                return None;
            },
        }
        i = i + 1;
    }
    proof {
        assert(d.take(n - skip) =~= d);
    }
    Some(v)
}

/// Whether the string holds the character `c`.
pub fn contains_char(s: &str, c: char) -> (b: bool)
    ensures
        b == s@.contains(c),
{
    let chars = chars_of(s);
    let n = chars.len();
    let mut i: usize = 0;
    while i < n
        invariant
            chars@ == s@,
            n == s@.len(),
            i <= n,
            forall|j: int| 0 <= j < i ==> #[trigger] s@[j] != c,
        decreases n - i,
    {
        if chars[i] == c {
            assert(s@[i as int] == c);
            return true;
        }
        i = i + 1;
    }
    false
}

} // verus!
