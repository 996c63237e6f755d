use vstd::prelude::*;

verus! {

/// Whether every row of a matrix has at least as many entries as its first row.
pub open spec fn rows_cover_first<T>(m: Seq<Vec<T>>) -> bool {
    m.len() > 0 && forall|j: int| 0 <= j < m.len() ==> #[trigger] m[j]@.len() >= m[0]@.len()
}

/// The transpose of a matrix given as rows; its width is that of the first row.
pub open spec fn transposed<T>(m: Seq<Seq<T>>) -> Seq<Seq<T>> {
    Seq::new(m[0].len(), |i: int| Seq::new(m.len(), |j: int| m[j][i]))
}

/// Whether a matrix is a non-empty rectangle with at least one column.
pub open spec fn is_rectangular<T>(m: Seq<Seq<T>>) -> bool {
    m.len() > 0 && m[0].len() > 0 && forall|j: int| 0 <= j < m.len() ==> #[trigger] m[j].len() == m[0].len()
}

/// The rows of a matrix of vectors, as sequences.
pub open spec fn rows<T>(m: Seq<Vec<T>>) -> Seq<Seq<T>> {
    m.map_values(|r: Vec<T>| r@)
}

/// Transpose a matrix (vector of vectors). The result has one row per entry of the
/// first row; every row must be at least that long.
pub fn transpose<T: Clone>(v: Vec<Vec<T>>) -> (r: Vec<Vec<T>>)
    requires
        rows_cover_first(v@),
    ensures
        r@.len() == v@[0]@.len(),
        forall|i: int| 0 <= i < r@.len() ==> (#[trigger] r@[i])@.len() == v@.len(),
        forall|i: int, j: int|
            0 <= i < r@.len() && 0 <= j < v@.len() ==> cloned::<T>(
                transposed(rows(v@))[i][j],
                #[trigger] r@[i]@[j],
            ),
{
    let width = v[0].len();
    let height = v.len();
    let mut out: Vec<Vec<T>> = Vec::new();
    let mut i: usize = 0;
    while i < width
        invariant
            width == v@[0]@.len(),
            height == v@.len(),
            rows_cover_first(v@),
            i <= width,
            out@.len() == i,
            forall|a: int| 0 <= a < i ==> (#[trigger] out@[a])@.len() == height,
            forall|a: int, b: int|
                0 <= a < i && 0 <= b < height ==> cloned::<T>(v@[b]@[a], #[trigger] out@[a]@[b]),
        decreases width - i,
    {
        let mut row: Vec<T> = Vec::new();
        let mut j: usize = 0;
        while j < height
            invariant
                width == v@[0]@.len(),
                height == v@.len(),
                rows_cover_first(v@),
                i < width,
                j <= height,
                row@.len() == j,
                forall|b: int| 0 <= b < j ==> cloned::<T>(v@[b]@[i as int], #[trigger] row@[b]),
            decreases height - j,
        {
            assert(v@[j as int]@.len() >= width);
            row.push(v[j][i].clone());
            j = j + 1;
        }
        out.push(row);
        i = i + 1;
    }
    proof {
        assert forall|a: int, b: int|
            0 <= a < out@.len() && 0 <= b < v@.len() implies cloned::<T>(
            transposed(rows(v@))[a][b],
            #[trigger] out@[a]@[b],
        ) by {
            assert(transposed(rows(v@))[a][b] == v@[b]@[a]);
        }
    }
    out
}

/// Entry `(i, j)` of the transpose is entry `(j, i)` of the matrix; the transpose
/// has a row per column and a column per row.
pub proof fn lemma_transposed_entries<T>(m: Seq<Seq<T>>, i: int, j: int)
    requires
        is_rectangular(m),
        0 <= i < m[0].len(),
        0 <= j < m.len(),
    ensures
        transposed(m).len() == m[0].len(),
        transposed(m)[i].len() == m.len(),
        transposed(m)[i][j] == m[j][i],
{
}

/// Transposing a non-empty rectangular matrix twice gives it back.
pub proof fn lemma_transpose_involution<T>(m: Seq<Seq<T>>)
    requires
        is_rectangular(m),
    ensures
        transposed(transposed(m)) == m,
{
    let t = transposed(m);
    assert(t.len() == m[0].len());
    assert(t[0].len() == m.len());
    assert forall|j: int| 0 <= j < m.len() implies #[trigger] transposed(t)[j] == m[j] by {
        assert(transposed(t)[j] =~= m[j]);
    }
    assert(transposed(t) =~= m);
}

/// Wrap every element in a singleton vector.
pub fn pack<T: Copy>(range: &[T]) -> (r: Vec<Vec<T>>)
    ensures
        r@.len() == range@.len(),
        forall|i: int| 0 <= i < r@.len() ==> (#[trigger] r@[i])@ == seq![range@[i]],
{
    let n = range.len();
    let mut out: Vec<Vec<T>> = Vec::new();
    let mut i: usize = 0;
    while i < n
        invariant
            n == range@.len(),
            i <= n,
            out@.len() == i,
            forall|k: int| 0 <= k < i ==> (#[trigger] out@[k])@ == seq![range@[k]],
        decreases n - i,
    {
        let mut single: Vec<T> = Vec::new();
        single.push(range[i]);
        out.push(single);
        i = i + 1;
    }
    out
}


/// The lengths of a list of vectors.
pub open spec fn list_lens<T>(lists: Seq<Vec<T>>) -> Seq<nat> {
    lists.map_values(|l: Vec<T>| l@.len())
}

/// Every way of extending the tuple `r` by one index below `n`, in increasing order.
pub open spec fn extend_each(r: Seq<usize>, n: nat) -> Seq<Seq<usize>> {
    Seq::new(n, |j: int| r.push(j as usize))
}

/// All index tuples `t` with `t[k] < lens[k]`, in lexicographic order (the last
/// position varies fastest). Zero lengths give the single empty tuple.
pub open spec fn index_tuples(lens: Seq<nat>) -> Seq<Seq<usize>>
    decreases lens.len(),
{
    if lens.len() == 0 {
        seq![Seq::<usize>::empty()]
    } else {
        index_tuples(lens.drop_last()).flat_map(|r: Seq<usize>| extend_each(r, lens.last()))
    }
}

/// The index tuples of the cartesian product of lists with the given lengths;
/// no lists give no tuples.
pub open spec fn product_indices(lens: Seq<nat>) -> Seq<Seq<usize>> {
    if lens.len() == 0 {
        Seq::empty()
    } else {
        index_tuples(lens)
    }
}

/// The product of the lengths.
pub open spec fn product_len(lens: Seq<nat>) -> nat
    decreases lens.len(),
{
    if lens.len() == 0 {
        1
    } else {
        product_len(lens.drop_last()) * lens.last()
    }
}

/// The first `m` tuples for all lists but the last, each extended by every index
/// of the last list, have the expected lengths and bounds.
proof fn lemma_extended_prefix(lens: Seq<nat>, m: int)
    requires
        lens.len() > 0,
        forall|k: int| 0 <= k < lens.len() ==> #[trigger] lens[k] <= usize::MAX,
        0 <= m <= index_tuples(lens.drop_last()).len(),
        forall|i: int|
            0 <= i < index_tuples(lens.drop_last()).len() ==> (#[trigger] index_tuples(
                lens.drop_last(),
            )[i]).len() == lens.len() - 1,
        forall|i: int, k: int|
            0 <= i < index_tuples(lens.drop_last()).len() && 0 <= k < lens.len() - 1
                ==> #[trigger] index_tuples(lens.drop_last())[i][k] < lens[k],
    ensures
        ({
            let s = index_tuples(lens.drop_last());
            let l = lens.last();
            let f = |r: Seq<usize>| extend_each(r, l);
            let pre = s.take(m).flat_map(f);
            &&& pre.len() == m * l
            &&& forall|i: int| 0 <= i < pre.len() ==> (#[trigger] pre[i]).len() == lens.len()
            &&& forall|i: int, k: int|
                0 <= i < pre.len() && 0 <= k < lens.len() ==> #[trigger] pre[i][k] < lens[k]
        }),
    decreases m,
{
    let p = lens.drop_last();
    let s = index_tuples(p);
    let l = lens.last();
    let f = |r: Seq<usize>| extend_each(r, l);
    if m == 0 {
        assert(s.take(0) =~= Seq::<Seq<usize>>::empty());
        assert(Seq::<Seq<usize>>::empty().map_values(f) =~= Seq::<Seq<Seq<usize>>>::empty());
        assert(s.take(0).flat_map(f) =~= Seq::<Seq<usize>>::empty());
    } else {
        lemma_extended_prefix(lens, m - 1);
        s.lemma_flat_map_take_append(f, m - 1);
        let prev = s.take(m - 1).flat_map(f);
        let ext = f(s[m - 1]);
        let next = s.take(m).flat_map(f);
        assert(next == prev + ext);
        assert((m - 1) * l + l == m * l) by (nonlinear_arith);
        assert forall|i: int| 0 <= i < next.len() implies (#[trigger] next[i]).len() == lens.len() by {
            if i >= prev.len() {
                assert(next[i] == ext[i - prev.len()]);
            }
        }
        assert forall|i: int, k: int| 0 <= i < next.len() && 0 <= k < lens.len() implies #[trigger] next[i][k]
            < lens[k] by {
            if i >= prev.len() {
                let j = i - prev.len();
                assert(next[i] == s[m - 1].push(j as usize));
                assert(lens[lens.len() - 1] == l);
                if k < p.len() {
                    assert(lens[k] == p[k]);
                }
            } else {
                assert(next[i] == prev[i]);
            }
        }
    }
}

/// Every index tuple has one position per list, each below that list's length,
/// and there are as many tuples as the product of the lengths.
pub proof fn lemma_index_tuples(lens: Seq<nat>)
    requires
        forall|k: int| 0 <= k < lens.len() ==> #[trigger] lens[k] <= usize::MAX,
    ensures
        index_tuples(lens).len() == product_len(lens),
        forall|i: int|
            0 <= i < index_tuples(lens).len() ==> (#[trigger] index_tuples(lens)[i]).len() == lens.len(),
        forall|i: int, k: int|
            0 <= i < index_tuples(lens).len() && 0 <= k < lens.len() ==> #[trigger] index_tuples(lens)[i][k]
                < lens[k],
    decreases lens.len(),
{
    if lens.len() == 0 {
        return;
    }
    let p = lens.drop_last();
    let l = lens.last();
    assert forall|k: int| 0 <= k < p.len() implies #[trigger] p[k] <= usize::MAX by {
        assert(p[k] == lens[k]);
    }
    lemma_index_tuples(p);
    let s = index_tuples(p);
    let f = |r: Seq<usize>| extend_each(r, l);
    assert forall|i: int, k: int| 0 <= i < s.len() && 0 <= k < lens.len() - 1 implies #[trigger] s[i][k]
        < lens[k] by {
        assert(p[k] == lens[k]);
    }
    lemma_extended_prefix(lens, s.len() as int);
    assert(s.take(s.len() as int) =~= s);
    assert(index_tuples(lens) == s.flat_map(f));
}

/// The position of an index tuple in mixed radix: the last index counts ones, the
/// one before counts multiples of the last length, and so on.
pub open spec fn tuple_rank(t: Seq<usize>, lens: Seq<nat>) -> nat
    decreases t.len(),
{
    if t.len() == 0 || lens.len() == 0 {
        0
    } else {
        tuple_rank(t.drop_last(), lens.drop_last()) * lens.last() + t.last() as nat
    }
}

/// The first `m` tuples each extended by every index below `l` come in blocks of `l`.
proof fn lemma_extended_blocks(s: Seq<Seq<usize>>, l: nat, m: int)
    requires
        0 <= m <= s.len(),
    ensures
        s.take(m).flat_map(|r: Seq<usize>| extend_each(r, l)).len() == m * l,
        forall|q: int, r: int|
            0 <= q < m && 0 <= r < l ==> s.take(m).flat_map(|r: Seq<usize>| extend_each(r, l))[q * l + r]
                == #[trigger] extend_each(s[q], l)[r],
    decreases m,
{
    let f = |r: Seq<usize>| extend_each(r, l);
    if m == 0 {
        assert(s.take(0) =~= Seq::<Seq<usize>>::empty());
        assert(Seq::<Seq<usize>>::empty().map_values(f) =~= Seq::<Seq<Seq<usize>>>::empty());
        assert(s.take(0).flat_map(f) =~= Seq::<Seq<usize>>::empty());
    } else {
        lemma_extended_blocks(s, l, m - 1);
        s.lemma_flat_map_take_append(f, m - 1);
        let prev = s.take(m - 1).flat_map(f);
        let ext = f(s[m - 1]);
        let next = s.take(m).flat_map(f);
        assert(next == prev + ext);
        assert((m - 1) * l + l == m * l) by (nonlinear_arith);
        assert forall|q: int, r: int| 0 <= q < m && 0 <= r < l implies next[q * l + r] == #[trigger] extend_each(
            s[q],
            l,
        )[r] by {
            if q < m - 1 {
                assert(q * l + r < (m - 1) * l) by (nonlinear_arith)
                    requires
                        0 <= q < m - 1,
                        0 <= r < l,
                ;
                assert(next[q * l + r] == prev[q * l + r]);
            } else {
                assert(q * l == (m - 1) * l);
                assert(next[q * l + r] == ext[r]);
            }
        }
    }
}

/// The index tuples come in counting order: the `i`-th tuple, read in mixed radix
/// over the list lengths, is `i` (the last position varies fastest).
pub proof fn lemma_index_tuples_rank(lens: Seq<nat>)
    requires
        forall|k: int| 0 <= k < lens.len() ==> #[trigger] lens[k] <= usize::MAX,
    ensures
        forall|i: int| 0 <= i < index_tuples(lens).len() ==> tuple_rank(#[trigger] index_tuples(lens)[i], lens) == i,
    decreases lens.len(),
{
    if lens.len() == 0 {
        assert(index_tuples(lens) == seq![Seq::<usize>::empty()]);
        return;
    }
    let p = lens.drop_last();
    let l = lens.last();
    assert forall|k: int| 0 <= k < p.len() implies #[trigger] p[k] <= usize::MAX by {
        assert(p[k] == lens[k]);
    }
    assert(lens[lens.len() - 1] == l);
    lemma_index_tuples_rank(p);
    let s = index_tuples(p);
    let f = |r: Seq<usize>| extend_each(r, l);
    lemma_extended_blocks(s, l, s.len() as int);
    assert(s.take(s.len() as int) =~= s);
    let t = index_tuples(lens);
    assert(t == s.flat_map(f));
    assert forall|i: int| 0 <= i < t.len() implies tuple_rank(#[trigger] t[i], lens) == i by {
        let li = l as int;
        assert(li > 0) by {
            if li == 0 {
                assert(s.len() * li == 0) by (nonlinear_arith)
                    requires
                        li == 0,
                ;
            }
        }
        let q = i / li;
        let r = i % li;
        vstd::arithmetic::div_mod::lemma_fundamental_div_mod(i, li);
        vstd::arithmetic::div_mod::lemma_mod_bound(i, li);
        assert(0 <= q < s.len()) by (nonlinear_arith)
            requires
                0 <= i < s.len() * li,
                li > 0,
                i == li * q + r,
                0 <= r < li,
        ;
        assert(q * li == li * q) by (nonlinear_arith);
        assert(t[i] == extend_each(s[q], l)[r]);
        assert(t[i] == s[q].push(r as usize));
        assert(t[i].drop_last() =~= s[q]);
        assert(tuple_rank(s[q], p) == q);
        assert((r as usize) as int == r);
        assert(t[i].last() == r as usize);
        assert(tuple_rank(t[i], lens) == tuple_rank(s[q], p) * l + r);
        assert(q * li + r == i);
    }
}

/// A copy of a vector of indices.
fn copy_indices(v: &Vec<usize>) -> (r: Vec<usize>)
    ensures
        r@ == v@,
{
    let n = v.len();
    let mut r: Vec<usize> = Vec::new();
    let mut i: usize = 0;
    while i < n
        invariant
            n == v@.len(),
            i <= n,
            r@ == v@.take(i as int),
        decreases n - i,
    {
        r.push(v[i]);
        proof {
            assert(v@.take(i + 1) =~= v@.take(i as int).push(v@[i as int]));
        }
        i = i + 1;
    }
    proof {
        assert(v@.take(n as int) =~= v@);
    }
    r
}

/// The index tuples of the cartesian product of lists with lengths `lens`.
fn product_index_tuples(lens: &Vec<usize>) -> (r: Vec<Vec<usize>>)
    ensures
        rows(r@) == index_tuples(lens@.map_values(|l: usize| l as nat)),
{
    let ghost nlens = lens@.map_values(|l: usize| l as nat);
    let mut idx: Vec<Vec<usize>> = Vec::new();
    idx.push(Vec::new());
    let n = lens.len();
    proof {
        assert(nlens.take(0) =~= Seq::<nat>::empty());
        assert(rows(idx@) =~= index_tuples(nlens.take(0)));
    }
    let mut k: usize = 0;
    while k < n
        invariant
            n == lens@.len(),
            nlens == lens@.map_values(|l: usize| l as nat),
            k <= n,
            rows(idx@) == index_tuples(nlens.take(k as int)),
        decreases n - k,
    {
        let len_k = lens[k];
        let ghost s = index_tuples(nlens.take(k as int));
        let ghost l = len_k as nat;
        let ghost f = |r: Seq<usize>| extend_each(r, l);
        proof {
            assert(nlens.take(k + 1).drop_last() =~= nlens.take(k as int));
            assert(nlens.take(k + 1).last() == l);
            assert(index_tuples(nlens.take(k + 1)) == s.flat_map(f));
            assert(s.take(0) =~= Seq::<Seq<usize>>::empty());
            assert(Seq::<Seq<usize>>::empty().map_values(f) =~= Seq::<Seq<Seq<usize>>>::empty());
        }
        let mut next: Vec<Vec<usize>> = Vec::new();
        let m = idx.len();
        let mut a: usize = 0;
        while a < m
            invariant
                m == idx@.len(),
                rows(idx@) == s,
                l == len_k as nat,
                f == (|r: Seq<usize>| extend_each(r, l)),
                a <= m,
                rows(next@) == s.take(a as int).flat_map(f),
            decreases m - a,
        {
            let mut j: usize = 0;
            proof {
                assert(rows(next@) =~= s.take(a as int).flat_map(f) + extend_each(s[a as int], l).take(0));
            }
            while j < len_k
                invariant
                    m == idx@.len(),
                    rows(idx@) == s,
                    l == len_k as nat,
                    a < m,
                    j <= len_k,
                    rows(next@) == s.take(a as int).flat_map(f) + extend_each(s[a as int], l).take(j as int),
                decreases len_k - j,
            {
                let mut t = copy_indices(&idx[a]);
                t.push(j);
                let ghost before = rows(next@);
                next.push(t);
                proof {
                    assert(idx@[a as int]@ == s[a as int]);
                    assert(rows(next@) =~= before.push(s[a as int].push(j)));
                    assert(extend_each(s[a as int], l).take(j + 1) =~= extend_each(s[a as int], l).take(
                        j as int,
                    ).push(s[a as int].push(j)));
                    assert(rows(next@) =~= s.take(a as int).flat_map(f) + extend_each(s[a as int], l).take(
                        j + 1,
                    ));
                }
                j = j + 1;
            }
            proof {
                assert(extend_each(s[a as int], l).take(l as int) =~= extend_each(s[a as int], l));
                s.lemma_flat_map_take_append(f, a as int);
            }
            a = a + 1;
        }
        proof {
            assert(s.take(m as int) =~= s);
        }
        idx = next;
        k = k + 1;
    }
    proof {
        assert(nlens.take(n as int) =~= nlens);
    }
    idx
}

/// Generate a cartesian product of multiple vectors: every way of picking one
/// element from each list, in lexicographic order of the picks (the last list
/// varies fastest). No lists give no tuples.
pub fn cartesian_product<T: Clone>(lists: &[Vec<T>]) -> (r: Vec<Vec<T>>)
    ensures
        r@.len() == product_indices(list_lens(lists@)).len(),
        lists@.len() > 0 ==> r@.len() == product_len(list_lens(lists@)),
        forall|i: int| 0 <= i < r@.len() ==> (#[trigger] r@[i])@.len() == lists@.len(),
        forall|i: int, k: int|
            0 <= i < r@.len() && 0 <= k < lists@.len() ==> cloned::<T>(
                lists@[k]@[product_indices(list_lens(lists@))[i][k] as int],
                #[trigger] r@[i]@[k],
            ),
        forall|i: int|
            0 <= i < r@.len() ==> tuple_rank(#[trigger] product_indices(list_lens(lists@))[i], list_lens(lists@))
                == i,
{
    let n = lists.len();
    let mut out: Vec<Vec<T>> = Vec::new();
    if n == 0 {
        return out;
    }
    let mut lens: Vec<usize> = Vec::new();
    let mut k: usize = 0;
    while k < n
        invariant
            n == lists@.len(),
            k <= n,
            lens@.len() == k,
            forall|q: int| 0 <= q < k ==> #[trigger] lens@[q] == lists@[q]@.len(),
        decreases n - k,
    {
        lens.push(lists[k].len());
        k = k + 1;
    }
    let ghost ls = list_lens(lists@);
    proof {
        assert(lens@.map_values(|l: usize| l as nat) =~= ls);
        lemma_index_tuples(ls);
        assert forall|q: int| 0 <= q < ls.len() implies #[trigger] ls[q] <= usize::MAX by {
            assert(ls[q] == lists@[q]@.len());
        }
        lemma_index_tuples_rank(ls);
    }
    let idx = product_index_tuples(&lens);
    let ghost tuples = index_tuples(ls);
    let m = idx.len();
    let mut i: usize = 0;
    while i < m
        invariant
            n == lists@.len(),
            n > 0,
            ls == list_lens(lists@),
            tuples == index_tuples(ls),
            rows(idx@) == tuples,
            m == idx@.len(),
            forall|a: int| 0 <= a < tuples.len() ==> (#[trigger] tuples[a]).len() == ls.len(),
            forall|a: int, q: int| 0 <= a < tuples.len() && 0 <= q < ls.len() ==> #[trigger] tuples[a][q] < ls[q],
            i <= m,
            out@.len() == i,
            forall|a: int| 0 <= a < i ==> (#[trigger] out@[a])@.len() == n,
            forall|a: int, q: int|
                0 <= a < i && 0 <= q < n ==> cloned::<T>(
                    lists@[q]@[tuples[a][q] as int],
                    #[trigger] out@[a]@[q],
                ),
        decreases m - i,
    {
        let mut row: Vec<T> = Vec::new();
        let mut q: usize = 0;
        assert(idx@[i as int]@ == tuples[i as int]);
        while q < n
            invariant
                n == lists@.len(),
                ls == list_lens(lists@),
                tuples == index_tuples(ls),
                rows(idx@) == tuples,
                m == idx@.len(),
                i < m,
                idx@[i as int]@.len() == n,
                forall|b: int| 0 <= b < n ==> #[trigger] idx@[i as int]@[b] < lists@[b]@.len(),
                q <= n,
                row@.len() == q,
                forall|b: int| 0 <= b < q ==> cloned::<T>(
                    lists@[b]@[tuples[i as int][b] as int],
                    #[trigger] row@[b],
                ),
            decreases n - q,
        {
            assert(idx@[i as int]@[q as int] == tuples[i as int][q as int]);
            let pick = idx[i][q];
            row.push(lists[q][pick].clone());
            q = q + 1;
        }
        out.push(row);
        i = i + 1;
    }
    out
}

} // verus!
