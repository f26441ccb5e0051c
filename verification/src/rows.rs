use vstd::arithmetic::div_mod::lemma_div_by_multiple;
use vstd::arithmetic::div_mod::lemma_div_is_ordered;
use vstd::arithmetic::div_mod::lemma_fundamental_div_mod;
use vstd::prelude::*;
use vstd::slice::slice_subrange;
use vstd::slice::slice_to_vec;

verus! {

/// The complete rows of a flat buffer that holds `w` values per row.
pub open spec fn rows<T>(s: Seq<T>, w: int) -> Seq<Seq<T>> {
    Seq::new((s.len() as int / w) as nat, |i: int| s.subrange(i * w, i * w + w))
}

/// Row `i` fits where position `i * w + j` does, and is one of the rows.
pub proof fn lemma_row_bounds(n: int, w: int, i: int, j: int)
    requires
        0 <= i < n,
        0 <= j < w,
    ensures
        0 <= i * w,
        i * w + j < n * w,
        i * w + w <= n * w,
{
    assert(0 <= i * w && i * w + w <= n * w) by (nonlinear_arith)
        requires
            0 <= i < n,
            0 < w,
    ;
}

/// A buffer of at least `n` rows has at least `n` rows.
pub proof fn lemma_rows_len<T>(s: Seq<T>, w: int, n: int)
    requires
        0 < w,
        0 <= n,
        n * w <= s.len(),
    ensures
        n <= rows(s, w).len(),
        s.len() == n * w ==> rows(s, w).len() == n,
{
    lemma_div_by_multiple(n, w);
    lemma_div_is_ordered(n * w, s.len() as int, w);
}

/// All complete rows lie inside the buffer.
pub proof fn lemma_rows_fit<T>(s: Seq<T>, w: int)
    requires
        0 < w,
    ensures
        rows(s, w).len() * w <= s.len(),
        s.len() < rows(s, w).len() * w + w,
{
    lemma_fundamental_div_mod(s.len() as int, w);
    assert(w * (s.len() as int / w) == (s.len() as int / w) * w) by (nonlinear_arith);
    assert(s.len() as int / w >= 0) by (nonlinear_arith)
        requires
            0 < w,
            s.len() >= 0,
    ;
}

/// Value `j` of row `i` is the value at position `i * w + j`.
pub proof fn lemma_row_index<T>(s: Seq<T>, w: int, n: int, i: int, j: int)
    requires
        0 <= i < n,
        0 <= j < w,
        n * w <= s.len(),
    ensures
        0 <= i * w + j < n * w,
        i < rows(s, w).len(),
        rows(s, w)[i].len() == w,
        rows(s, w)[i][j] == s[i * w + j],
{
    lemma_row_bounds(n, w, i, j);
    lemma_rows_len(s, w, n);
}

/// Writing position `i * w + j` writes value `j` of row `i` and no other.
pub proof fn lemma_row_update<T>(s: Seq<T>, w: int, n: int, i: int, j: int, x: T)
    requires
        0 <= i < n,
        0 <= j < w,
        n * w <= s.len(),
    ensures
        0 <= i * w + j < n * w,
        i < rows(s, w).len(),
        rows(s, w)[i].len() == w,
        rows(s.update(i * w + j, x), w) == rows(s, w).update(i, rows(s, w)[i].update(j, x)),
{
    lemma_row_index(s, w, n, i, j);
    let t = s.update(i * w + j, x);
    let left = rows(t, w);
    let right = rows(s, w).update(i, rows(s, w)[i].update(j, x));
    lemma_rows_fit(s, w);
    assert forall|k: int| 0 <= k < left.len() implies left[k] == right[k] by {
        lemma_row_bounds(left.len() as int, w, k, 0);
        if k < i {
            assert(k * w + w <= i * w) by (nonlinear_arith)
                requires
                    k < i,
                    0 < w,
            ;
        } else if k > i {
            assert(i * w + w <= k * w) by (nonlinear_arith)
                requires
                    i < k,
                    0 < w,
            ;
        }
        assert(left[k] =~= right[k]);
    }
    assert(left =~= right);
}

/// The rows of a range of rows are that range of the rows.
pub proof fn lemma_rows_subrange<T>(s: Seq<T>, w: int, first: int, last: int)
    requires
        0 < w,
        0 <= first <= last,
        last * w <= s.len(),
    ensures
        0 <= first * w <= last * w,
        rows(s.subrange(first * w, last * w), w) == rows(s, w).subrange(first, last),
{
    assert(0 <= first * w <= last * w) by (nonlinear_arith)
        requires
            0 < w,
            0 <= first <= last,
    ;
    let part = s.subrange(first * w, last * w);
    assert(part.len() == (last - first) * w) by (nonlinear_arith)
        requires
            part.len() == last * w - first * w,
    ;
    lemma_rows_len(part, w, last - first);
    lemma_rows_len(s, w, last);
    assert forall|k: int| 0 <= k < last - first implies rows(part, w)[k] == rows(s, w)[first + k] by {
        lemma_row_bounds(last - first, w, k, 0);
        assert((first + k) * w == first * w + k * w) by (nonlinear_arith);
        assert(rows(part, w)[k] =~= rows(s, w)[first + k]);
    }
    assert(rows(part, w) =~= rows(s, w).subrange(first, last));
}

/// Row `i` of a flat buffer.
pub fn row<T>(s: &[T], w: usize, i: usize) -> (r: &[T])
    requires
        0 < w,
        i < rows(s@, w as int).len(),
    ensures
        r@ == rows(s@, w as int)[i as int],
        r@.len() == w,
{
    assert(s@.len() == s.len());
    proof {
        lemma_rows_fit(s@, w as int);
        lemma_row_bounds(rows(s@, w as int).len() as int, w as int, i as int, 0);
    }
    slice_subrange(s, i * w, i * w + w)
}

/// Replaces row `i` of a flat buffer.
pub fn set_row<T: Copy>(s: &mut Vec<T>, w: usize, i: usize, values: &Vec<T>)
    requires
        0 < w,
        i < rows(old(s)@, w as int).len(),
        values@.len() == w,
    ensures
        final(s)@.len() == old(s)@.len(),
        rows(final(s)@, w as int) == rows(old(s)@, w as int).update(i as int, values@),
        forall|p: int|
            rows(old(s)@, w as int).len() * w <= p < old(s)@.len() ==> final(s)@[p] == old(s)@[p],
{
    let total: usize = s.len();
    let ghost n = rows(s@, w as int).len() as int;
    let ghost before = rows(s@, w as int);
    proof {
        lemma_rows_fit(s@, w as int);
        lemma_row_bounds(n, w as int, i as int, 0);
    }
    let start: usize = i * w;
    let mut j: usize = 0;
    proof {
        assert(before[i as int].subrange(0, 0) =~= values@.subrange(0, 0));
        assert(before.update(i as int, before[i as int]) =~= before);
        lemma_row_index(s@, w as int, n, i as int, 0);
    }
    while j < w
        invariant
            0 < w,
            j <= w,
            0 <= i < n,
            start == i * w,
            values@.len() == w,
            start + w <= s@.len(),
            n * w <= s@.len(),
            total == s@.len() == old(s)@.len(),
            before == rows(old(s)@, w as int),
            n == before.len(),
            rows(s@, w as int) == before.update(i as int, rows(s@, w as int)[i as int]),
            rows(s@, w as int)[i as int].len() == w,
            forall|k: int| 0 <= k < j ==> rows(s@, w as int)[i as int][k] == values@[k],
            forall|p: int| n * w <= p < s@.len() ==> s@[p] == old(s)@[p],
        decreases w - j,
    {
        proof {
            lemma_row_update(s@, w as int, n, i as int, j as int, values@[j as int]);
            lemma_row_bounds(n, w as int, i as int, j as int);
            let now = rows(s@, w as int);
            let next = now[i as int].update(j as int, values@[j as int]);
            assert(now.update(i as int, next) =~= before.update(i as int, next));
        }
        s[start + j] = values[j];
        j += 1;
    }
    proof {
        assert(rows(s@, w as int)[i as int] =~= values@);
    }
}

/// A copy of a buffer.
pub fn copied<T: Copy>(s: &Vec<T>) -> (v: Vec<T>)
    ensures
        v@ == s@,
{
    slice_to_vec(s.as_slice())
}

/// A row after the rows of `s`.
pub proof fn lemma_rows_push<T>(s: Seq<T>, last: Seq<T>, w: int, n: int)
    requires
        0 < w,
        0 <= n,
        s.len() == n * w,
        last.len() == w,
    ensures
        rows(s + last, w) == rows(s, w).push(last),
{
    let all = s + last;
    assert((n + 1) * w == n * w + w) by (nonlinear_arith);
    lemma_rows_len(s, w, n);
    lemma_rows_len(all, w, n + 1);
    assert forall|k: int| 0 <= k <= n implies rows(all, w)[k] == rows(s, w).push(last)[k] by {
        lemma_row_bounds(n + 1, w, k, 0);
        if k < n {
            lemma_row_bounds(n, w, k, 0);
        }
        assert(rows(all, w)[k] =~= rows(s, w).push(last)[k]);
    }
    assert(rows(all, w) =~= rows(s, w).push(last));
}

/// The rows of whole rows after whole rows.
pub proof fn lemma_rows_concat<T>(a: Seq<T>, b: Seq<T>, w: int, n: int, m: int)
    requires
        0 < w,
        0 <= n,
        0 <= m,
        a.len() == n * w,
        b.len() == m * w,
    ensures
        rows(a + b, w) == rows(a, w) + rows(b, w),
{
    let all = a + b;
    assert((n + m) * w == n * w + m * w) by (nonlinear_arith);
    lemma_rows_len(a, w, n);
    lemma_rows_len(b, w, m);
    lemma_rows_len(all, w, n + m);
    assert forall|k: int| 0 <= k < n + m implies rows(all, w)[k] == (rows(a, w) + rows(b, w))[k] by {
        lemma_row_bounds(n + m, w, k, 0);
        if k < n {
            lemma_row_bounds(n, w, k, 0);
        } else {
            lemma_row_bounds(m, w, k - n, 0);
            assert((k - n) * w == k * w - n * w) by (nonlinear_arith);
        }
        assert(rows(all, w)[k] =~= (rows(a, w) + rows(b, w))[k]);
    }
    assert(rows(all, w) =~= rows(a, w) + rows(b, w));
}

/// A buffer of whole rows is determined by its rows.
pub proof fn law_rows_determine<T>(a: Seq<T>, b: Seq<T>, w: int, n: int)
    requires
        0 < w,
        0 <= n,
        a.len() == n * w,
        b.len() == n * w,
        rows(a, w) == rows(b, w),
    ensures
        a == b,
{
    assert forall|p: int| 0 <= p < a.len() implies a[p] == b[p] by {
        lemma_fundamental_div_mod(p, w);
        let i = p / w;
        let j = p % w;
        assert(0 <= i < n && 0 <= j < w && p == i * w + j) by (nonlinear_arith)
            requires
                p == w * (p / w) + p % w,
                i == p / w,
                j == p % w,
                0 <= p < n * w,
                0 < w,
        ;
        lemma_row_index(a, w, n, i, j);
        lemma_row_index(b, w, n, i, j);
    }
    assert(a =~= b);
}

} // verus!
