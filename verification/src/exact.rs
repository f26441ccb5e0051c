use crate::arith::Arith;
use vstd::prelude::*;

verus! {

/// Sums and products of `ar` are not rounded: they may be reordered and
/// multiplied out.
#[verifier::opaque]
pub open spec fn exact<T, A: Arith<T>>(ar: A) -> bool {
    &&& forall|a: T, b: T| ar.plus(a, b) == ar.plus(b, a)
    &&& forall|a: T, b: T, c: T| ar.plus(ar.plus(a, b), c) == ar.plus(a, ar.plus(b, c))
    &&& forall|a: T| ar.plus(ar.whole(0), a) == a
    &&& forall|a: T, b: T| ar.times(a, b) == ar.times(b, a)
    &&& forall|a: T, b: T, c: T| ar.times(ar.times(a, b), c) == ar.times(a, ar.times(b, c))
    &&& forall|a: T, b: T, c: T|
        ar.times(a, ar.plus(b, c)) == ar.plus(ar.times(a, b), ar.times(a, c))
    &&& forall|a: T| ar.times(ar.whole(0), a) == ar.whole(0)
    &&& forall|a: T| ar.times(ar.whole(1), a) == a
}

/// The sum of `f(0)`, ..., `f(n - 1)`.
pub open spec fn total<T, A: Arith<T>>(ar: A, n: int, f: spec_fn(int) -> T) -> T
    decreases n,
{
    if n <= 0 {
        ar.whole(0)
    } else {
        ar.plus(total(ar, n - 1, f), f(n - 1))
    }
}

/// `start` plus `f(0)`, ..., `f(n - 1)`, added one after the other.
pub open spec fn summed<T, A: Arith<T>>(ar: A, start: T, n: int, f: spec_fn(int) -> T) -> T
    decreases n,
{
    if n <= 0 {
        start
    } else {
        ar.plus(summed(ar, start, n - 1, f), f(n - 1))
    }
}

/// `start` plus those of `f(0)`, ..., `f(n - 1)` that `keep` picks, added one after
/// the other.
pub open spec fn summed_where<T, A: Arith<T>>(
    ar: A,
    start: T,
    n: int,
    keep: spec_fn(int) -> bool,
    f: spec_fn(int) -> T,
) -> T
    decreases n,
{
    if n <= 0 {
        start
    } else if keep(n - 1) {
        ar.plus(summed_where(ar, start, n - 1, keep, f), f(n - 1))
    } else {
        summed_where(ar, start, n - 1, keep, f)
    }
}

/// Sums take every term once, in order, and leave out those that are not picked,
/// however many terms there are. This holds with rounding too.
pub proof fn law_sums_take_every_term<T, A: Arith<T>>(
    ar: A,
    start: T,
    n: int,
    keep: spec_fn(int) -> bool,
    f: spec_fn(int) -> T,
)
    requires
        0 <= n,
    ensures
        total(ar, 0, f) == ar.whole(0),
        total(ar, n + 1, f) == ar.plus(total(ar, n, f), f(n)),
        summed(ar, start, 0, f) == start,
        summed(ar, start, n + 1, f) == ar.plus(summed(ar, start, n, f), f(n)),
        summed_where(ar, start, 0, keep, f) == start,
        keep(n) ==> summed_where(ar, start, n + 1, keep, f) == ar.plus(
            summed_where(ar, start, n, keep, f),
            f(n),
        ),
        !keep(n) ==> summed_where(ar, start, n + 1, keep, f) == summed_where(
            ar,
            start,
            n,
            keep,
            f,
        ),
{
}

/// Arithmetic whose sums and products may be reordered and multiplied out is not
/// rounded.
pub proof fn law_what_exact_means<T, A: Arith<T>>(ar: A)
    ensures
        exact::<T, A>(ar) == ({
            &&& forall|a: T, b: T| #[trigger] ar.plus(a, b) == ar.plus(b, a)
            &&& forall|a: T, b: T, c: T|
                #[trigger] ar.plus(ar.plus(a, b), c) == ar.plus(a, ar.plus(b, c))
            &&& forall|a: T| #[trigger] ar.plus(ar.whole(0), a) == a
            &&& forall|a: T, b: T| #[trigger] ar.times(a, b) == ar.times(b, a)
            &&& forall|a: T, b: T, c: T|
                #[trigger] ar.times(ar.times(a, b), c) == ar.times(a, ar.times(b, c))
            &&& forall|a: T, b: T, c: T|
                #[trigger] ar.times(a, ar.plus(b, c)) == ar.plus(ar.times(a, b), ar.times(a, c))
            &&& forall|a: T| #[trigger] ar.times(ar.whole(0), a) == ar.whole(0)
            &&& forall|a: T| #[trigger] ar.times(ar.whole(1), a) == a
        }),
{
    reveal(exact);
}

pub proof fn lemma_plus_comm<T, A: Arith<T>>(ar: A, a: T, b: T)
    requires
        exact::<T, A>(ar),
    ensures
        ar.plus(a, b) == ar.plus(b, a),
{
    reveal(exact);
}

pub proof fn lemma_plus_assoc<T, A: Arith<T>>(ar: A, a: T, b: T, c: T)
    requires
        exact::<T, A>(ar),
    ensures
        ar.plus(ar.plus(a, b), c) == ar.plus(a, ar.plus(b, c)),
{
    reveal(exact);
}

pub proof fn lemma_plus_zero<T, A: Arith<T>>(ar: A, a: T)
    requires
        exact::<T, A>(ar),
    ensures
        ar.plus(ar.whole(0), a) == a,
        ar.plus(a, ar.whole(0)) == a,
{
    reveal(exact);
}

pub proof fn lemma_times_comm<T, A: Arith<T>>(ar: A, a: T, b: T)
    requires
        exact::<T, A>(ar),
    ensures
        ar.times(a, b) == ar.times(b, a),
{
    reveal(exact);
}

pub proof fn lemma_times_assoc<T, A: Arith<T>>(ar: A, a: T, b: T, c: T)
    requires
        exact::<T, A>(ar),
    ensures
        ar.times(ar.times(a, b), c) == ar.times(a, ar.times(b, c)),
{
    reveal(exact);
}

pub proof fn lemma_times_plus<T, A: Arith<T>>(ar: A, a: T, b: T, c: T)
    requires
        exact::<T, A>(ar),
    ensures
        ar.times(a, ar.plus(b, c)) == ar.plus(ar.times(a, b), ar.times(a, c)),
{
    reveal(exact);
}

pub proof fn lemma_times_zero<T, A: Arith<T>>(ar: A, a: T)
    requires
        exact::<T, A>(ar),
    ensures
        ar.times(a, ar.whole(0)) == ar.whole(0),
{
    reveal(exact);
    assert(ar.times(a, ar.whole(0)) == ar.times(ar.whole(0), a));
}

pub proof fn lemma_times_one<T, A: Arith<T>>(ar: A, a: T)
    requires
        exact::<T, A>(ar),
    ensures
        ar.times(a, ar.whole(1)) == a,
{
    reveal(exact);
    assert(ar.times(a, ar.whole(1)) == ar.times(ar.whole(1), a));
}

/// Without rounding, a sum that leaves out nothing but zeros has all terms.
pub proof fn lemma_summed_where<T, A: Arith<T>>(
    ar: A,
    start: T,
    n: int,
    keep: spec_fn(int) -> bool,
    f: spec_fn(int) -> T,
)
    requires
        exact::<T, A>(ar),
        forall|i: int| 0 <= i < n && !#[trigger] keep(i) ==> f(i) == ar.whole(0),
    ensures
        summed_where(ar, start, n, keep, f) == ar.plus(start, total(ar, n, f)),
    decreases n,
{
    if n <= 0 {
        lemma_plus_zero(ar, start);
    } else {
        lemma_summed_where(ar, start, n - 1, keep, f);
        lemma_plus_assoc(ar, start, total(ar, n - 1, f), f(n - 1));
        if !keep(n - 1) {
            lemma_plus_zero(ar, total(ar, n - 1, f));
        }
    }
}

/// Two sums of two, added crosswise.
pub proof fn lemma_plus_cross<T, A: Arith<T>>(ar: A, a: T, b: T, c: T, d: T)
    requires
        exact::<T, A>(ar),
    ensures
        ar.plus(ar.plus(a, b), ar.plus(c, d)) == ar.plus(ar.plus(a, c), ar.plus(b, d)),
{
    lemma_plus_assoc(ar, a, b, ar.plus(c, d));
    lemma_plus_assoc(ar, b, c, d);
    lemma_plus_comm(ar, b, c);
    lemma_plus_assoc(ar, c, b, d);
    lemma_plus_assoc(ar, a, c, ar.plus(b, d));
}

/// A sum depends on its terms alone.
pub proof fn lemma_total_ext<T, A: Arith<T>>(
    ar: A,
    n: int,
    f: spec_fn(int) -> T,
    g: spec_fn(int) -> T,
)
    requires
        forall|i: int| 0 <= i < n ==> #[trigger] f(i) == g(i),
    ensures
        total(ar, n, f) == total(ar, n, g),
    decreases n,
{
    if n > 0 {
        lemma_total_ext(ar, n - 1, f, g);
        assert(f(n - 1) == g(n - 1));
    }
}

/// A sum of sums of two is the sum of two sums.
pub proof fn lemma_total_plus<T, A: Arith<T>>(
    ar: A,
    n: int,
    f: spec_fn(int) -> T,
    g: spec_fn(int) -> T,
)
    requires
        exact::<T, A>(ar),
    ensures
        total(ar, n, |i: int| ar.plus(f(i), g(i))) == ar.plus(total(ar, n, f), total(ar, n, g)),
    decreases n,
{
    if n <= 0 {
        lemma_plus_zero(ar, ar.whole(0));
    } else {
        lemma_total_plus(ar, n - 1, f, g);
        lemma_plus_cross(
            ar,
            total(ar, n - 1, f),
            total(ar, n - 1, g),
            f(n - 1),
            g(n - 1),
        );
    }
}

/// A factor of every term is a factor of the sum.
pub proof fn lemma_total_times<T, A: Arith<T>>(ar: A, n: int, c: T, f: spec_fn(int) -> T)
    requires
        exact::<T, A>(ar),
    ensures
        total(ar, n, |i: int| ar.times(c, f(i))) == ar.times(c, total(ar, n, f)),
    decreases n,
{
    if n <= 0 {
        lemma_times_zero(ar, c);
    } else {
        lemma_total_times(ar, n - 1, c, f);
        lemma_times_plus(ar, c, total(ar, n - 1, f), f(n - 1));
    }
}

/// A sum of zeros.
pub proof fn lemma_total_zero<T, A: Arith<T>>(ar: A, n: int)
    requires
        exact::<T, A>(ar),
    ensures
        total(ar, n, |i: int| ar.whole(0)) == ar.whole(0),
    decreases n,
{
    if n > 0 {
        lemma_total_zero::<T, A>(ar, n - 1);
        lemma_plus_zero(ar, ar.whole(0));
    }
}

/// Rows and columns of a table have the same sum.
pub proof fn lemma_total_swap<T, A: Arith<T>>(
    ar: A,
    n: int,
    m: int,
    f: spec_fn(int, int) -> T,
)
    requires
        exact::<T, A>(ar),
    ensures
        total(ar, n, |i: int| total(ar, m, |j: int| f(i, j))) == total(
            ar,
            m,
            |j: int| total(ar, n, |i: int| f(i, j)),
        ),
    decreases n,
{
    let columns = |k: int| (|j: int| total(ar, k, |i: int| f(i, j)));
    if n <= 0 {
        lemma_total_zero::<T, A>(ar, m);
        lemma_total_ext(ar, m, columns(n), |j: int| ar.whole(0));
    } else {
        lemma_total_swap(ar, n - 1, m, f);
        let last = |j: int| f(n - 1, j);
        let before = |j: int| total(ar, n - 1, |i: int| f(i, j));
        lemma_total_plus(ar, m, before, last);
        lemma_total_ext(
            ar,
            m,
            |j: int| ar.plus(before(j), last(j)),
            |j: int| total(ar, n, |i: int| f(i, j)),
        );
    }
}

/// A sum in two parts.
pub proof fn lemma_total_split<T, A: Arith<T>>(ar: A, n: int, m: int, f: spec_fn(int) -> T)
    requires
        exact::<T, A>(ar),
        0 <= n,
        0 <= m,
    ensures
        total(ar, n + m, f) == ar.plus(total(ar, n, f), total(ar, m, |j: int| f(n + j))),
    decreases m,
{
    let tail = |j: int| f(n + j);
    if m == 0 {
        lemma_plus_zero(ar, total(ar, n, f));
    } else {
        lemma_total_split(ar, n, m - 1, f);
        lemma_plus_assoc(ar, total(ar, n, f), total(ar, m - 1, tail), f(n + m - 1));
        assert(tail(m - 1) == f(n + m - 1));
    }
}

/// A sum of `n` times `w` terms, row by row.
pub proof fn lemma_total_rows<T, A: Arith<T>>(ar: A, n: int, w: int, f: spec_fn(int) -> T)
    requires
        exact::<T, A>(ar),
        0 <= n,
        0 <= w,
    ensures
        total(ar, n * w, f) == total(ar, n, |k: int| total(ar, w, |o: int| f(k * w + o))),
    decreases n,
{
    if n == 0 {
        assert(n * w == 0) by (nonlinear_arith)
            requires
                n == 0,
        ;
    } else {
        lemma_total_rows(ar, n - 1, w, f);
        assert(n * w == (n - 1) * w + w && 0 <= (n - 1) * w) by (nonlinear_arith)
            requires
                n >= 1,
                w >= 0,
        ;
        lemma_total_split(ar, (n - 1) * w, w, f);
    }
}

/// A sum with two of its terms apart.
proof fn lemma_total_two_apart<T, A: Arith<T>>(
    ar: A,
    n: int,
    a: int,
    b: int,
    rest: spec_fn(int) -> T,
    f: spec_fn(int) -> T,
)
    requires
        exact::<T, A>(ar),
        0 <= a < n,
        0 <= b < n,
        a != b,
        rest(a) == ar.whole(0),
        rest(b) == ar.whole(0),
        forall|i: int| 0 <= i < n && i != a && i != b ==> #[trigger] rest(i) == f(i),
    ensures
        total(ar, n, f) == ar.plus(total(ar, n, rest), ar.plus(f(a), f(b))),
{
    let first = |i: int|
        if i == a {
            f(a)
        } else {
            ar.whole(0)
        };
    let second = |i: int|
        if i == b {
            f(b)
        } else {
            ar.whole(0)
        };
    let both = |i: int| ar.plus(first(i), second(i));
    lemma_total_single(ar, n, a, f(a));
    lemma_total_single(ar, n, b, f(b));
    lemma_total_plus(ar, n, first, second);
    lemma_total_plus(ar, n, rest, both);
    assert forall|i: int| 0 <= i < n implies #[trigger] f(i) == ar.plus(rest(i), both(i)) by {
        if i != a && i != b {
            assert(rest(i) == f(i));
        }
        lemma_plus_zero(ar, f(i));
        lemma_plus_zero(ar, ar.whole(0));
    }
    lemma_total_ext(ar, n, f, |i: int| ar.plus(rest(i), both(i)));
}

/// A sum does not change when two of its terms change places.
pub proof fn lemma_total_exchanged<T, A: Arith<T>>(
    ar: A,
    n: int,
    a: int,
    b: int,
    f: spec_fn(int) -> T,
    g: spec_fn(int) -> T,
)
    requires
        exact::<T, A>(ar),
        0 <= a < n,
        0 <= b < n,
        a != b,
        g(a) == f(b),
        g(b) == f(a),
        forall|i: int| 0 <= i < n && i != a && i != b ==> #[trigger] g(i) == f(i),
    ensures
        total(ar, n, g) == total(ar, n, f),
{
    let rest = |i: int|
        if i == a || i == b {
            ar.whole(0)
        } else {
            f(i)
        };
    assert forall|i: int| 0 <= i < n && i != a && i != b implies #[trigger] rest(i) == g(i) by {
        assert(g(i) == f(i));
    }
    lemma_total_two_apart(ar, n, a, b, rest, f);
    lemma_total_two_apart(ar, n, a, b, rest, g);
    lemma_plus_comm(ar, f(a), f(b));
}

/// A sum with one term.
pub proof fn lemma_total_single<T, A: Arith<T>>(ar: A, n: int, r: int, t: T)
    requires
        exact::<T, A>(ar),
    ensures
        total(
            ar,
            n,
            |i: int|
                if i == r {
                    t
                } else {
                    ar.whole(0)
                },
        ) == (if 0 <= r < n {
            t
        } else {
            ar.whole(0)
        }),
    decreases n,
{
    if n > 0 {
        lemma_total_single(ar, n - 1, r, t);
        lemma_plus_zero(ar, t);
        lemma_plus_zero(ar, ar.whole(0));
    }
}

} // verus!
