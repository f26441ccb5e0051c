use crate::arith::Arith;
use crate::exact::exact;
use crate::exact::lemma_plus_assoc;
use crate::exact::lemma_plus_comm;
use crate::exact::lemma_plus_cross;
use crate::exact::lemma_plus_zero;
use crate::exact::lemma_times_assoc;
use crate::exact::lemma_times_comm;
use crate::exact::lemma_times_one;
use crate::exact::lemma_times_plus;
use crate::exact::lemma_times_zero;
use crate::exact::total;
use vstd::prelude::*;

verus! {

/// Differences and quotients of `ar` are not rounded either: they undo sums and
/// products.
#[verifier::opaque]
pub open spec fn undoes<T, A: Arith<T>>(ar: A) -> bool {
    &&& forall|a: T, b: T| ar.plus(#[trigger] ar.minus(a, b), b) == a
    &&& forall|a: T| ar.negated(a) == ar.minus(ar.whole(0), a)
    &&& forall|a: T, b: T| b != ar.whole(0) ==> ar.times(#[trigger] ar.over(a, b), b) == a
}

/// Arithmetic in which a difference makes up for what was taken, a negation is the
/// difference from zero, and a quotient makes up the dividend again is not rounded
/// in these either.
pub proof fn law_what_undoes_means<T, A: Arith<T>>(ar: A)
    ensures
        undoes::<T, A>(ar) == ({
            &&& forall|a: T, b: T| ar.plus(#[trigger] ar.minus(a, b), b) == a
            &&& forall|a: T| #[trigger] ar.negated(a) == ar.minus(ar.whole(0), a)
            &&& forall|a: T, b: T|
                b != ar.whole(0) ==> ar.times(#[trigger] ar.over(a, b), b) == a
        }),
{
    reveal(undoes);
}

pub proof fn lemma_minus_plus<T, A: Arith<T>>(ar: A, a: T, b: T)
    requires
        undoes::<T, A>(ar),
    ensures
        ar.plus(ar.minus(a, b), b) == a,
{
    reveal(undoes);
}

pub proof fn lemma_negated_plus_self<T, A: Arith<T>>(ar: A, a: T)
    requires
        undoes::<T, A>(ar),
    ensures
        ar.plus(ar.negated(a), a) == ar.whole(0),
{
    reveal(undoes);
    assert(ar.plus(ar.minus(ar.whole(0), a), a) == ar.whole(0));
}

pub proof fn lemma_over_times<T, A: Arith<T>>(ar: A, a: T, b: T)
    requires
        undoes::<T, A>(ar),
        b != ar.whole(0),
    ensures
        ar.times(ar.over(a, b), b) == a,
{
    reveal(undoes);
}

/// What is added to both sides can be taken away.
pub proof fn lemma_plus_cancel<T, A: Arith<T>>(ar: A, x: T, y: T, b: T)
    requires
        exact::<T, A>(ar),
        undoes::<T, A>(ar),
        ar.plus(x, b) == ar.plus(y, b),
    ensures
        x == y,
{
    let n = ar.negated(b);
    lemma_negated_plus_self(ar, b);
    lemma_plus_comm(ar, n, b);
    lemma_plus_assoc(ar, x, b, n);
    lemma_plus_assoc(ar, y, b, n);
    lemma_plus_zero(ar, x);
    lemma_plus_zero(ar, y);
}

/// What both sides are multiplied with can be divided out.
pub proof fn lemma_times_cancel<T, A: Arith<T>>(ar: A, x: T, y: T, b: T)
    requires
        exact::<T, A>(ar),
        undoes::<T, A>(ar),
        b != ar.whole(0),
        ar.times(x, b) == ar.times(y, b),
    ensures
        x == y,
{
    let inverse = ar.over(ar.whole(1), b);
    lemma_over_times(ar, ar.whole(1), b);
    lemma_times_comm(ar, inverse, b);
    lemma_times_assoc(ar, x, b, inverse);
    lemma_times_assoc(ar, y, b, inverse);
    lemma_times_one(ar, x);
    lemma_times_one(ar, y);
}

/// A difference is a sum.
pub proof fn lemma_minus_is_plus<T, A: Arith<T>>(ar: A, a: T, b: T)
    requires
        exact::<T, A>(ar),
        undoes::<T, A>(ar),
    ensures
        ar.minus(a, b) == ar.plus(a, ar.negated(b)),
{
    let n = ar.negated(b);
    lemma_minus_plus(ar, a, b);
    lemma_negated_plus_self(ar, b);
    lemma_plus_assoc(ar, a, n, b);
    lemma_plus_zero(ar, a);
    lemma_plus_cancel(ar, ar.minus(a, b), ar.plus(a, n), b);
}

/// A quotient is a product with the reciprocal.
pub proof fn lemma_over_is_times<T, A: Arith<T>>(ar: A, a: T, b: T)
    requires
        exact::<T, A>(ar),
        undoes::<T, A>(ar),
        b != ar.whole(0),
    ensures
        ar.over(a, b) == ar.times(a, ar.over(ar.whole(1), b)),
{
    let inverse = ar.over(ar.whole(1), b);
    lemma_over_times(ar, a, b);
    lemma_over_times(ar, ar.whole(1), b);
    lemma_times_assoc(ar, a, inverse, b);
    lemma_times_one(ar, a);
    lemma_times_cancel(ar, ar.over(a, b), ar.times(a, inverse), b);
}

/// A number that makes up the dividend is the quotient.
pub proof fn lemma_over_is<T, A: Arith<T>>(ar: A, a: T, b: T, q: T)
    requires
        exact::<T, A>(ar),
        undoes::<T, A>(ar),
        b != ar.whole(0),
        ar.times(q, b) == a,
    ensures
        ar.over(a, b) == q,
{
    lemma_over_times(ar, a, b);
    lemma_times_cancel(ar, ar.over(a, b), q, b);
}

pub proof fn lemma_times_negated<T, A: Arith<T>>(ar: A, a: T, b: T)
    requires
        exact::<T, A>(ar),
        undoes::<T, A>(ar),
    ensures
        ar.times(a, ar.negated(b)) == ar.negated(ar.times(a, b)),
{
    let n = ar.negated(b);
    let p = ar.times(a, b);
    lemma_times_plus(ar, a, n, b);
    lemma_negated_plus_self(ar, b);
    lemma_times_zero(ar, a);
    lemma_negated_plus_self(ar, p);
    lemma_plus_cancel(ar, ar.times(a, n), ar.negated(p), p);
}

pub proof fn lemma_times_minus<T, A: Arith<T>>(ar: A, a: T, b: T, c: T)
    requires
        exact::<T, A>(ar),
        undoes::<T, A>(ar),
    ensures
        ar.times(a, ar.minus(b, c)) == ar.minus(ar.times(a, b), ar.times(a, c)),
{
    lemma_minus_is_plus(ar, b, c);
    lemma_times_plus(ar, a, b, ar.negated(c));
    lemma_times_negated(ar, a, c);
    lemma_minus_is_plus(ar, ar.times(a, b), ar.times(a, c));
}

pub proof fn lemma_negated_zero<T, A: Arith<T>>(ar: A)
    requires
        exact::<T, A>(ar),
        undoes::<T, A>(ar),
    ensures
        ar.negated(ar.whole(0)) == ar.whole(0),
{
    lemma_negated_plus_self(ar, ar.whole(0));
    lemma_plus_zero(ar, ar.negated(ar.whole(0)));
}

pub proof fn lemma_negated_plus<T, A: Arith<T>>(ar: A, a: T, b: T)
    requires
        exact::<T, A>(ar),
        undoes::<T, A>(ar),
    ensures
        ar.negated(ar.plus(a, b)) == ar.plus(ar.negated(a), ar.negated(b)),
{
    let s = ar.plus(a, b);
    lemma_negated_plus_self(ar, s);
    lemma_negated_plus_self(ar, a);
    lemma_negated_plus_self(ar, b);
    lemma_plus_cross(ar, ar.negated(a), ar.negated(b), a, b);
    lemma_plus_zero(ar, ar.whole(0));
    lemma_plus_cancel(ar, ar.negated(s), ar.plus(ar.negated(a), ar.negated(b)), s);
}

/// Taking a number away from itself.
pub proof fn lemma_minus_self<T, A: Arith<T>>(ar: A, a: T)
    requires
        exact::<T, A>(ar),
        undoes::<T, A>(ar),
    ensures
        ar.minus(a, a) == ar.whole(0),
{
    lemma_minus_plus(ar, a, a);
    lemma_plus_zero(ar, a);
    lemma_plus_cancel(ar, ar.minus(a, a), ar.whole(0), a);
}

/// Taking zero away.
pub proof fn lemma_minus_zero<T, A: Arith<T>>(ar: A, a: T)
    requires
        exact::<T, A>(ar),
        undoes::<T, A>(ar),
    ensures
        ar.minus(a, ar.whole(0)) == a,
{
    lemma_minus_plus(ar, a, ar.whole(0));
    lemma_plus_zero(ar, ar.minus(a, ar.whole(0)));
}

/// Taking away in two steps.
pub proof fn lemma_minus_minus<T, A: Arith<T>>(ar: A, a: T, b: T)
    requires
        exact::<T, A>(ar),
        undoes::<T, A>(ar),
    ensures
        ar.minus(ar.minus(a, b), a) == ar.negated(b),
        ar.negated(ar.minus(a, b)) == ar.minus(b, a),
{
    let d = ar.minus(a, b);
    let n = ar.negated(b);
    lemma_minus_is_plus(ar, a, b);
    lemma_plus_comm(ar, a, n);
    lemma_minus_plus(ar, d, a);
    lemma_plus_cancel(ar, ar.minus(d, a), n, a);
    lemma_negated_plus(ar, a, n);
    lemma_negated_plus_self(ar, n);
    lemma_negated_plus_self(ar, b);
    lemma_plus_comm(ar, n, b);
    lemma_plus_cancel(ar, ar.negated(n), b, n);
    lemma_minus_is_plus(ar, b, a);
    lemma_plus_comm(ar, ar.negated(a), b);
}

/// The sum of the negated terms.
pub proof fn lemma_total_negated<T, A: Arith<T>>(ar: A, n: int, f: spec_fn(int) -> T)
    requires
        exact::<T, A>(ar),
        undoes::<T, A>(ar),
    ensures
        total(ar, n, |i: int| ar.negated(f(i))) == ar.negated(total(ar, n, f)),
    decreases n,
{
    if n <= 0 {
        lemma_negated_zero::<T, A>(ar);
    } else {
        lemma_total_negated(ar, n - 1, f);
        lemma_negated_plus(ar, total(ar, n - 1, f), f(n - 1));
    }
}

} // verus!
