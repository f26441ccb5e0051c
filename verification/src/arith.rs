use vstd::prelude::*;

verus! {

/// The arithmetic that the network computes in.
///
/// The library never fixes a number format. It is generic over a number type
/// `T`, and a value of a type that implements `Arith<T>` supplies the
/// operations. The specification functions name what each operation returns. An
/// implementation may define them; for one that leaves them out, each names some
/// value that the operation may return, and so the value where there is but one.
/// The executable methods promise nothing by themselves. Contracts that speak of
/// numeric results are stated for arithmetic that is [`faithful`]. Memory safety
/// and the shape of every result hold for any implementation.
pub trait Arith<T> {
    /// The number `n`.
    open spec fn whole(&self, n: u64) -> T {
        choose|r: T| call_ensures(Self::from_u64, (self, n), r)
    }

    /// The value below every number, from which a maximum starts.
    open spec fn lowest(&self) -> T {
        choose|r: T| call_ensures(Self::neg_infinity, (self,), r)
    }

    /// The smallest probability whose logarithm is taken.
    open spec fn least(&self) -> T {
        choose|r: T| call_ensures(Self::least_probability, (self,), r)
    }

    open spec fn plus(&self, a: T, b: T) -> T {
        choose|r: T| call_ensures(Self::add, (self, a, b), r)
    }

    open spec fn minus(&self, a: T, b: T) -> T {
        choose|r: T| call_ensures(Self::sub, (self, a, b), r)
    }

    open spec fn times(&self, a: T, b: T) -> T {
        choose|r: T| call_ensures(Self::mul, (self, a, b), r)
    }

    open spec fn over(&self, a: T, b: T) -> T {
        choose|r: T| call_ensures(Self::div, (self, a, b), r)
    }

    open spec fn negated(&self, a: T) -> T {
        choose|r: T| call_ensures(Self::neg, (self, a), r)
    }

    open spec fn larger(&self, a: T, b: T) -> T {
        choose|r: T| call_ensures(Self::max, (self, a, b), r)
    }

    open spec fn magnitude(&self, a: T) -> T {
        choose|r: T| call_ensures(Self::abs, (self, a), r)
    }

    open spec fn tanh_of(&self, a: T) -> T {
        choose|r: T| call_ensures(Self::tanh, (self, a), r)
    }

    open spec fn exp_of(&self, a: T) -> T {
        choose|r: T| call_ensures(Self::exp, (self, a), r)
    }

    open spec fn ln_of(&self, a: T) -> T {
        choose|r: T| call_ensures(Self::ln, (self, a), r)
    }

    open spec fn sqrt_of(&self, a: T) -> T {
        choose|r: T| call_ensures(Self::sqrt, (self, a), r)
    }

    /// Whether `a` and `b` compare equal.
    open spec fn is_same(&self, a: T, b: T) -> bool {
        choose|r: bool| call_ensures(Self::same, (self, a, b), r)
    }

    /// Whether `a` compares greater than `b`.
    open spec fn is_above(&self, a: T, b: T) -> bool {
        choose|r: bool| call_ensures(Self::above, (self, a, b), r)
    }

    /// Whether `a` compares less than or equal to `b`. Not the negation of
    /// `is_above`: neither need hold of an unordered pair.
    open spec fn is_at_most(&self, a: T, b: T) -> bool {
        choose|r: bool| call_ensures(Self::at_most, (self, a, b), r)
    }

    /// Returns `whole(n)`.
    fn from_u64(&self, n: u64) -> T;

    /// Returns `lowest()`.
    fn neg_infinity(&self) -> T;

    /// Returns `least()`.
    fn least_probability(&self) -> T;

    /// Returns `plus(a, b)`.
    fn add(&self, a: T, b: T) -> T;

    /// Returns `minus(a, b)`.
    fn sub(&self, a: T, b: T) -> T;

    /// Returns `times(a, b)`.
    fn mul(&self, a: T, b: T) -> T;

    /// Returns `over(a, b)`.
    fn div(&self, a: T, b: T) -> T;

    /// Returns `negated(a)`.
    fn neg(&self, a: T) -> T;

    /// Returns `larger(a, b)`.
    fn max(&self, a: T, b: T) -> T;

    /// Returns `magnitude(a)`.
    fn abs(&self, a: T) -> T;

    /// Returns `tanh_of(a)`.
    fn tanh(&self, a: T) -> T;

    /// Returns `exp_of(a)`.
    fn exp(&self, a: T) -> T;

    /// Returns `ln_of(a)`.
    fn ln(&self, a: T) -> T;

    /// Returns `sqrt_of(a)`.
    fn sqrt(&self, a: T) -> T;

    /// Returns `is_same(a, b)`.
    fn same(&self, a: T, b: T) -> bool;

    /// Returns `is_above(a, b)`.
    fn above(&self, a: T, b: T) -> bool;

    /// Returns `is_at_most(a, b)`.
    fn at_most(&self, a: T, b: T) -> bool;
}

/// Every executable operation of `ar` returns the value of its specification
/// function.
pub open spec fn faithful<T, A: Arith<T>>(ar: A) -> bool {
    &&& forall|n: u64, r: T| call_ensures(A::from_u64, (&ar, n), r) ==> r == ar.whole(n)
    &&& forall|r: T| call_ensures(A::neg_infinity, (&ar,), r) ==> r == ar.lowest()
    &&& forall|r: T| call_ensures(A::least_probability, (&ar,), r) ==> r == ar.least()
    &&& forall|a: T, b: T, r: T| call_ensures(A::add, (&ar, a, b), r) ==> r == ar.plus(a, b)
    &&& forall|a: T, b: T, r: T| call_ensures(A::sub, (&ar, a, b), r) ==> r == ar.minus(a, b)
    &&& forall|a: T, b: T, r: T| call_ensures(A::mul, (&ar, a, b), r) ==> r == ar.times(a, b)
    &&& forall|a: T, b: T, r: T| call_ensures(A::div, (&ar, a, b), r) ==> r == ar.over(a, b)
    &&& forall|a: T, r: T| call_ensures(A::neg, (&ar, a), r) ==> r == ar.negated(a)
    &&& forall|a: T, b: T, r: T| call_ensures(A::max, (&ar, a, b), r) ==> r == ar.larger(a, b)
    &&& forall|a: T, r: T| call_ensures(A::abs, (&ar, a), r) ==> r == ar.magnitude(a)
    &&& forall|a: T, r: T| call_ensures(A::tanh, (&ar, a), r) ==> r == ar.tanh_of(a)
    &&& forall|a: T, r: T| call_ensures(A::exp, (&ar, a), r) ==> r == ar.exp_of(a)
    &&& forall|a: T, r: T| call_ensures(A::ln, (&ar, a), r) ==> r == ar.ln_of(a)
    &&& forall|a: T, r: T| call_ensures(A::sqrt, (&ar, a), r) ==> r == ar.sqrt_of(a)
    &&& forall|a: T, b: T, r: bool|
        call_ensures(A::same, (&ar, a, b), r) ==> r == ar.is_same(a, b)
    &&& forall|a: T, b: T, r: bool|
        call_ensures(A::above, (&ar, a, b), r) ==> r == ar.is_above(a, b)
    &&& forall|a: T, b: T, r: bool|
        call_ensures(A::at_most, (&ar, a, b), r) ==> r == ar.is_at_most(a, b)
}

/// Arithmetic is faithful if and only if each of its operations returns nothing but the
/// value of its specification function.
pub proof fn law_what_faithful_means<T, A: Arith<T>>(ar: A)
    ensures
        faithful::<T, A>(ar) == ({
            &&& forall|n: u64, r: T| call_ensures(A::from_u64, (&ar, n), r) ==> r == ar.whole(n)
            &&& forall|r: T| call_ensures(A::neg_infinity, (&ar,), r) ==> r == ar.lowest()
            &&& forall|r: T| call_ensures(A::least_probability, (&ar,), r) ==> r == ar.least()
            &&& forall|a: T, b: T, r: T| call_ensures(A::add, (&ar, a, b), r) ==> r == ar.plus(a, b)
            &&& forall|a: T, b: T, r: T| call_ensures(A::sub, (&ar, a, b), r) ==> r == ar.minus(a, b)
            &&& forall|a: T, b: T, r: T| call_ensures(A::mul, (&ar, a, b), r) ==> r == ar.times(a, b)
            &&& forall|a: T, b: T, r: T| call_ensures(A::div, (&ar, a, b), r) ==> r == ar.over(a, b)
            &&& forall|a: T, r: T| call_ensures(A::neg, (&ar, a), r) ==> r == ar.negated(a)
            &&& forall|a: T, b: T, r: T| call_ensures(A::max, (&ar, a, b), r) ==> r == ar.larger(a, b)
            &&& forall|a: T, r: T| call_ensures(A::abs, (&ar, a), r) ==> r == ar.magnitude(a)
            &&& forall|a: T, r: T| call_ensures(A::tanh, (&ar, a), r) ==> r == ar.tanh_of(a)
            &&& forall|a: T, r: T| call_ensures(A::exp, (&ar, a), r) ==> r == ar.exp_of(a)
            &&& forall|a: T, r: T| call_ensures(A::ln, (&ar, a), r) ==> r == ar.ln_of(a)
            &&& forall|a: T, r: T| call_ensures(A::sqrt, (&ar, a), r) ==> r == ar.sqrt_of(a)
            &&& forall|a: T, b: T, r: bool|
                call_ensures(A::same, (&ar, a, b), r) ==> r == ar.is_same(a, b)
            &&& forall|a: T, b: T, r: bool|
                call_ensures(A::above, (&ar, a, b), r) ==> r == ar.is_above(a, b)
            &&& forall|a: T, b: T, r: bool|
                call_ensures(A::at_most, (&ar, a, b), r) ==> r == ar.is_at_most(a, b)
        }),
{
}

/// A vector of `n` copies of `value`.
pub fn filled<T: Copy>(n: usize, value: T) -> (v: Vec<T>)
    ensures
        v@ == Seq::new(n as nat, |i: int| value),
{
    let mut v: Vec<T> = Vec::with_capacity(n);
    let mut i: usize = 0;
    while i < n
        invariant
            i <= n,
            v@ == Seq::new(i as nat, |k: int| value),
        decreases n - i,
    {
        v.push(value);
        i += 1;
    }
    v
}

/// One step of gradient descent on a parameter vector.
pub open spec fn descended<T, A: Arith<T>>(ar: A, w: Seq<T>, grad: Seq<T>, lr: T) -> Seq<T> {
    Seq::new(w.len(), |i: int| ar.minus(w[i], ar.times(lr, grad[i])))
}

/// Takes `lr` times its gradient from each parameter.
pub fn descend<T: Copy, A: Arith<T>>(ar: &A, w: &mut Vec<T>, grad: &Vec<T>, lr: T)
    requires
        old(w)@.len() == grad@.len(),
    ensures
        final(w)@.len() == old(w)@.len(),
        faithful::<T, A>(*ar) ==> final(w)@ == descended(*ar, old(w)@, grad@, lr),
        faithful::<T, A>(*ar) ==> forall|i: int|
            0 <= i < old(w)@.len() ==> #[trigger] final(w)@[i] == ar.minus(
                old(w)@[i],
                ar.times(lr, grad@[i]),
            ),
{
    let n: usize = w.len();
    let mut i: usize = 0;
    while i < n
        invariant
            i <= n,
            n == w@.len() == old(w)@.len() == grad@.len(),
            forall|k: int| i <= k < n ==> w@[k] == old(w)@[k],
            faithful::<T, A>(*ar) ==> forall|k: int|
                0 <= k < i ==> w@[k] == ar.minus(old(w)@[k], ar.times(lr, grad@[k])),
        decreases n - i,
    {
        let change = ar.mul(lr, grad[i]);
        w[i] = ar.sub(w[i], change);
        i += 1;
    }
}

} // verus!
