use crate::arith::faithful;
use crate::arith::Arith;
use crate::division::undoes;
use crate::exact::exact;
use crate::loss::monotone;
use crate::skipping::one_zero;
use crate::softmax::ordered;
use vstd::prelude::*;

verus! {

/// Arithmetic on the parity of numbers: `true` stands for the odd ones. The
/// smallest arithmetic in which nothing is rounded. Functions that a parity does
/// not determine return their argument, and no parity is above another.
#[derive(Clone, Copy, Debug, PartialEq, Eq, Structural)]
pub struct Parity;

impl Arith<bool> for Parity {
    open spec fn whole(&self, n: u64) -> bool {
        n % 2 == 1
    }

    open spec fn lowest(&self) -> bool {
        false
    }

    open spec fn least(&self) -> bool {
        true
    }

    open spec fn plus(&self, a: bool, b: bool) -> bool {
        a != b
    }

    open spec fn minus(&self, a: bool, b: bool) -> bool {
        a != b
    }

    open spec fn times(&self, a: bool, b: bool) -> bool {
        a && b
    }

    open spec fn over(&self, a: bool, b: bool) -> bool {
        a
    }

    open spec fn negated(&self, a: bool) -> bool {
        a
    }

    open spec fn larger(&self, a: bool, b: bool) -> bool {
        a || b
    }

    open spec fn magnitude(&self, a: bool) -> bool {
        a
    }

    open spec fn tanh_of(&self, a: bool) -> bool {
        a
    }

    open spec fn exp_of(&self, a: bool) -> bool {
        a
    }

    open spec fn ln_of(&self, a: bool) -> bool {
        a
    }

    open spec fn sqrt_of(&self, a: bool) -> bool {
        a
    }

    open spec fn is_same(&self, a: bool, b: bool) -> bool {
        a == b
    }

    open spec fn is_above(&self, a: bool, b: bool) -> bool {
        false
    }

    open spec fn is_at_most(&self, a: bool, b: bool) -> bool {
        true
    }

    fn from_u64(&self, n: u64) -> (r: bool)
        ensures
            r == self.whole(n),
    {
        n % 2 == 1
    }

    fn neg_infinity(&self) -> (r: bool)
        ensures
            r == self.lowest(),
    {
        false
    }

    fn least_probability(&self) -> (r: bool)
        ensures
            r == self.least(),
    {
        true
    }

    fn add(&self, a: bool, b: bool) -> (r: bool)
        ensures
            r == self.plus(a, b),
    {
        a != b
    }

    fn sub(&self, a: bool, b: bool) -> (r: bool)
        ensures
            r == self.minus(a, b),
    {
        a != b
    }

    fn mul(&self, a: bool, b: bool) -> (r: bool)
        ensures
            r == self.times(a, b),
    {
        a && b
    }

    fn div(&self, a: bool, b: bool) -> (r: bool)
        ensures
            r == self.over(a, b),
    {
        a
    }

    fn neg(&self, a: bool) -> (r: bool)
        ensures
            r == self.negated(a),
    {
        a
    }

    fn max(&self, a: bool, b: bool) -> (r: bool)
        ensures
            r == self.larger(a, b),
    {
        a || b
    }

    fn abs(&self, a: bool) -> (r: bool)
        ensures
            r == self.magnitude(a),
    {
        a
    }

    fn tanh(&self, a: bool) -> (r: bool)
        ensures
            r == self.tanh_of(a),
    {
        a
    }

    fn exp(&self, a: bool) -> (r: bool)
        ensures
            r == self.exp_of(a),
    {
        a
    }

    fn ln(&self, a: bool) -> (r: bool)
        ensures
            r == self.ln_of(a),
    {
        a
    }

    fn sqrt(&self, a: bool) -> (r: bool)
        ensures
            r == self.sqrt_of(a),
    {
        a
    }

    fn same(&self, a: bool, b: bool) -> (r: bool)
        ensures
            r == self.is_same(a, b),
    {
        a == b
    }

    fn above(&self, a: bool, b: bool) -> (r: bool)
        ensures
            r == self.is_above(a, b),
    {
        false
    }

    fn at_most(&self, a: bool, b: bool) -> (r: bool)
        ensures
            r == self.is_at_most(a, b),
    {
        true
    }
}

/// There is an arithmetic that is faithful, rounds nothing and compares as numbers
/// do, so that what is stated of such arithmetic is stated of something.
pub proof fn law_parity_is_faithful_and_exact(s: Seq<bool>)
    ensures
        faithful::<bool, Parity>(Parity),
        exact::<bool, Parity>(Parity),
        undoes::<bool, Parity>(Parity),
        one_zero::<bool, Parity>(Parity),
        monotone::<bool, Parity>(Parity),
        ordered(Parity, s),
{
    reveal(exact);
    reveal(undoes);
}

} // verus!
