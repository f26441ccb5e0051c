use crate::arith::faithful;
use crate::arith::Arith;
use vstd::prelude::*;

verus! {

/// The nonlinearity of a layer.
#[derive(Clone, Copy, Debug, PartialEq, Eq, Structural)]
pub enum Activation {
    Tanh,
    Softsign,
    Relu,
}

/// The activation of `x`.
pub open spec fn activated<T, A: Arith<T>>(ar: A, activation: Activation, x: T) -> T {
    match activation {
        Activation::Tanh => ar.tanh_of(x),
        Activation::Softsign => ar.over(x, ar.plus(ar.whole(1), ar.magnitude(x))),
        Activation::Relu => ar.larger(x, ar.whole(0)),
    }
}

/// The derivative of the activation at `x`, where its value is `y`.
pub open spec fn slope<T, A: Arith<T>>(ar: A, activation: Activation, x: T, y: T) -> T {
    match activation {
        Activation::Tanh => ar.minus(ar.whole(1), ar.times(y, y)),
        Activation::Softsign => {
            let denom = ar.plus(ar.whole(1), ar.magnitude(x));
            ar.over(ar.whole(1), ar.times(denom, denom))
        },
        Activation::Relu => if ar.is_above(x, ar.whole(0)) {
            ar.whole(1)
        } else {
            ar.whole(0)
        },
    }
}

/// The activation of `x`.
pub fn activate<T: Copy, A: Arith<T>>(ar: &A, x: T, activation: Activation) -> (y: T)
    ensures
        faithful::<T, A>(*ar) ==> y == activated(*ar, activation, x),
        faithful::<T, A>(*ar) ==> y == (match activation {
            Activation::Tanh => ar.tanh_of(x),
            Activation::Softsign => ar.over(x, ar.plus(ar.whole(1), ar.magnitude(x))),
            Activation::Relu => ar.larger(x, ar.whole(0)),
        }),
{
    match activation {
        Activation::Tanh => ar.tanh(x),
        Activation::Softsign => ar.div(x, ar.add(ar.from_u64(1), ar.abs(x))),
        Activation::Relu => ar.max(x, ar.from_u64(0)),
    }
}

/// The derivative of the activation at `x`, where its value is `y`.
pub fn activate_derivative<T: Copy, A: Arith<T>>(ar: &A, x: T, y: T, activation: Activation) -> (d:
    T)
    ensures
        faithful::<T, A>(*ar) ==> d == slope(*ar, activation, x, y),
{
    match activation {
        Activation::Tanh => ar.sub(ar.from_u64(1), ar.mul(y, y)),
        Activation::Softsign => {
            let denom = ar.add(ar.from_u64(1), ar.abs(x));
            ar.div(ar.from_u64(1), ar.mul(denom, denom))
        },
        Activation::Relu => {
            if ar.above(x, ar.from_u64(0)) {
                ar.from_u64(1)
            } else {
                ar.from_u64(0)
            }
        },
    }
}

} // verus!
