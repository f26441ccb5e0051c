use crate::arith::Arith;
use crate::division::lemma_minus_is_plus;
use crate::division::lemma_minus_minus;
use crate::division::lemma_minus_plus;
use crate::division::lemma_minus_self;
use crate::division::lemma_over_is;
use crate::division::lemma_over_times;
use crate::division::lemma_plus_cancel;
use crate::division::lemma_times_cancel;
use crate::division::lemma_times_minus;
use crate::division::undoes;
use crate::exact::exact;
use crate::exact::lemma_plus_assoc;
use crate::exact::lemma_plus_comm;
use crate::exact::lemma_plus_zero;
use crate::exact::lemma_times_assoc;
use crate::exact::lemma_times_comm;
use crate::exact::lemma_times_one;
use crate::exact::lemma_times_plus;
use crate::exact::lemma_times_zero;
use crate::exact::lemma_total_ext;
use crate::exact::lemma_total_plus;
use crate::exact::lemma_total_single;
use crate::exact::lemma_total_times;
use crate::exact::total;
use crate::softmax::exponentials;
use crate::softmax::law_prediction_is_most_probable;
use crate::softmax::largest;
use crate::softmax::log_probability;
use crate::softmax::logit_gradients;
use crate::softmax::most_probable;
use crate::softmax::ordered;
use crate::softmax::prediction;
use crate::softmax::probabilities;
use crate::softmax::running_sum;
use crate::softmax::sample_loss;
use vstd::prelude::*;

verus! {

/// The sum of the exponentials.
pub open spec fn exponential_sum<T, A: Arith<T>>(ar: A, logits: Seq<T>) -> T {
    running_sum(ar, exponentials(ar, logits), logits.len() as int)
}

/// How fast exponential `c` changes when the logits change at the rates `dlogits`
/// and the largest of them at the rate `dtop`: an exponential changes by itself
/// times the change of its exponent.
pub open spec fn exponential_rate<T, A: Arith<T>>(
    ar: A,
    logits: Seq<T>,
    dlogits: Seq<T>,
    dtop: T,
    c: int,
) -> T {
    ar.times(exponentials(ar, logits)[c], ar.minus(dlogits[c], dtop))
}

/// How fast the sum of the exponentials changes.
pub open spec fn sum_rate<T, A: Arith<T>>(
    ar: A,
    logits: Seq<T>,
    dlogits: Seq<T>,
    dtop: T,
) -> T {
    total(ar, logits.len() as int, |c: int| exponential_rate(ar, logits, dlogits, dtop, c))
}

/// How fast the quotient of `a` by `b` changes: the quotient rule.
pub open spec fn quotient_rate<T, A: Arith<T>>(ar: A, a: T, da: T, b: T, db: T) -> T {
    ar.over(ar.minus(ar.times(da, b), ar.times(a, db)), ar.times(b, b))
}

/// How fast the probability of class `c` changes.
pub open spec fn probability_rate<T, A: Arith<T>>(
    ar: A,
    logits: Seq<T>,
    dlogits: Seq<T>,
    dtop: T,
    c: int,
) -> T {
    quotient_rate(
        ar,
        exponentials(ar, logits)[c],
        exponential_rate(ar, logits, dlogits, dtop, c),
        exponential_sum(ar, logits),
        sum_rate(ar, logits, dlogits, dtop),
    )
}

/// How fast the logarithm of a probability changes: by the change of the
/// probability over the probability, and not at all where it is kept away from
/// zero.
pub open spec fn log_probability_rate<T, A: Arith<T>>(ar: A, prob: T, dprob: T) -> T {
    if ar.larger(prob, ar.least()) == prob {
        ar.over(dprob, prob)
    } else {
        ar.whole(0)
    }
}

/// How fast the loss of a sample changes when its logits change at the rates
/// `dlogits`: the derivative of `sample_loss` after `probabilities`, worked out
/// from the logits to the loss.
pub open spec fn sample_loss_rate<T, A: Arith<T>>(
    ar: A,
    logits: Seq<T>,
    dlogits: Seq<T>,
    dtop: T,
    label: int,
) -> T {
    if 0 <= label < logits.len() {
        ar.negated(
            log_probability_rate(
                ar,
                probabilities(ar, logits)[label],
                probability_rate(ar, logits, dlogits, dtop, label),
            ),
        )
    } else {
        ar.whole(0)
    }
}

/// The loss of a sample can be differentiated: the label is a class, and its
/// probability is a quotient, not zero, and not kept away from zero.
pub open spec fn smooth<T, A: Arith<T>>(ar: A, logits: Seq<T>, label: int) -> bool {
    let prob = probabilities(ar, logits)[label];
    &&& 0 <= label < logits.len()
    &&& exponential_sum(ar, logits) != ar.whole(0)
    &&& prob != ar.whole(0)
    &&& ar.larger(prob, ar.least()) == prob
}

proof fn lemma_running_sum<T, A: Arith<T>>(ar: A, s: Seq<T>, k: int)
    ensures
        running_sum(ar, s, k) == total(ar, k, |i: int| s[i]),
    decreases k,
{
    if k > 0 {
        lemma_running_sum(ar, s, k - 1);
    }
}

/// Without rounding, the probabilities of the classes add up to one.
pub proof fn law_probabilities_add_up_to_one<T, A: Arith<T>>(ar: A, logits: Seq<T>)
    requires
        exact::<T, A>(ar),
        undoes::<T, A>(ar),
        exponential_sum(ar, logits) != ar.whole(0),
    ensures
        total(ar, logits.len() as int, |c: int| probabilities(ar, logits)[c]) == ar.whole(1),
{
    let n = logits.len() as int;
    let e = exponentials(ar, logits);
    let p = probabilities(ar, logits);
    let sum = exponential_sum(ar, logits);
    let probs = |c: int| p[c];
    lemma_running_sum(ar, e, n);
    lemma_total_times(ar, n, sum, probs);
    let scaled = |c: int| ar.times(sum, probs(c));
    assert forall|c: int| 0 <= c < n implies #[trigger] scaled(c) == e[c] by {
        lemma_over_times(ar, e[c], sum);
        lemma_times_comm(ar, sum, p[c]);
    }
    lemma_total_ext(ar, n, scaled, |c: int| e[c]);
    lemma_times_comm(ar, sum, total(ar, n, probs));
    lemma_times_one(ar, sum);
    lemma_times_comm(ar, sum, ar.whole(1));
    lemma_times_cancel(ar, total(ar, n, probs), ar.whole(1), sum);
}

/// The gradient at `scale` is the gradient at one times `scale`, wherever one
/// times a slope is that slope.
pub proof fn law_gradient_scales<T, A: Arith<T>>(
    ar: A,
    probs: Seq<T>,
    label: int,
    scale: T,
    c: int,
)
    requires
        0 <= c < probs.len(),
        ({
            let slope = if c == label {
                ar.minus(probs[c], ar.whole(1))
            } else {
                probs[c]
            };
            ar.times(slope, ar.whole(1)) == slope
        }),
    ensures
        logit_gradients(ar, probs, label, scale)[c] == ar.times(
            logit_gradients(ar, probs, label, ar.whole(1))[c],
            scale,
        ),
{
}

/// A difference, moved.
proof fn lemma_minus_shift<T, A: Arith<T>>(ar: A, a: T, b: T, t: T)
    requires
        exact::<T, A>(ar),
        undoes::<T, A>(ar),
    ensures
        ar.minus(ar.minus(a, t), ar.minus(b, t)) == ar.minus(a, b),
{
    let x = ar.minus(a, t);
    let y = ar.minus(b, t);
    lemma_minus_plus(ar, a, t);
    lemma_minus_plus(ar, b, t);
    lemma_minus_plus(ar, a, b);
    lemma_minus_plus(ar, x, y);
    // (x - y) + b is ((x - y) + y) + t, which is a.
    lemma_plus_assoc(ar, ar.minus(x, y), y, t);
    lemma_plus_cancel(ar, ar.minus(x, y), ar.minus(a, b), b);
}

/// Without rounding, the losses of two labels differ as their logits do: wherever the
/// logarithm of a quotient of an exponential is the exponent less the logarithm of the
/// divisor, and neither probability is kept away from zero, the loss of one label less
/// that of the other is the logit of the other less that of the one.
pub proof fn law_losses_differ_as_logits_do<T, A: Arith<T>>(ar: A, logits: Seq<T>, a: int, b: int)
    requires
        exact::<T, A>(ar),
        undoes::<T, A>(ar),
        0 <= a < logits.len(),
        0 <= b < logits.len(),
        ({
            let p = probabilities(ar, logits);
            let top = largest(ar, logits, logits.len() as int);
            let sum = exponential_sum(ar, logits);
            let u = ar.minus(logits[a], top);
            let v = ar.minus(logits[b], top);
            &&& ar.larger(p[a], ar.least()) == p[a]
            &&& ar.larger(p[b], ar.least()) == p[b]
            &&& ar.ln_of(ar.over(ar.exp_of(u), sum)) == ar.minus(u, ar.ln_of(sum))
            &&& ar.ln_of(ar.over(ar.exp_of(v), sum)) == ar.minus(v, ar.ln_of(sum))
        }),
    ensures
        ({
            let p = probabilities(ar, logits);
            ar.minus(sample_loss(ar, p, a), sample_loss(ar, p, b)) == ar.minus(
                logits[b],
                logits[a],
            )
        }),
{
    let top = largest(ar, logits, logits.len() as int);
    let l = ar.ln_of(exponential_sum(ar, logits));
    let u = ar.minus(logits[a], top);
    let v = ar.minus(logits[b], top);
    // The losses are l - u and l - v.
    lemma_minus_minus(ar, u, l);
    lemma_minus_minus(ar, v, l);
    let x = ar.minus(l, u);
    let y = ar.minus(l, v);
    // x - y is v - u: adding y and u to either gives l.
    lemma_minus_plus(ar, l, u);
    lemma_minus_plus(ar, l, v);
    lemma_minus_plus(ar, x, y);
    lemma_minus_plus(ar, v, u);
    let d = ar.minus(x, y);
    let e = ar.minus(v, u);
    lemma_plus_comm(ar, y, v);
    lemma_plus_comm(ar, e, u);
    // (e + y) + u is (e + u) + y.
    lemma_plus_assoc(ar, e, y, u);
    lemma_plus_comm(ar, y, u);
    lemma_plus_assoc(ar, e, u, y);
    lemma_plus_comm(ar, ar.plus(e, u), y);
    lemma_plus_comm(ar, u, e);
    lemma_plus_cancel(ar, ar.plus(e, y), x, u);
    lemma_plus_cancel(ar, d, e, y);
    lemma_minus_shift(ar, logits[b], logits[a], top);
}

proof fn lemma_largest_shifts<T, A: Arith<T>>(
    ar: A,
    logits: Seq<T>,
    shifted: Seq<T>,
    c: T,
    k: int,
)
    requires
        shifted == Seq::new(logits.len(), |i: int| ar.plus(logits[i], c)),
        1 <= k <= logits.len(),
        ar.larger(ar.lowest(), logits[0]) == logits[0],
        ar.larger(ar.lowest(), ar.plus(logits[0], c)) == ar.plus(logits[0], c),
        forall|a: T, b: T| #[trigger] ar.larger(ar.plus(a, c), ar.plus(b, c)) == ar.plus(
            ar.larger(a, b),
            c,
        ),
    ensures
        largest(ar, shifted, k) == ar.plus(largest(ar, logits, k), c),
    decreases k,
{
    if k == 1 {
        assert(largest(ar, logits, 0) == ar.lowest());
        assert(largest(ar, shifted, 0) == ar.lowest());
    } else {
        lemma_largest_shifts(ar, logits, shifted, c, k - 1);
    }
}

/// Without rounding, what is added to all logits changes no probability, wherever the
/// larger of two numbers goes up with both of them, and the first logit is above the
/// lowest value before and after.
pub proof fn law_probabilities_ignore_a_shift<T, A: Arith<T>>(ar: A, logits: Seq<T>, c: T)
    requires
        exact::<T, A>(ar),
        undoes::<T, A>(ar),
        0 < logits.len(),
        ar.larger(ar.lowest(), logits[0]) == logits[0],
        ar.larger(ar.lowest(), ar.plus(logits[0], c)) == ar.plus(logits[0], c),
        forall|a: T, b: T| #[trigger] ar.larger(ar.plus(a, c), ar.plus(b, c)) == ar.plus(
            ar.larger(a, b),
            c,
        ),
    ensures
        probabilities(ar, Seq::new(logits.len(), |i: int| ar.plus(logits[i], c))) == probabilities(
            ar,
            logits,
        ),
{
    let n = logits.len() as int;
    let shifted = Seq::new(logits.len(), |i: int| ar.plus(logits[i], c));
    let top = largest(ar, logits, n);
    lemma_largest_shifts(ar, logits, shifted, c, n);
    assert forall|i: int| 0 <= i < n implies ar.minus(
        #[trigger] shifted[i],
        ar.plus(top, c),
    ) == ar.minus(logits[i], top) by {
        let z = logits[i];
        let t = ar.plus(top, c);
        let d = ar.minus(z, top);
        lemma_minus_plus(ar, z, top);
        lemma_minus_plus(ar, shifted[i], t);
        lemma_plus_assoc(ar, d, top, c);
        lemma_plus_cancel(ar, ar.minus(shifted[i], t), d, t);
    }
    assert(exponentials(ar, shifted) =~= exponentials(ar, logits));
    assert(probabilities(ar, shifted) =~= probabilities(ar, logits));
}

/// The weighted sum of the gradients: the probabilities weighted, less the
/// label's weight.
proof fn lemma_weighted_gradients<T, A: Arith<T>>(
    ar: A,
    probs: Seq<T>,
    label: int,
    d: Seq<T>,
)
    requires
        exact::<T, A>(ar),
        undoes::<T, A>(ar),
        0 <= label < probs.len(),
    ensures
        total(
            ar,
            probs.len() as int,
            |c: int| ar.times(logit_gradients(ar, probs, label, ar.whole(1))[c], d[c]),
        ) == ar.minus(
            total(ar, probs.len() as int, |c: int| ar.times(probs[c], d[c])),
            d[label],
        ),
{
    let n = probs.len() as int;
    let g = logit_gradients(ar, probs, label, ar.whole(1));
    let down = ar.negated(d[label]);
    let terms = |c: int| ar.times(g[c], d[c]);
    let first = |c: int| ar.times(probs[c], d[c]);
    let second = |c: int|
        if c == label {
            down
        } else {
            ar.whole(0)
        };
    assert forall|c: int| 0 <= c < n implies #[trigger] terms(c) == ar.plus(
        first(c),
        second(c),
    ) by {
        lemma_times_one(ar, probs[c]);
        lemma_times_one(ar, ar.minus(probs[c], ar.whole(1)));
        if c == label {
            let one = ar.whole(1);
            lemma_times_comm(ar, g[c], d[c]);
            lemma_times_minus(ar, d[c], probs[c], one);
            lemma_times_comm(ar, d[c], probs[c]);
            lemma_times_one(ar, d[c]);
            lemma_minus_is_plus(ar, first(c), d[c]);
        } else {
            lemma_plus_zero(ar, first(c));
        }
    }
    lemma_total_ext(ar, n, terms, |c: int| ar.plus(first(c), second(c)));
    lemma_total_plus(ar, n, first, second);
    lemma_total_single(ar, n, label, down);
    lemma_minus_is_plus(ar, total(ar, n, first), d[label]);
}

/// Without rounding, the gradient of the loss by the logits adds up to zero,
/// whatever its scale.
pub proof fn law_gradients_add_up_to_zero<T, A: Arith<T>>(
    ar: A,
    logits: Seq<T>,
    label: int,
    scale: T,
)
    requires
        exact::<T, A>(ar),
        undoes::<T, A>(ar),
        0 <= label < logits.len(),
        exponential_sum(ar, logits) != ar.whole(0),
    ensures
        total(
            ar,
            logits.len() as int,
            |c: int| logit_gradients(ar, probabilities(ar, logits), label, scale)[c],
        ) == ar.whole(0),
{
    let n = logits.len() as int;
    let p = probabilities(ar, logits);
    let scales = Seq::new(logits.len(), |c: int| scale);
    let one = logit_gradients(ar, p, label, ar.whole(1));
    let g = logit_gradients(ar, p, label, scale);
    let terms = |c: int| ar.times(one[c], scales[c]);
    assert forall|c: int| 0 <= c < n implies #[trigger] terms(c) == g[c] by {
        lemma_times_one(ar, p[c]);
        lemma_times_one(ar, ar.minus(p[c], ar.whole(1)));
    }
    lemma_total_ext(ar, n, terms, |c: int| g[c]);
    lemma_weighted_gradients(ar, p, label, scales);
    law_probabilities_add_up_to_one(ar, logits);
    let probs = |c: int| p[c];
    let weighted = |c: int| ar.times(p[c], scales[c]);
    let scaled = |c: int| ar.times(scale, probs(c));
    assert forall|c: int| 0 <= c < n implies #[trigger] weighted(c) == scaled(c) by {
        lemma_times_comm(ar, p[c], scale);
    }
    lemma_total_ext(ar, n, weighted, scaled);
    lemma_total_times(ar, n, scale, probs);
    lemma_times_one(ar, scale);
    lemma_minus_self(ar, scale);
}

/// The logarithm of the label's probability changes by the change of its logit
/// less the mean change of all.
proof fn lemma_log_rate<T, A: Arith<T>>(
    ar: A,
    logits: Seq<T>,
    dlogits: Seq<T>,
    dtop: T,
    label: int,
)
    requires
        exact::<T, A>(ar),
        undoes::<T, A>(ar),
        smooth(ar, logits, label),
    ensures
        log_probability_rate(
            ar,
            probabilities(ar, logits)[label],
            probability_rate(ar, logits, dlogits, dtop, label),
        ) == ar.minus(
            ar.minus(dlogits[label], dtop),
            total(
                ar,
                logits.len() as int,
                |c: int| ar.times(probabilities(ar, logits)[c], ar.minus(dlogits[c], dtop)),
            ),
        ),
{
    let n = logits.len() as int;
    let e = exponentials(ar, logits);
    let p = probabilities(ar, logits);
    let sum = exponential_sum(ar, logits);
    let dsum = sum_rate(ar, logits, dlogits, dtop);
    let x = |c: int| ar.minus(dlogits[c], dtop);
    let means = |c: int| ar.times(p[c], ar.minus(dlogits[c], dtop));
    let mean = total(ar, n, means);
    let el = e[label];
    let pl = p[label];
    let xl = ar.minus(dlogits[label], dtop);
    let q = ar.minus(xl, mean);

    // The sum times the mean change is the change of the sum.
    lemma_total_times(ar, n, sum, means);
    let scaled = |c: int| ar.times(sum, means(c));
    let changes = |c: int| exponential_rate(ar, logits, dlogits, dtop, c);
    assert forall|c: int| 0 <= c < n implies #[trigger] scaled(c) == changes(c) by {
        lemma_times_assoc(ar, sum, p[c], x(c));
        lemma_times_comm(ar, sum, p[c]);
        lemma_over_times(ar, e[c], sum);
    }
    lemma_total_ext(ar, n, scaled, changes);
    assert(ar.times(sum, mean) == dsum);

    // The square of the sum is not zero.
    let square = ar.times(sum, sum);
    if square == ar.whole(0) {
        lemma_times_comm(ar, ar.whole(0), sum);
        lemma_times_zero(ar, sum);
        lemma_times_cancel(ar, sum, ar.whole(0), sum);
    }
    // q times the probability is the change of the probability.
    let top = ar.minus(ar.times(ar.times(el, xl), sum), ar.times(el, dsum));
    lemma_over_times(ar, el, sum);
    lemma_times_assoc(ar, pl, sum, sum);
    lemma_times_assoc(ar, q, pl, square);
    let es = ar.times(el, sum);
    lemma_times_comm(ar, q, es);
    lemma_times_minus(ar, es, xl, mean);
    lemma_times_assoc(ar, el, sum, xl);
    lemma_times_comm(ar, sum, xl);
    lemma_times_assoc(ar, el, xl, sum);
    lemma_times_assoc(ar, el, sum, mean);
    assert(ar.times(ar.times(q, pl), square) == top);
    lemma_over_is(ar, top, square, ar.times(q, pl));
    lemma_over_is(ar, ar.times(q, pl), pl, q);
}

/// The logit gradients are the derivative of the loss: without rounding, and
/// whatever the rates at which the logits change, the loss of a sample changes by
/// the sum of the gradients, each times the change of its logit. The change of
/// the largest logit, which is taken from all of them, does not matter.
pub proof fn law_logit_gradients_are_the_derivative<T, A: Arith<T>>(
    ar: A,
    logits: Seq<T>,
    dlogits: Seq<T>,
    dtop: T,
    label: int,
)
    requires
        exact::<T, A>(ar),
        undoes::<T, A>(ar),
        smooth(ar, logits, label),
    ensures
        sample_loss_rate(ar, logits, dlogits, dtop, label) == total(
            ar,
            logits.len() as int,
            |c: int|
                ar.times(
                    logit_gradients(ar, probabilities(ar, logits), label, ar.whole(1))[c],
                    dlogits[c],
                ),
        ),
{
    let n = logits.len() as int;
    let p = probabilities(ar, logits);
    let means = |c: int| ar.times(p[c], ar.minus(dlogits[c], dtop));
    let mean = total(ar, n, means);
    let xl = ar.minus(dlogits[label], dtop);
    lemma_log_rate(ar, logits, dlogits, dtop, label);
    lemma_minus_minus(ar, xl, mean);

    // The mean change, with the change of the largest logit apart.
    let direct = |c: int| ar.times(p[c], dlogits[c]);
    let probs = |c: int| p[c];
    let down = ar.negated(dtop);
    let moved = |c: int| ar.times(down, probs(c));
    assert forall|c: int| 0 <= c < n implies #[trigger] means(c) == ar.plus(
        direct(c),
        moved(c),
    ) by {
        lemma_minus_is_plus(ar, dlogits[c], dtop);
        lemma_times_plus(ar, p[c], dlogits[c], down);
        lemma_times_comm(ar, p[c], down);
    }
    lemma_total_ext(ar, n, means, |c: int| ar.plus(direct(c), moved(c)));
    lemma_total_plus(ar, n, direct, moved);
    lemma_total_times(ar, n, down, probs);
    law_probabilities_add_up_to_one(ar, logits);
    lemma_times_one(ar, down);
    let d = total(ar, n, direct);
    lemma_minus_is_plus(ar, d, dtop);
    assert(mean == ar.minus(d, dtop));
    lemma_minus_shift(ar, d, dlogits[label], dtop);
    lemma_weighted_gradients(ar, p, label, dlogits);
}

/// Comparisons go with the operations of `ar`, where what is compared are
/// numbers. Nothing is said of values that do not compare equal to themselves.
pub open spec fn monotone<T, A: Arith<T>>(ar: A) -> bool {
    let zero = ar.whole(0);
    let one = ar.whole(1);
    &&& ar.is_at_most(zero, zero)
    &&& forall|a: T, b: T, c: T| #[trigger]
        ar.is_at_most(a, b) && #[trigger] ar.is_at_most(b, c) ==> ar.is_at_most(a, c)
    &&& forall|a: T, b: T|
        ar.is_at_most(zero, a) && ar.is_at_most(zero, b) ==> ar.is_at_most(
            a,
            #[trigger] ar.plus(a, b),
        ) && ar.is_at_most(b, ar.plus(a, b))
    &&& forall|a: T, b: T|
        #![trigger ar.over(a, b)]
        ar.is_at_most(zero, a) && ar.is_at_most(a, b) && ar.is_same(ar.over(a, b), ar.over(a, b))
            ==> ar.is_at_most(zero, ar.over(a, b)) && ar.is_at_most(ar.over(a, b), one)
    &&& forall|a: T| ar.is_same(a, a) ==> ar.is_at_most(zero, #[trigger] ar.exp_of(a))
    &&& forall|a: T|
        #![trigger ar.minus(a, one)]
        ar.is_at_most(zero, a) && ar.is_at_most(a, one) ==> ar.is_at_most(
            ar.negated(one),
            ar.minus(a, one),
        ) && ar.is_at_most(ar.minus(a, one), zero)
    &&& forall|a: T|
        #![trigger ar.larger(a, ar.least())]
        ar.is_at_most(zero, a) && ar.is_at_most(a, one) ==> ar.is_at_most(
            ar.least(),
            ar.larger(a, ar.least()),
        ) && ar.is_at_most(ar.larger(a, ar.least()), one)
    &&& forall|a: T|
        #![trigger ar.ln_of(a)]
        ar.is_at_most(ar.least(), a) && ar.is_at_most(a, one) ==> ar.is_at_most(
            zero,
            ar.negated(ar.ln_of(a)),
        ) && ar.is_at_most(ar.negated(ar.ln_of(a)), ar.negated(ar.ln_of(ar.least())))
}

/// The exponentials and probabilities of the logits are numbers, and so are their
/// distances from the largest.
pub open spec fn all_numbers<T, A: Arith<T>>(ar: A, logits: Seq<T>) -> bool {
    let top = largest(ar, logits, logits.len() as int);
    let p = probabilities(ar, logits);
    forall|c: int|
        #![trigger logits[c]]
        0 <= c < logits.len() ==> ar.is_same(ar.minus(logits[c], top), ar.minus(logits[c], top))
            && ar.is_same(p[c], p[c])
}

/// The sum of exponentials is not below any of those added.
proof fn lemma_sum_bounds<T, A: Arith<T>>(ar: A, s: Seq<T>, k: int, c: int)
    requires
        monotone::<T, A>(ar),
        0 <= k <= s.len(),
        forall|i: int| 0 <= i < s.len() ==> ar.is_at_most(ar.whole(0), #[trigger] s[i]),
    ensures
        ar.is_at_most(ar.whole(0), running_sum(ar, s, k)),
        0 <= c < k ==> ar.is_at_most(s[c], running_sum(ar, s, k)),
    decreases k,
{
    if k > 0 {
        lemma_sum_bounds(ar, s, k - 1, c);
        let before = running_sum(ar, s, k - 1);
        assert(ar.is_at_most(ar.whole(0), s[k - 1]));
        assert(ar.is_at_most(before, ar.plus(before, s[k - 1])));
    }
}

/// Probabilities lie between zero and one, with rounding too.
pub proof fn law_probabilities_are_bounded<T, A: Arith<T>>(ar: A, logits: Seq<T>, c: int)
    requires
        monotone::<T, A>(ar),
        all_numbers(ar, logits),
        0 <= c < logits.len(),
    ensures
        ar.is_at_most(ar.whole(0), probabilities(ar, logits)[c]),
        ar.is_at_most(probabilities(ar, logits)[c], ar.whole(1)),
{
    let e = exponentials(ar, logits);
    let top = largest(ar, logits, logits.len() as int);
    assert forall|i: int| 0 <= i < e.len() implies ar.is_at_most(
        ar.whole(0),
        #[trigger] e[i],
    ) by {
        assert(ar.is_same(ar.minus(logits[i], top), ar.minus(logits[i], top)));
    }
    lemma_sum_bounds(ar, e, e.len() as int, c);
    let sum = running_sum(ar, e, e.len() as int);
    assert(ar.is_same(ar.over(e[c], sum), ar.over(e[c], sum))) by {
        assert(logits[c] == logits[c]);
        assert(probabilities(ar, logits)[c] == ar.over(e[c], sum));
    }
}

/// The loss of a sample lies between zero and the loss of the smallest
/// probability whose logarithm is taken, and its gradient at one lies between
/// minus one and zero for the label and between zero and one for the other
/// classes. This holds with rounding too.
pub proof fn law_loss_and_gradients_are_bounded<T, A: Arith<T>>(
    ar: A,
    logits: Seq<T>,
    label: int,
    c: int,
)
    requires
        monotone::<T, A>(ar),
        all_numbers(ar, logits),
        0 <= label < logits.len(),
        0 <= c < logits.len(),
        ({
            let p = probabilities(ar, logits)[c];
            let slope = if c == label {
                ar.minus(p, ar.whole(1))
            } else {
                p
            };
            ar.times(slope, ar.whole(1)) == slope
        }),
    ensures
        ({
            let p = probabilities(ar, logits);
            let loss = sample_loss(ar, p, label);
            let g = logit_gradients(ar, p, label, ar.whole(1))[c];
            &&& ar.is_at_most(ar.whole(0), loss)
            &&& ar.is_at_most(loss, ar.negated(ar.ln_of(ar.least())))
            &&& c == label ==> ar.is_at_most(ar.negated(ar.whole(1)), g) && ar.is_at_most(
                g,
                ar.whole(0),
            )
            &&& c != label ==> ar.is_at_most(ar.whole(0), g) && ar.is_at_most(g, ar.whole(1))
        }),
{
    law_probabilities_are_bounded(ar, logits, c);
    law_probabilities_are_bounded(ar, logits, label);
    let p = probabilities(ar, logits)[label];
    assert(log_probability(ar, p) == ar.ln_of(ar.larger(p, ar.least())));
}

/// What the loss and the gradient of a sample are like, with rounding too: the loss
/// is bounded, the gradient scales and is bounded, and the prediction is the first
/// of the most probable classes. Without rounding the gradient adds up to zero. The
/// premises are that the values involved compare and multiply by one as finite
/// numbers do.
pub proof fn law_softmax_loss_gradient<T, A: Arith<T>>(
    ar: A,
    logits: Seq<T>,
    label: int,
    scale: T,
)
    requires
        monotone::<T, A>(ar),
        all_numbers(ar, logits),
        ordered(ar, probabilities(ar, logits).push(ar.negated(ar.whole(1)))),
        0 <= label < logits.len(),
        ar.is_above(probabilities(ar, logits)[0], ar.negated(ar.whole(1))),
        forall|c: int|
            #![trigger probabilities(ar, logits)[c]]
            0 <= c < logits.len() ==> {
                let p = probabilities(ar, logits)[c];
                let slope = if c == label {
                    ar.minus(p, ar.whole(1))
                } else {
                    p
                };
                ar.times(slope, ar.whole(1)) == slope
            },
    ensures
        ({
            let p = probabilities(ar, logits);
            let loss = sample_loss(ar, p, label);
            let class = prediction(ar, p);
            let one = logit_gradients(ar, p, label, ar.whole(1));
            let g = logit_gradients(ar, p, label, scale);
            &&& ar.is_at_most(ar.whole(0), loss)
            &&& ar.is_at_most(loss, ar.negated(ar.ln_of(ar.least())))
            &&& forall|c: int|
                #![trigger g[c]]
                0 <= c < logits.len() ==> {
                    &&& g[c] == ar.times(one[c], scale)
                    &&& c == label ==> ar.is_at_most(ar.negated(ar.whole(1)), one[c])
                        && ar.is_at_most(one[c], ar.whole(0))
                    &&& c != label ==> ar.is_at_most(ar.whole(0), one[c]) && ar.is_at_most(
                        one[c],
                        ar.whole(1),
                    )
                }
            &&& 0 <= class < logits.len()
            &&& forall|c: int| 0 <= c < logits.len() ==> !ar.is_above(#[trigger] p[c], p[class])
            &&& forall|c: int| 0 <= c < class ==> ar.is_above(p[class], #[trigger] p[c])
            &&& exact::<T, A>(ar) && undoes::<T, A>(ar) && exponential_sum(ar, logits) != ar.whole(0)
                ==> total(ar, logits.len() as int, |c: int| g[c]) == ar.whole(0)
        }),
{
    let p = probabilities(ar, logits);
    let g = logit_gradients(ar, p, label, scale);
    let n = logits.len() as int;
    assert(p[label] == probabilities(ar, logits)[label]);
    law_loss_and_gradients_are_bounded(ar, logits, label, label);
    assert forall|c: int| #![trigger g[c]] 0 <= c < n implies {
        let one = logit_gradients(ar, p, label, ar.whole(1));
        &&& g[c] == ar.times(one[c], scale)
        &&& c == label ==> ar.is_at_most(ar.negated(ar.whole(1)), one[c]) && ar.is_at_most(
            one[c],
            ar.whole(0),
        )
        &&& c != label ==> ar.is_at_most(ar.whole(0), one[c]) && ar.is_at_most(
            one[c],
            ar.whole(1),
        )
    } by {
        assert(p[c] == probabilities(ar, logits)[c]);
        law_gradient_scales(ar, p, label, scale, c);
        law_loss_and_gradients_are_bounded(ar, logits, label, c);
    }
    law_prediction_is_most_probable(ar, p, n);
    let prob = most_probable(ar, p, n).1;
    assert(!ar.is_above(p[0], prob));
    if exact::<T, A>(ar) && undoes::<T, A>(ar) && exponential_sum(ar, logits) != ar.whole(0) {
        law_gradients_add_up_to_zero(ar, logits, label, scale);
    }
}

} // verus!
