use crate::arith::faithful;
use crate::arith::Arith;
use vstd::prelude::*;

verus! {

/// The largest of the first `k` values.
pub open spec fn largest<T, A: Arith<T>>(ar: A, s: Seq<T>, k: int) -> T
    decreases k,
{
    if k <= 0 {
        ar.lowest()
    } else {
        ar.larger(largest(ar, s, k - 1), s[k - 1])
    }
}

/// The sum of the first `k` values, in order.
pub open spec fn running_sum<T, A: Arith<T>>(ar: A, s: Seq<T>, k: int) -> T
    decreases k,
{
    if k <= 0 {
        ar.whole(0)
    } else {
        ar.plus(running_sum(ar, s, k - 1), s[k - 1])
    }
}

/// The exponentials of the distances from the largest value.
pub open spec fn exponentials<T, A: Arith<T>>(ar: A, logits: Seq<T>) -> Seq<T> {
    let top = largest(ar, logits, logits.len() as int);
    Seq::new(logits.len(), |i: int| ar.exp_of(ar.minus(logits[i], top)))
}

/// The probability of each class.
pub open spec fn probabilities<T, A: Arith<T>>(ar: A, logits: Seq<T>) -> Seq<T> {
    let e = exponentials(ar, logits);
    let total = running_sum(ar, e, e.len() as int);
    Seq::new(logits.len(), |i: int| ar.over(e[i], total))
}

/// The first of the most probable among the first `k` classes, and its
/// probability. Class zero where no probability is above minus one.
pub open spec fn most_probable<T, A: Arith<T>>(ar: A, probs: Seq<T>, k: int) -> (int, T)
    decreases k,
{
    if k <= 0 {
        (0, ar.negated(ar.whole(1)))
    } else {
        let before = most_probable(ar, probs, k - 1);
        if ar.is_above(probs[k - 1], before.1) {
            (k - 1, probs[k - 1])
        } else {
            before
        }
    }
}

/// The predicted class.
pub open spec fn prediction<T, A: Arith<T>>(ar: A, probs: Seq<T>) -> int {
    most_probable(ar, probs, probs.len() as int).0
}

/// The logarithm of a probability, kept away from zero.
pub open spec fn log_probability<T, A: Arith<T>>(ar: A, prob: T) -> T {
    ar.ln_of(ar.larger(prob, ar.least()))
}

/// The loss of one sample. A label that is no class costs nothing.
pub open spec fn sample_loss<T, A: Arith<T>>(ar: A, probs: Seq<T>, label: int) -> T {
    if 0 <= label < probs.len() {
        ar.negated(log_probability(ar, probs[label]))
    } else {
        ar.whole(0)
    }
}

/// How `scale` times the loss of one sample changes with its logits.
pub open spec fn logit_gradients<T, A: Arith<T>>(
    ar: A,
    probs: Seq<T>,
    label: int,
    scale: T,
) -> Seq<T> {
    Seq::new(
        probs.len(),
        |i: int|
            ar.times(
                if i == label {
                    ar.minus(probs[i], ar.whole(1))
                } else {
                    probs[i]
                },
                scale,
            ),
    )
}

/// The prediction is a class.
pub proof fn law_prediction_is_a_class<T, A: Arith<T>>(ar: A, probs: Seq<T>, k: int)
    requires
        0 <= k <= probs.len(),
        0 < probs.len(),
    ensures
        0 <= most_probable(ar, probs, k).0 < probs.len(),
    decreases k,
{
    if k > 0 {
        law_prediction_is_a_class(ar, probs, k - 1);
    }
}

/// Comparisons of `ar` order the values of `s`: none is above itself, and what is
/// above one value is above every value that is not above that one.
pub open spec fn ordered<T, A: Arith<T>>(ar: A, s: Seq<T>) -> bool {
    &&& forall|i: int| 0 <= i < s.len() ==> !ar.is_above(s[i], #[trigger] s[i])
    &&& forall|i: int, j: int, k: int|
        #![trigger s[i], s[j], s[k]]
        0 <= i < s.len() && 0 <= j < s.len() && 0 <= k < s.len() && ar.is_above(s[i], s[j])
            && !ar.is_above(s[k], s[j]) ==> ar.is_above(s[i], s[k])
    &&& forall|i: int, j: int|
        #![trigger s[i], s[j]]
        0 <= i < s.len() && 0 <= j < s.len() && ar.is_above(s[i], s[j]) ==> !ar.is_above(
            s[j],
            s[i],
        )
}

/// The prediction is the first of the most probable classes: none has a higher
/// probability, and those before it have lower ones. Only where no probability is
/// above minus one, class zero is predicted instead. The probabilities and minus
/// one must compare as numbers do; other values of the number type need not.
pub proof fn law_prediction_is_most_probable<T, A: Arith<T>>(ar: A, probs: Seq<T>, k: int)
    requires
        ordered(ar, probs.push(ar.negated(ar.whole(1)))),
        0 <= k <= probs.len(),
    ensures
        ({
            let (class, prob) = most_probable(ar, probs, k);
            &&& forall|i: int| 0 <= i < k ==> !ar.is_above(#[trigger] probs[i], prob)
            &&& {
                ||| class == 0 && prob == ar.negated(ar.whole(1))
                ||| {
                    &&& 0 <= class < k
                    &&& prob == probs[class]
                    &&& forall|i: int| 0 <= i < class ==> ar.is_above(prob, #[trigger] probs[i])
                }
            }
        }),
    decreases k,
{
    if k > 0 {
        law_prediction_is_most_probable(ar, probs, k - 1);
        let (class, prob) = most_probable(ar, probs, k - 1);
        let all = probs.push(ar.negated(ar.whole(1)));
        let at = if class == 0 && prob == ar.negated(ar.whole(1)) {
            probs.len() as int
        } else {
            class
        };
        assert(all[at] == prob);
        assert(all[k - 1] == probs[k - 1]);
        if ar.is_above(probs[k - 1], prob) {
            assert forall|i: int| 0 <= i < k - 1 implies ar.is_above(
                probs[k - 1],
                #[trigger] probs[i],
            ) && !ar.is_above(probs[i], probs[k - 1]) by {
                assert(all[i] == probs[i]);
                assert(!ar.is_above(probs[i], prob));
            }
        }
    }
}

/// The probability of each class.
pub fn softmax<T: Copy, A: Arith<T>>(ar: &A, logits: &[T]) -> (probs: Vec<T>)
    ensures
        probs@.len() == logits@.len(),
        faithful::<T, A>(*ar) ==> probs@ == probabilities(*ar, logits@),
{
    let n: usize = logits.len();
    let mut top = ar.neg_infinity();
    let mut i: usize = 0;
    while i < n
        invariant
            i <= n,
            n == logits@.len(),
            faithful::<T, A>(*ar) ==> top == largest(*ar, logits@, i as int),
        decreases n - i,
    {
        top = ar.max(top, logits[i]);
        i += 1;
    }
    let ghost e = exponentials(*ar, logits@);
    let mut exps: Vec<T> = Vec::with_capacity(n);
    let mut total = ar.from_u64(0);
    let mut i: usize = 0;
    while i < n
        invariant
            i <= n,
            n == logits@.len(),
            e == exponentials(*ar, logits@),
            faithful::<T, A>(*ar) ==> top == largest(*ar, logits@, n as int),
            exps@.len() == i,
            faithful::<T, A>(*ar) ==> forall|k: int| 0 <= k < i ==> exps@[k] == e[k],
            faithful::<T, A>(*ar) ==> total == running_sum(*ar, e, i as int),
        decreases n - i,
    {
        let value = ar.exp(ar.sub(logits[i], top));
        exps.push(value);
        total = ar.add(total, value);
        i += 1;
    }
    let mut probs: Vec<T> = Vec::with_capacity(n);
    let mut i: usize = 0;
    while i < n
        invariant
            i <= n,
            n == logits@.len() == exps@.len(),
            e == exponentials(*ar, logits@),
            faithful::<T, A>(*ar) ==> forall|k: int| 0 <= k < n ==> exps@[k] == e[k],
            faithful::<T, A>(*ar) ==> total == running_sum(*ar, e, n as int),
            probs@.len() == i,
            faithful::<T, A>(*ar) ==> forall|k: int|
                0 <= k < i ==> probs@[k] == probabilities(*ar, logits@)[k],
        decreases n - i,
    {
        probs.push(ar.div(exps[i], total));
        i += 1;
    }
    proof {
        if faithful::<T, A>(*ar) {
            assert(probs@ =~= probabilities(*ar, logits@));
        }
    }
    probs
}

/// The predicted class.
pub fn predict<T: Copy, A: Arith<T>>(ar: &A, probs: &[T]) -> (class: usize)
    requires
        0 < probs@.len(),
    ensures
        class < probs@.len(),
        faithful::<T, A>(*ar) ==> class == prediction(*ar, probs@),
{
    let n: usize = probs.len();
    let mut class: usize = 0;
    let mut prob = ar.neg(ar.from_u64(1));
    let mut i: usize = 0;
    while i < n
        invariant
            i <= n,
            n == probs@.len(),
            class < n,
            faithful::<T, A>(*ar) ==> (class as int, prob) == most_probable(*ar, probs@, i as int),
        decreases n - i,
    {
        if ar.above(probs[i], prob) {
            prob = probs[i];
            class = i;
        }
        i += 1;
    }
    class
}

/// The logarithm of a probability, kept away from zero.
pub fn log_prob<T: Copy, A: Arith<T>>(ar: &A, prob: T) -> (l: T)
    ensures
        faithful::<T, A>(*ar) ==> l == log_probability(*ar, prob),
        faithful::<T, A>(*ar) ==> l == ar.ln_of(ar.larger(prob, ar.least())),
{
    ar.ln(ar.max(prob, ar.least_probability()))
}

/// How `scale` times the loss of one sample changes with its logits.
pub fn softmax_gradient<T: Copy, A: Arith<T>>(ar: &A, probs: &[T], label: usize, scale: T) -> (grad:
    Vec<T>)
    ensures
        grad@.len() == probs@.len(),
        faithful::<T, A>(*ar) ==> grad@ == logit_gradients(*ar, probs@, label as int, scale),
{
    let n: usize = probs.len();
    let mut grad: Vec<T> = Vec::with_capacity(n);
    let mut i: usize = 0;
    while i < n
        invariant
            i <= n,
            n == probs@.len(),
            grad@.len() == i,
            faithful::<T, A>(*ar) ==> forall|k: int|
                0 <= k < i ==> grad@[k] == logit_gradients(*ar, probs@, label as int, scale)[k],
        decreases n - i,
    {
        let slope = if i == label {
            ar.sub(probs[i], ar.from_u64(1))
        } else {
            probs[i]
        };
        grad.push(ar.mul(slope, scale));
        i += 1;
    }
    proof {
        if faithful::<T, A>(*ar) {
            assert(grad@ =~= logit_gradients(*ar, probs@, label as int, scale));
        }
    }
    grad
}

/// The loss of one sample, its predicted class, and how `scale` times the loss
/// changes with the logits.
pub fn softmax_loss_gradient<T: Copy, A: Arith<T>>(
    ar: &A,
    logits: &[T],
    label: usize,
    scale: T,
) -> (r: (T, usize, Vec<T>))
    requires
        0 < logits@.len(),
    ensures
        r.1 < logits@.len(),
        r.2@.len() == logits@.len(),
        faithful::<T, A>(*ar) ==> ({
            let probs = probabilities(*ar, logits@);
            &&& r.0 == sample_loss(*ar, probs, label as int)
            &&& r.1 == prediction(*ar, probs)
            &&& r.2@ == logit_gradients(*ar, probs, label as int, scale)
        }),
{
    let probs = softmax(ar, logits);
    let loss = if label < probs.len() {
        ar.neg(log_prob(ar, probs[label]))
    } else {
        ar.from_u64(0)
    };
    let class: usize = predict(ar, probs.as_slice());
    let grad = softmax_gradient(ar, probs.as_slice(), label, scale);
    (loss, class, grad)
}

} // verus!
