use crate::arith::descended;
use crate::arith::Arith;
use crate::descent::lemma_bias_gradient;
use crate::descent::mean_logit_gradients;
use crate::division::lemma_minus_is_plus;
use crate::division::lemma_minus_zero;
use crate::division::lemma_over_is_times;
use crate::division::lemma_total_negated;
use crate::division::undoes;
use crate::exact::exact;
use crate::exact::lemma_times_zero;
use crate::exact::lemma_total_ext;
use crate::exact::lemma_total_plus;
use crate::exact::lemma_total_swap;
use crate::exact::lemma_total_times;
use crate::exact::lemma_total_zero;
use crate::exact::total;
use crate::head::HeadView;
use crate::head::Style;
use crate::layout::CLASSES;
use crate::loss::exponential_sum;
use crate::loss::law_gradients_add_up_to_zero;
use crate::passes::batch_probabilities;
use crate::passes::bias_gradient;
use crate::passes::evaluated;
use crate::passes::input_batch;
use crate::passes::lemma_logits_len;
use crate::passes::logits;
use crate::passes::output_step;
use crate::passes::total_loss;
use crate::perceptron::perceptron_evaluated;
use crate::perceptron::perceptron_step;
use crate::residual::forward;
use crate::residual::Net;
use crate::softmax::logit_gradients;
use crate::softmax::probabilities;
use crate::train::training_step;
use vstd::prelude::*;

verus! {

/// The output part of a training step reports what an evaluation of the head
/// before the step does: the same number of correct samples, with rounding too,
/// and without rounding the same loss.
pub proof fn law_output_step_reports_an_evaluation<T, A: Arith<T>>(
    ar: A,
    style: Style,
    head: HeadView<T>,
    hs: Seq<Seq<T>>,
    labels: Seq<int>,
    lr: T,
)
    ensures
        output_step(ar, style, head, hs, labels, lr).correct == evaluated(
            ar,
            style,
            head,
            hs,
            labels,
        ).1,
        exact::<T, A>(ar) && undoes::<T, A>(ar) && ar.whole(hs.len() as u64) != ar.whole(0)
            ==> output_step(ar, style, head, hs, labels, lr).loss == evaluated(
            ar,
            style,
            head,
            hs,
            labels,
        ).0,
{
    if exact::<T, A>(ar) && undoes::<T, A>(ar) && ar.whole(hs.len() as u64) != ar.whole(0) {
        let probs = batch_probabilities(ar, style, head, hs);
        lemma_over_is_times(
            ar,
            total_loss(ar, style, probs, labels, hs.len() as int),
            ar.whole(hs.len() as u64),
        );
    }
}

/// A training step reports what an evaluation of the network before the step
/// does.
pub proof fn law_training_step_reports_an_evaluation<T, A: Arith<T>>(
    ar: A,
    style: Style,
    net: Net<T>,
    head: HeadView<T>,
    layers: Seq<Seq<T>>,
    images: Seq<Seq<T>>,
    labels: Seq<int>,
    layer_lr: T,
    head_lr: T,
)
    ensures
        ({
            let t = training_step(
                ar,
                style,
                net,
                head,
                layers,
                images,
                labels,
                layer_lr,
                head_lr,
            );
            let last = forward(ar, net, layers, input_batch(ar, style, head, images));
            let e = evaluated(ar, style, head, last, labels);
            &&& t.correct == e.1
            &&& exact::<T, A>(ar) && undoes::<T, A>(ar) && ar.whole(last.len() as u64) != ar.whole(0)
                ==> t.loss == e.0
        }),
{
    let last = forward(ar, net, layers, input_batch(ar, style, head, images));
    law_output_step_reports_an_evaluation(ar, style, head, last, labels, head_lr);
}

/// A training step of a perceptron reports what an evaluation of the perceptron
/// before the step does.
pub proof fn law_perceptron_step_reports_an_evaluation<T, A: Arith<T>>(
    ar: A,
    head: HeadView<T>,
    images: Seq<Seq<T>>,
    labels: Seq<int>,
    lr: T,
)
    ensures
        ({
            let t = perceptron_step(ar, head, images, labels, lr);
            let e = perceptron_evaluated(ar, head, images, labels);
            &&& t.correct == e.1
            &&& exact::<T, A>(ar) && undoes::<T, A>(ar) && ar.whole(images.len() as u64)
                != ar.whole(0) ==> t.loss == e.0
        }),
{
    let hs = input_batch(ar, Style::Mlp, head, images);
    law_output_step_reports_an_evaluation(ar, Style::Mlp, head, hs, labels, lr);
}

/// Without rounding, a training step keeps the sum of the output biases: what one
/// class gains, others lose.
pub proof fn law_output_biases_keep_their_sum<T, A: Arith<T>>(
    ar: A,
    style: Style,
    head: HeadView<T>,
    hs: Seq<Seq<T>>,
    labels: Seq<int>,
    lr: T,
)
    requires
        exact::<T, A>(ar),
        undoes::<T, A>(ar),
        head.output_b.len() == CLASSES,
        forall|i: int| 0 <= i < hs.len() ==> 0 <= #[trigger] labels[i] < CLASSES,
        forall|i: int|
            0 <= i < hs.len() ==> exponential_sum(
                ar,
                logits(ar, style, head, #[trigger] hs[i], head.width),
            ) != ar.whole(0),
    ensures
        total(
            ar,
            CLASSES as int,
            |c: int| output_step(ar, style, head, hs, labels, lr).head.output_b[c],
        ) == total(ar, CLASSES as int, |c: int| head.output_b[c]),
{
    let n = hs.len() as int;
    let m = CLASSES as int;
    let gs = mean_logit_gradients(ar, style, head, hs, labels);
    let scale = ar.over(ar.whole(1), ar.whole(hs.len() as u64));
    let sums = bias_gradient(ar, m, gs, n);
    let after = output_step(ar, style, head, hs, labels, lr).head.output_b;
    assert(after == descended(ar, head.output_b, sums, lr));

    // The gradients of all classes and samples add up to zero.
    let f = |c: int, i: int| gs[i][c];
    let by_class = |c: int| sums[c];
    assert forall|c: int| 0 <= c < m implies #[trigger] by_class(c) == total(
        ar,
        n,
        |i: int| f(c, i),
    ) by {
        lemma_bias_gradient(ar, m, gs, n, c);
        lemma_total_ext(ar, n, |i: int| gs[i][c], |i: int| f(c, i));
    }
    lemma_total_ext(ar, m, by_class, |c: int| total(ar, n, |i: int| f(c, i)));
    lemma_total_swap(ar, m, n, f);
    let by_sample = |i: int| total(ar, m, |c: int| f(c, i));
    assert forall|i: int| 0 <= i < n implies #[trigger] by_sample(i) == ar.whole(0) by {
        let z = logits(ar, style, head, hs[i], head.width);
        lemma_logits_len(ar, style, head, hs[i], head.width);
        assert(0 <= labels[i] < CLASSES);
        law_gradients_add_up_to_zero(ar, z, labels[i], scale);
        lemma_total_ext(
            ar,
            m,
            |c: int| f(c, i),
            |c: int|
                logit_gradients(
                    ar,
                    probabilities(ar, z),
                    labels[i],
                    scale,
                )[c],
        );
    }
    lemma_total_ext(ar, n, by_sample, |i: int| ar.whole(0));
    lemma_total_zero::<T, A>(ar, n);

    // So do the steps down.
    let before = |c: int| head.output_b[c];
    let steps = |c: int| ar.times(lr, by_class(c));
    let down = |c: int| ar.negated(steps(c));
    let now = |c: int| after[c];
    assert forall|c: int| 0 <= c < m implies #[trigger] now(c) == ar.plus(before(c), down(c)) by {
        lemma_minus_is_plus(ar, head.output_b[c], steps(c));
    }
    lemma_total_ext(ar, m, now, |c: int| ar.plus(before(c), down(c)));
    lemma_total_plus(ar, m, before, down);
    lemma_total_negated(ar, m, steps);
    lemma_total_times(ar, m, lr, by_class);
    lemma_times_zero(ar, lr);
    lemma_minus_is_plus(ar, total(ar, m, before), ar.whole(0));
    lemma_minus_zero(ar, total(ar, m, before));
}

} // verus!
