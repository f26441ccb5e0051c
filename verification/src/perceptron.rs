use crate::arith::faithful;
use crate::arith::Arith;
use crate::backward::backward;
use crate::head::Head;
use crate::head::HeadView;
use crate::head::Style;
use crate::passes::eval_output;
use crate::passes::evaluated;
use crate::passes::indices_pick_images;
use crate::passes::indices_pick_labels;
use crate::passes::input_backward_update;
use crate::passes::input_batch;
use crate::passes::input_forward;
use crate::passes::input_step;
use crate::passes::output_loss_backward_update;
use crate::passes::output_step;
use crate::passes::picked_images;
use crate::passes::picked_labels;
use crate::passes::StepStats;
use crate::residual::forward;
use crate::residual::Net;
use crate::train::training_step;
use vstd::prelude::*;

verus! {

/// What one training step of a perceptron gives.
pub struct PerceptronStep<T> {
    pub loss: T,
    pub correct: int,
    pub head: HeadView<T>,
}

/// One training step of a perceptron: a head with nothing between its two
/// parts.
pub open spec fn perceptron_step<T, A: Arith<T>>(
    ar: A,
    head: HeadView<T>,
    images: Seq<Seq<T>>,
    labels: Seq<int>,
    lr: T,
) -> PerceptronStep<T> {
    let hs = input_batch(ar, Style::Mlp, head, images);
    let out = output_step(ar, Style::Mlp, head, hs, labels, lr);
    PerceptronStep {
        loss: out.loss,
        correct: out.correct,
        head: input_step(ar, Style::Mlp, out.head, images, hs, out.grads, lr),
    }
}

/// One training step of a perceptron on the samples that `indices` picks.
pub fn mlp_train_step<T: Copy, A: Arith<T>>(
    ar: &A,
    head: &mut Head<T>,
    images: &[T],
    labels: &[u8],
    indices: &[usize],
    lr: T,
) -> (stats: StepStats<T>)
    requires
        old(head).wf(),
        indices_pick_images(images@, indices@),
        indices_pick_labels(labels@, indices@),
        indices@.len() * old(head).width <= usize::MAX,
    ensures
        final(head).wf(),
        final(head).width == old(head).width,
        stats.correct <= indices@.len(),
        faithful::<T, A>(*ar) ==> ({
            let step = perceptron_step(
                *ar,
                old(head)@,
                picked_images(images@, indices@),
                picked_labels(labels@, indices@),
                lr,
            );
            &&& stats.loss == step.loss
            &&& stats.correct == step.correct
            &&& final(head)@ == step.head
        }),
{
    let hidden = input_forward(ar, Style::Mlp, head, images, indices);
    let (stats, grad) = output_loss_backward_update(
        ar,
        Style::Mlp,
        head,
        hidden.as_slice(),
        labels,
        indices,
        lr,
    );
    input_backward_update(
        ar,
        Style::Mlp,
        head,
        images,
        indices,
        hidden.as_slice(),
        grad.as_slice(),
        lr,
    );
    stats
}

/// The mean loss of a perceptron on a batch, and how many of its samples are
/// classified correctly.
pub open spec fn perceptron_evaluated<T, A: Arith<T>>(
    ar: A,
    head: HeadView<T>,
    images: Seq<Seq<T>>,
    labels: Seq<int>,
) -> (T, int) {
    evaluated(ar, Style::Mlp, head, input_batch(ar, Style::Mlp, head, images), labels)
}

/// The mean loss of a perceptron on the samples that `indices` picks, and how
/// many of them are classified correctly.
pub fn mlp_eval_batch<T: Copy, A: Arith<T>>(
    ar: &A,
    head: &Head<T>,
    images: &[T],
    labels: &[u8],
    indices: &[usize],
) -> (stats: StepStats<T>)
    requires
        head.wf(),
        indices_pick_images(images@, indices@),
        indices_pick_labels(labels@, indices@),
        indices@.len() * head.width <= usize::MAX,
    ensures
        stats.correct <= indices@.len(),
        faithful::<T, A>(*ar) ==> (stats.loss, stats.correct as int) == perceptron_evaluated(
            *ar,
            head@,
            picked_images(images@, indices@),
            picked_labels(labels@, indices@),
        ),
{
    let hidden = input_forward(ar, Style::Mlp, head, images, indices);
    eval_output(ar, Style::Mlp, head, hidden.as_slice(), labels, indices)
}

/// A perceptron is a network without layers: whatever stack it is taken for,
/// its training step is the step of that stack with no layers in it.
pub proof fn law_perceptron_has_no_layers<T, A: Arith<T>>(
    ar: A,
    net: Net<T>,
    head: HeadView<T>,
    images: Seq<Seq<T>>,
    labels: Seq<int>,
    layer_lr: T,
    lr: T,
)
    ensures
        ({
            let none = Seq::<Seq<T>>::empty();
            let step = perceptron_step(ar, head, images, labels, lr);
            let t = training_step(ar, Style::Mlp, net, head, none, images, labels, layer_lr, lr);
            &&& t.loss == step.loss
            &&& t.correct == step.correct
            &&& t.head == step.head
            &&& t.layers == none
        }),
{
    let none = Seq::<Seq<T>>::empty();
    let hs = input_batch(ar, Style::Mlp, head, images);
    assert(forward(ar, net, none, hs) == hs);
    let gs = output_step(ar, Style::Mlp, head, hs, labels, lr).grads;
    assert(backward(ar, net, none, hs, gs, layer_lr).1 == gs);
}

} // verus!
