use crate::arith::faithful;
use crate::arith::Arith;
use crate::chunking::law_chunked_backward_is_backward;
use crate::head::Head;
use crate::head::HeadView;
use crate::head::Style;
use crate::layout::lemma_chunk_count;
use crate::passes::eval_output;
use crate::passes::evaluated;
use crate::passes::indices_pick_images;
use crate::passes::indices_pick_labels;
use crate::passes::input_backward_update;
use crate::passes::input_batch;
use crate::passes::input_forward;
use crate::passes::input_step;
use crate::passes::output_loss_backward_update;
use crate::passes::output_step;
use crate::passes::picked_images;
use crate::passes::picked_labels;
use crate::passes::StepStats;
use crate::residual::forward;
use crate::residual::Net;
use crate::rows::rows;
use crate::stream::Stream;
use crate::streaming::law_start_follows;
use crate::streaming::law_streamed_forward_is_forward;
use crate::streaming::law_turn_follows;
use crate::streaming::BackwardPass;
use crate::streaming::ForwardPass;
use crate::train::training_step;
use vstd::prelude::*;

verus! {

/// A training step on a weight file that is on its way back.
pub struct Returning<T> {
    pub back: BackwardPass<T>,
    /// What entered the layers.
    pub entry: Vec<T>,
    pub stats: StepStats<T>,
}

impl<T> Returning<T> {
    /// The step is on track: it began with the head `before` and the layers
    /// `layers`, `hs` entered the layers, the head is `after` by now, and the
    /// layers are `now`.
    pub open spec fn follows<A: Arith<T>>(
        self,
        ar: A,
        style: Style,
        before: HeadView<T>,
        after: HeadView<T>,
        layers: Seq<Seq<T>>,
        hs: Seq<Seq<T>>,
        labels: Seq<int>,
        layer_lr: T,
        head_lr: T,
        now: Seq<Seq<T>>,
    ) -> bool {
        let out = output_step(
            ar,
            style,
            before,
            forward(ar, self.back.net, layers, hs),
            labels,
            head_lr,
        );
        &&& rows(self.entry@, self.back.net.w()) == hs
        &&& self.stats.loss == out.loss
        &&& self.stats.correct == out.correct
        &&& after == out.head
        &&& self.back.follows(ar, layers, hs, out.grads, layer_lr, now)
    }
}

/// Sends the images that `indices` picks into a weight file. `keep` says whether
/// the pass is to turn back.
pub fn begin_pass<T: Copy, A: Arith<T>>(
    ar: &A,
    style: Style,
    head: &Head<T>,
    stream: Stream,
    net: Net<T>,
    images: &[T],
    indices: &[usize],
    keep: bool,
) -> (pass: ForwardPass<T>)
    requires
        head.wf(),
        stream.wf(),
        net.wf(),
        head.width == net.width,
        stream.width == net.width,
        indices_pick_images(images@, indices@),
        indices@.len() * net.width <= usize::MAX,
    ensures
        pass.wf(),
        pass.stream == stream,
        pass.net == net,
        pass.done == 0,
        pass.keep == keep,
        pass.h@.len() == indices@.len() * net.width,
        forall|layers: Seq<Seq<T>>|
            faithful::<T, A>(*ar) && layers.len() == stream.layers ==> #[trigger] pass.follows(
                *ar,
                layers,
                input_batch(*ar, style, head@, picked_images(images@, indices@)),
            ),
{
    let entry = input_forward(ar, style, head, images, indices);
    let pass = ForwardPass::start(stream, net, entry, keep);
    proof {
        assert forall|layers: Seq<Seq<T>>|
            faithful::<T, A>(*ar) && layers.len() == stream.layers implies #[trigger] pass.follows(
            *ar,
            layers,
            input_batch(*ar, style, head@, picked_images(images@, indices@)),
        ) by {
            law_start_follows(*ar, pass, layers);
        }
    }
    pass
}

/// The mean loss of a batch that went through a weight file, and how many of its
/// samples are classified correctly.
pub fn eval_pass<T: Copy, A: Arith<T>>(
    ar: &A,
    style: Style,
    head: &Head<T>,
    pass: &ForwardPass<T>,
    labels: &[u8],
    indices: &[usize],
) -> (stats: StepStats<T>)
    requires
        head.wf(),
        pass.wf(),
        pass.done == pass.stream.chunks(),
        head.width == pass.net.width,
        pass.h@.len() == indices@.len() * head.width,
        indices_pick_labels(labels@, indices@),
    ensures
        stats.correct <= indices@.len(),
        forall|layers: Seq<Seq<T>>, hs: Seq<Seq<T>>|
            faithful::<T, A>(*ar) && #[trigger] pass.follows(*ar, layers, hs) ==> (
                stats.loss,
                stats.correct as int,
            ) == evaluated(
                *ar,
                style,
                head@,
                forward(*ar, pass.net, layers, hs),
                picked_labels(labels@, indices@),
            ),
{
    proof {
        assert forall|layers: Seq<Seq<T>>, hs: Seq<Seq<T>>| #[trigger]
            pass.follows(*ar, layers, hs) implies rows(pass.h@, pass.net.w()) == forward(
            *ar,
            pass.net,
            layers,
            hs,
        ) by {
            law_streamed_forward_is_forward(*ar, *pass, layers, hs);
        }
    }
    eval_output(ar, style, head, pass.h.as_slice(), labels, indices)
}

/// Turns a training step back at the end of the weight file: the loss, and one
/// step of gradient descent on the output part of the head.
pub fn turn_step<T: Copy, A: Arith<T>>(
    ar: &A,
    style: Style,
    head: &mut Head<T>,
    pass: ForwardPass<T>,
    labels: &[u8],
    indices: &[usize],
    head_lr: T,
) -> (r: Returning<T>)
    requires
        old(head).wf(),
        pass.wf(),
        pass.keep,
        pass.done == pass.stream.chunks(),
        old(head).width == pass.net.width,
        pass.h@.len() == indices@.len() * pass.net.width,
        indices_pick_labels(labels@, indices@),
    ensures
        final(head).wf(),
        final(head).width == old(head).width,
        r.back.wf(),
        r.back.stream == pass.stream,
        r.back.net == pass.net,
        r.back.left == pass.stream.chunks(),
        r.back.grad@.len() == indices@.len() * pass.net.width,
        r.entry == pass.entry,
        r.stats.correct <= indices@.len(),
        forall|layers: Seq<Seq<T>>, hs: Seq<Seq<T>>, layer_lr: T|
            faithful::<T, A>(*ar) && pass.follows(*ar, layers, hs) ==> #[trigger] r.follows(
                *ar,
                style,
                old(head)@,
                final(head)@,
                layers,
                hs,
                picked_labels(labels@, indices@),
                layer_lr,
                head_lr,
                layers,
            ),
{
    let (stats, grad) = output_loss_backward_update(
        ar,
        style,
        head,
        pass.h.as_slice(),
        labels,
        indices,
        head_lr,
    );
    let ghost out = pass;
    let (back, entry) = pass.turn(grad);
    let r = Returning { back, entry, stats };
    proof {
        assert forall|layers: Seq<Seq<T>>, hs: Seq<Seq<T>>, layer_lr: T|
            faithful::<T, A>(*ar) && out.follows(*ar, layers, hs) implies #[trigger] r.follows(
            *ar,
            style,
            old(head)@,
            head@,
            layers,
            hs,
            picked_labels(labels@, indices@),
            layer_lr,
            head_lr,
            layers,
        ) by {
            law_streamed_forward_is_forward(*ar, out, layers, hs);
            law_turn_follows(*ar, out, back, layers, hs, layer_lr);
        }
    }
    r
}

/// A training step that worked through a weight file chunk by chunk, there and
/// back, is one training step on the whole network, whatever the size of the
/// chunks: the layers written back, the head and the loss are the same.
pub proof fn law_streamed_step_is_training_step<T, A: Arith<T>>(
    ar: A,
    style: Style,
    step: Returning<T>,
    before: HeadView<T>,
    after: HeadView<T>,
    layers: Seq<Seq<T>>,
    now: Seq<Seq<T>>,
    images: Seq<Seq<T>>,
    labels: Seq<int>,
    layer_lr: T,
    head_lr: T,
)
    requires
        step.back.wf(),
        step.back.left == 0,
        step.follows(
            ar,
            style,
            before,
            after,
            layers,
            input_batch(ar, style, before, images),
            labels,
            layer_lr,
            head_lr,
            now,
        ),
    ensures
        ({
            let net = step.back.net;
            let t = training_step(
                ar,
                style,
                net,
                before,
                layers,
                images,
                labels,
                layer_lr,
                head_lr,
            );
            &&& now == t.layers
            &&& step.stats.loss == t.loss
            &&& step.stats.correct == t.correct
            &&& input_step(
                ar,
                style,
                after,
                images,
                rows(step.entry@, net.w()),
                rows(step.back.grad@, net.w()),
                head_lr,
            ) == t.head
        }),
{
    let net = step.back.net;
    let hs = input_batch(ar, style, before, images);
    let n = layers.len() as int;
    let size = step.back.stream.chunk_layers as int;
    let out = output_step(ar, style, before, forward(ar, net, layers, hs), labels, head_lr);
    lemma_chunk_count(n, size);
    law_chunked_backward_is_backward(ar, net, layers, size, hs, out.grads, layer_lr);
    assert(step.back.start() == 0);
    assert(now.subrange(0, n) =~= now);
}

/// Ends a training step once all chunks are written back: one step of gradient
/// descent on the input part of the head.
pub fn finish_step<T: Copy, A: Arith<T>>(
    ar: &A,
    style: Style,
    head: &mut Head<T>,
    step: Returning<T>,
    images: &[T],
    indices: &[usize],
    head_lr: T,
) -> (stats: StepStats<T>)
    requires
        old(head).wf(),
        step.back.wf(),
        step.back.left == 0,
        old(head).width == step.back.net.width,
        step.entry@.len() == indices@.len() * old(head).width,
        step.back.grad@.len() == indices@.len() * old(head).width,
        indices_pick_images(images@, indices@),
    ensures
        final(head).wf(),
        final(head).width == old(head).width,
        stats == step.stats,
        forall|
            before: HeadView<T>,
            layers: Seq<Seq<T>>,
            labels: Seq<int>,
            layer_lr: T,
            now: Seq<Seq<T>>,
        |
            faithful::<T, A>(*ar) && #[trigger] step.follows(
                *ar,
                style,
                before,
                old(head)@,
                layers,
                input_batch(*ar, style, before, picked_images(images@, indices@)),
                labels,
                layer_lr,
                head_lr,
                now,
            ) ==> ({
                let t = training_step(
                    *ar,
                    style,
                    step.back.net,
                    before,
                    layers,
                    picked_images(images@, indices@),
                    labels,
                    layer_lr,
                    head_lr,
                );
                &&& now == t.layers
                &&& final(head)@ == t.head
                &&& stats.loss == t.loss
                &&& stats.correct == t.correct
            }),
{
    let ghost after = head@;
    let ghost chosen = picked_images(images@, indices@);
    input_backward_update(
        ar,
        style,
        head,
        images,
        indices,
        step.entry.as_slice(),
        step.back.grad.as_slice(),
        head_lr,
    );
    proof {
        assert forall|
            before: HeadView<T>,
            layers: Seq<Seq<T>>,
            labels: Seq<int>,
            layer_lr: T,
            now: Seq<Seq<T>>,
        |
            faithful::<T, A>(*ar) && #[trigger] step.follows(
                *ar,
                style,
                before,
                after,
                layers,
                input_batch(*ar, style, before, chosen),
                labels,
                layer_lr,
                head_lr,
                now,
            ) implies ({
            let t = training_step(
                *ar,
                style,
                step.back.net,
                before,
                layers,
                chosen,
                labels,
                layer_lr,
                head_lr,
            );
            &&& now == t.layers
            &&& head@ == t.head
            &&& step.stats.loss == t.loss
            &&& step.stats.correct == t.correct
        }) by {
            law_streamed_step_is_training_step(
                *ar,
                style,
                step,
                before,
                after,
                layers,
                now,
                chosen,
                labels,
                layer_lr,
                head_lr,
            );
        }
    }
    step.stats
}

} // verus!
