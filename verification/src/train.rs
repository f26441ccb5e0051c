use crate::activation::Activation;
use crate::arith::faithful;
use crate::arith::Arith;
use crate::backward::backward;
use crate::backward::backward_layers;
use crate::chunking::chunk;
use crate::chunking::chunk_start;
use crate::chunking::chunked_backward;
use crate::chunking::chunked_forward;
use crate::chunking::law_chunked_backward_is_backward;
use crate::chunking::law_chunked_forward_is_forward;
use crate::chunking::lemma_chunk_start;
use crate::head::Head;
use crate::head::HeadView;
use crate::head::Style;
use crate::initial::dense_net;
use crate::layout::chunk_count;
use crate::layout::chunk_range;
use crate::layout::dense_layer_floats;
use crate::layout::dense_total_floats;
use crate::layout::div_ceil;
use crate::layout::law_chunks_tile;
use crate::layout::layer_floats;
use crate::layout::lemma_chunk_count;
use crate::layout::LayoutError;
use crate::passes::indices_pick_images;
use crate::passes::indices_pick_labels;
use crate::passes::input_backward_update;
use crate::passes::input_batch;
use crate::passes::input_forward;
use crate::passes::input_step;
use crate::passes::output_loss_backward_update;
use crate::passes::output_step;
use crate::passes::picked_images;
use crate::passes::picked_labels;
use crate::passes::StepStats;
use crate::residual::dense_kernel_of;
use crate::residual::forward;
use crate::residual::forward_chunk;
use crate::residual::lemma_matrix_index;
use crate::residual::Net;
use crate::rows::copied;
use crate::rows::lemma_rows_len;
use crate::rows::lemma_rows_subrange;
use crate::rows::rows;
use vstd::prelude::*;
use vstd::slice::slice_subrange;

verus! {

/// What one training step gives.
pub struct Trained<T> {
    pub loss: T,
    pub correct: int,
    pub head: HeadView<T>,
    pub layers: Seq<Seq<T>>,
}

/// One training step: the exact reverse-mode gradient of the loss of a batch
/// through the whole network, and one step of gradient descent on the layers
/// and on the head.
pub open spec fn training_step<T, A: Arith<T>>(
    ar: A,
    style: Style,
    net: Net<T>,
    head: HeadView<T>,
    layers: Seq<Seq<T>>,
    images: Seq<Seq<T>>,
    labels: Seq<int>,
    layer_lr: T,
    head_lr: T,
) -> Trained<T> {
    let hs = input_batch(ar, style, head, images);
    let out = output_step(ar, style, head, forward(ar, net, layers, hs), labels, head_lr);
    let (trained, g) = backward(ar, net, layers, hs, out.grads, layer_lr);
    Trained {
        loss: out.loss,
        correct: out.correct,
        head: input_step(ar, style, out.head, images, hs, g, head_lr),
        layers: trained,
    }
}

/// Why a training step in memory is refused.
#[derive(Clone, Copy, Debug, PartialEq, Eq, Structural)]
pub enum MemoryError {
    Layout(LayoutError),
    /// There are more or fewer weights than the layers take.
    WeightCount { actual: usize, expected: usize },
}

/// The verdict on `actual` weights in memory.
pub open spec fn memory_verdict(actual: int, layers: u64, width: usize) -> Result<(), MemoryError> {
    let expected = layers * layer_floats(width as int);
    if expected > u64::MAX {
        Err(MemoryError::Layout(LayoutError::TotalFloats))
    } else if expected > usize::MAX {
        Err(MemoryError::Layout(LayoutError::MemoryFloats))
    } else if actual != expected {
        Err(MemoryError::WeightCount { actual: actual as usize, expected: expected as usize })
    } else {
        Ok(())
    }
}

/// A training step in its parts: the images enter the layers, run through all of them,
/// and are rated; the loss flows back through the layers as they were before the step;
/// what is reported is what the output part reports. The learning rate of the layers
/// moves the layers, that of the head the head. This holds with rounding too.
pub proof fn law_training_step_in_parts<T, A: Arith<T>>(
    ar: A,
    style: Style,
    net: Net<T>,
    head: HeadView<T>,
    layers: Seq<Seq<T>>,
    images: Seq<Seq<T>>,
    labels: Seq<int>,
    layer_lr: T,
    head_lr: T,
)
    ensures
        ({
            let t = training_step(
                ar,
                style,
                net,
                head,
                layers,
                images,
                labels,
                layer_lr,
                head_lr,
            );
            let hs = input_batch(ar, style, head, images);
            let last = forward(ar, net, layers, hs);
            let out = output_step(ar, style, head, last, labels, head_lr);
            let back = backward(ar, net, layers, hs, out.grads, layer_lr);
            &&& t.loss == out.loss
            &&& t.correct == out.correct
            &&& t.layers == back.0
            &&& t.head.output_w == out.head.output_w
            &&& t.head.output_b == out.head.output_b
            &&& t.head.input_w == input_step(
                ar,
                style,
                head,
                images,
                hs,
                back.1,
                head_lr,
            ).input_w
            &&& t.head.input_b == input_step(
                ar,
                style,
                head,
                images,
                hs,
                back.1,
                head_lr,
            ).input_b
        }),
{
}

/// Weights in memory are accepted if and only if there are as many as the layers take.
pub proof fn law_accepted_weights(actual: int, layers: u64, width: usize)
    requires
        0 <= actual <= usize::MAX,
    ensures
        ({
            let verdict = memory_verdict(actual, layers, width);
            let expected = layers * (width * width + width);
            &&& verdict is Ok <==> actual == expected
            &&& expected > u64::MAX ==> verdict == Err::<(), MemoryError>(
                MemoryError::Layout(LayoutError::TotalFloats),
            )
            &&& usize::MAX < expected <= u64::MAX ==> verdict == Err::<(), MemoryError>(
                MemoryError::Layout(LayoutError::MemoryFloats),
            )
            &&& expected <= usize::MAX && actual != expected ==> verdict == Err::<(), MemoryError>(
                MemoryError::WeightCount { actual: actual as usize, expected: expected as usize },
            )
        }),
{
}

/// One training step on weights in memory, in chunks of `chunk_layers` layers.
/// The result does not depend on the size of the chunks.
pub fn train_step_mem<T: Copy, A: Arith<T>>(
    ar: &A,
    style: Style,
    net: &Net<T>,
    weights: &mut Vec<T>,
    head: &mut Head<T>,
    images: &[T],
    labels: &[u8],
    indices: &[usize],
    layers: u64,
    chunk_layers: usize,
    layer_lr: T,
    head_lr: T,
) -> (r: Result<StepStats<T>, MemoryError>)
    requires
        net.wf(),
        old(head).wf(),
        old(head).width == net.width,
        0 < chunk_layers,
        memory_verdict(old(weights)@.len() as int, layers, net.width) is Ok ==> {
            &&& indices_pick_images(images@, indices@)
            &&& indices_pick_labels(labels@, indices@)
            &&& indices@.len() * net.width <= usize::MAX
        },
    ensures
        final(weights)@.len() == old(weights)@.len(),
        final(head).wf(),
        final(head).width == old(head).width,
        match memory_verdict(old(weights)@.len() as int, layers, net.width) {
            Err(e) => {
                &&& r matches Err(got) && got == e
                &&& *final(weights) == *old(weights)
                &&& *final(head) == *old(head)
            },
            Ok(()) => {
                &&& r matches Ok(stats) && stats.correct <= indices@.len() && (faithful::<T, A>(*ar)
                    ==> ({
                    let t = training_step(
                        *ar,
                        style,
                        *net,
                        old(head)@,
                        rows(old(weights)@, layer_floats(net.w())),
                        picked_images(images@, indices@),
                        picked_labels(labels@, indices@),
                        layer_lr,
                        head_lr,
                    );
                    &&& stats.loss == t.loss
                    &&& stats.correct == t.correct
                    &&& final(head)@ == t.head
                    &&& rows(final(weights)@, layer_floats(net.w())) == t.layers
                }))
            },
        },
{
    let w: usize = net.width;
    let size: usize = dense_layer_floats(w);
    proof {
        lemma_matrix_index(w as int, 0, 0);
    }
    let expected: usize = match dense_total_floats(layers, w) {
        Ok(expected) => expected,
        Err(e) => {
            return Err(MemoryError::Layout(e));
        },
    };
    if weights.len() != expected {
        return Err(MemoryError::WeightCount { actual: weights.len(), expected });
    }
    let total: usize = weights.len() / size;
    let ghost stack = rows(weights@, size as int);
    let ghost cut = chunk_layers as int;
    proof {
        lemma_rows_len(weights@, size as int, layers as int);
        lemma_chunk_count(layers as int, cut);
        assert(chunk_count(layers as int, cut) <= layers) by (nonlinear_arith)
            requires
                (chunk_count(layers as int, cut) - 1) * cut < layers,
                0 < cut,
                0 <= layers,
        ;
    }
    let chunks: usize = div_ceil(layers, chunk_layers as u64) as usize;
    let ghost chosen = picked_images(images@, indices@);
    let ghost picked = picked_labels(labels@, indices@);
    let ghost hs = input_batch(*ar, style, head@, chosen);

    let entry = input_forward(ar, style, head, images, indices);
    let mut h: Vec<T> = copied(&entry);
    let mut checkpoints: Vec<Vec<T>> = Vec::with_capacity(chunks);
    let mut k: usize = 0;
    while k < chunks
        invariant
            k <= chunks,
            chunks == chunk_count(layers as int, cut),
            cut == chunk_layers,
            0 < chunk_layers,
            layers == total == stack.len(),
            stack == rows(weights@, size as int),
            stack.len() * size == expected == weights@.len(),
            w == net.width,
            net.wf(),
            0 < size,
            size == layer_floats(w as int),
            h@.len() == entry@.len(),
            checkpoints@.len() == k,
            forall|m: int| 0 <= m < k ==> (#[trigger] checkpoints@[m])@.len() == entry@.len(),
            faithful::<T, A>(*ar) ==> rows(h@, w as int) == chunked_forward(
                *ar,
                *net,
                stack,
                cut,
                hs,
                k as int,
            ),
            faithful::<T, A>(*ar) ==> forall|m: int|
                0 <= m < k ==> rows((#[trigger] checkpoints@[m])@, w as int) == chunked_forward(
                    *ar,
                    *net,
                    stack,
                    cut,
                    hs,
                    m,
                ),
        decreases chunks - k,
    {
        proof {
            law_chunks_tile(layers as int, cut, k as int);
        }
        let (start_layer, count) = chunk_range(k, layers, chunk_layers);
        let first: usize = start_layer as usize;
        proof {
            lemma_chunk_start(layers as int, cut, k as int);
            assert((first + count) * size <= stack.len() * size) by (nonlinear_arith)
                requires
                    first + count <= stack.len(),
                    0 < size,
            ;
            assert((first + count) * size == first * size + count * size) by (nonlinear_arith);
            assert(0 <= first * size && 0 <= count * size) by (nonlinear_arith)
                requires
                    0 < size,
                    0 <= first,
                    0 <= count,
            ;
            lemma_rows_subrange(weights@, size as int, first as int, first + count);
        }
        checkpoints.push(copied(&h));
        let start: usize = first * size;
        let end: usize = start + count * size;
        forward_chunk(ar, net, slice_subrange(weights.as_slice(), start, end), &mut h);
        k += 1;
    }
    proof {
        law_chunked_forward_is_forward(*ar, *net, stack, cut, hs, chunks as int);
    }
    let (stats, mut grad) = output_loss_backward_update(
        ar,
        style,
        head,
        h.as_slice(),
        labels,
        indices,
        head_lr,
    );
    let ghost gs = rows(grad@, w as int);
    let ghost all = weights@;
    proof {
        assert(stack.subrange(layers as int, layers as int) =~= Seq::<Seq<T>>::empty());
    }
    while k > 0
        invariant
            k <= chunks,
            chunks == chunk_count(layers as int, cut),
            cut == chunk_layers,
            0 < chunk_layers,
            layers == total == stack.len(),
            stack.len() * size == expected == weights@.len(),
            w == net.width,
            net.wf(),
            0 < size,
            size == layer_floats(w as int),
            rows(weights@, size as int).len() == stack.len(),
            grad@.len() == entry@.len(),
            checkpoints@.len() == chunks,
            0 <= chunk_start(layers as int, cut, k as int) <= layers,
            forall|m: int| 0 <= m < chunks ==> (#[trigger] checkpoints@[m])@.len() == entry@.len(),
            forall|m: int|
                0 <= m < chunk_start(layers as int, cut, k as int) ==> rows(
                    weights@,
                    size as int,
                )[m] == stack[m],
            faithful::<T, A>(*ar) ==> forall|m: int|
                0 <= m < chunks ==> rows((#[trigger] checkpoints@[m])@, w as int)
                    == chunked_forward(*ar, *net, stack, cut, hs, m),
            faithful::<T, A>(*ar) ==> chunked_backward(
                *ar,
                *net,
                stack,
                cut,
                hs,
                gs,
                layer_lr,
                k as int,
            ) == (
                rows(weights@, size as int).subrange(
                    chunk_start(layers as int, cut, k as int),
                    layers as int,
                ),
                rows(grad@, w as int),
            ),
        decreases k,
    {
        k -= 1;
        let ghost now = rows(weights@, size as int);
        proof {
            law_chunks_tile(layers as int, cut, k as int);
            lemma_chunk_start(layers as int, cut, k as int);
        }
        let (start_layer, count) = chunk_range(k, layers, chunk_layers);
        let first: usize = start_layer as usize;
        grad = backward_layers(
            ar,
            net,
            weights,
            first,
            count,
            checkpoints[k].as_slice(),
            grad.as_slice(),
            layer_lr,
        );
        proof {
            let after = rows(weights@, size as int);
            let end = chunk_start(layers as int, cut, k + 1);
            assert(now.subrange(first as int, end) =~= chunk(stack, cut, k as int));
            assert(after.subrange(first as int, layers as int) =~= after.subrange(first as int, end)
                + now.subrange(end, layers as int));
        }
    }
    proof {
        lemma_chunk_count(layers as int, cut);
        law_chunked_backward_is_backward(*ar, *net, stack, cut, hs, gs, layer_lr);
        let after = rows(weights@, size as int);
        assert(chunk_start(layers as int, cut, 0) == 0);
        assert(after.subrange(0, layers as int) =~= after);
    }
    input_backward_update(
        ar,
        style,
        head,
        images,
        indices,
        entry.as_slice(),
        grad.as_slice(),
        head_lr,
    );
    Ok(stats)
}

/// One training step of a dense network on weights in memory. `wide` says
/// whether samples may be taken eight at a time.
pub fn dense_train_step_mem<T: Copy, A: Arith<T>>(
    ar: &A,
    weights: &mut Vec<T>,
    head: &mut Head<T>,
    images: &[T],
    labels: &[u8],
    indices: &[usize],
    layers: u64,
    chunk_layers: usize,
    alpha: T,
    activation: Activation,
    wide: bool,
    layer_lr: T,
    head_lr: T,
) -> (r: Result<StepStats<T>, MemoryError>)
    requires
        old(head).wf(),
        layer_floats(old(head).width as int) <= usize::MAX,
        0 < chunk_layers,
        memory_verdict(old(weights)@.len() as int, layers, old(head).width) is Ok ==> {
            &&& indices_pick_images(images@, indices@)
            &&& indices_pick_labels(labels@, indices@)
            &&& indices@.len() * old(head).width <= usize::MAX
        },
    ensures
        final(weights)@.len() == old(weights)@.len(),
        final(head).wf(),
        final(head).width == old(head).width,
        match memory_verdict(old(weights)@.len() as int, layers, old(head).width) {
            Err(e) => {
                &&& r matches Err(got) && got == e
                &&& *final(weights) == *old(weights)
                &&& *final(head) == *old(head)
            },
            Ok(()) => {
                &&& r matches Ok(stats) && stats.correct <= indices@.len() && (faithful::<T, A>(*ar)
                    ==> ({
                    let width = old(head).width;
                    let t = training_step(
                        *ar,
                        Style::Dense,
                        Net {
                            kernel: dense_kernel_of(
                                width,
                                activation,
                                indices@.len() as usize,
                                wide,
                            ),
                            width,
                            alpha,
                            activation,
                        },
                        old(head)@,
                        rows(old(weights)@, layer_floats(width as int)),
                        picked_images(images@, indices@),
                        picked_labels(labels@, indices@),
                        layer_lr,
                        head_lr,
                    );
                    &&& stats.loss == t.loss
                    &&& stats.correct == t.correct
                    &&& final(head)@ == t.head
                    &&& rows(final(weights)@, layer_floats(width as int)) == t.layers
                }))
            },
        },
{
    let net = dense_net(head.width, alpha, activation, indices.len(), wide);
    train_step_mem(
        ar,
        Style::Dense,
        &net,
        weights,
        head,
        images,
        labels,
        indices,
        layers,
        chunk_layers,
        layer_lr,
        head_lr,
    )
}

} // verus!
