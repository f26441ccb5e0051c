use crate::arith::Arith;
use crate::backward::backward;
use crate::backward::deltas;
use crate::backward::gradients;
use crate::backward::trained_layer;
use crate::layout::chunk_count;
use crate::layout::chunk_size;
use crate::layout::law_chunks_tile;
use crate::layout::lemma_chunk_count;
use crate::residual::forward;
use crate::residual::step_batch;
use crate::residual::step_sample;
use crate::residual::Net;
use vstd::prelude::*;

verus! {

/// Running a batch through two stacks, one after the other, is running it
/// through both as one stack.
pub proof fn law_forward_splits<T, A: Arith<T>>(
    ar: A,
    net: Net<T>,
    first: Seq<Seq<T>>,
    second: Seq<Seq<T>>,
    hs: Seq<Seq<T>>,
)
    ensures
        forward(ar, net, first + second, hs) == forward(
            ar,
            net,
            second,
            forward(ar, net, first, hs),
        ),
    decreases second.len(),
{
    if second.len() == 0 {
        assert(first + second =~= first);
    } else {
        law_forward_splits(ar, net, first, second.drop_last(), hs);
        assert((first + second).drop_last() =~= first + second.drop_last());
        assert((first + second).last() == second.last());
    }
}

/// Training two stacks, the second first, each from what enters it, is
/// training both as one stack.
pub proof fn law_backward_splits<T, A: Arith<T>>(
    ar: A,
    net: Net<T>,
    first: Seq<Seq<T>>,
    second: Seq<Seq<T>>,
    hs: Seq<Seq<T>>,
    gs: Seq<Seq<T>>,
    lr: T,
)
    ensures
        ({
            let (trained2, g) = backward(ar, net, second, forward(ar, net, first, hs), gs, lr);
            let (trained1, g0) = backward(ar, net, first, hs, g, lr);
            backward(ar, net, first + second, hs, gs, lr) == (trained1 + trained2, g0)
        }),
    decreases second.len(),
{
    let middle = forward(ar, net, first, hs);
    if second.len() == 0 {
        assert(first + second =~= first);
        let (trained1, g0) = backward(ar, net, first, hs, gs, lr);
        assert(trained1 + second =~= trained1);
    } else {
        let both = first + second;
        assert(both.drop_last() =~= first + second.drop_last());
        assert(both.last() == second.last());
        let layer = second.last();
        law_forward_splits(ar, net, first, second.drop_last(), hs);
        let before = forward(ar, net, second.drop_last(), middle);
        let ds = deltas(ar, net, layer, before, gs);
        let in_gs = gradients(ar, net, layer, gs, ds);
        law_backward_splits(ar, net, first, second.drop_last(), hs, in_gs, lr);
        let (rest2, g) = backward(ar, net, second.drop_last(), middle, in_gs, lr);
        let (trained1, g0) = backward(ar, net, first, hs, g, lr);
        let trained = trained_layer(ar, net, layer, before, ds, lr);
        assert((trained1 + rest2).push(trained) =~= trained1 + rest2.push(trained));
    }
}

/// The samples of a batch pass through the layers independently of each
/// other.
pub proof fn law_samples_are_independent<T, A: Arith<T>>(
    ar: A,
    net: Net<T>,
    layers: Seq<Seq<T>>,
    hs: Seq<Seq<T>>,
    i: int,
)
    requires
        0 <= i < hs.len(),
    ensures
        forward(ar, net, layers, hs).len() == hs.len(),
        forward(ar, net, layers, seq![hs[i]]) == seq![forward(ar, net, layers, hs)[i]],
    decreases layers.len(),
{
    if layers.len() > 0 {
        law_samples_are_independent(ar, net, layers.drop_last(), hs, i);
        let before = forward(ar, net, layers.drop_last(), hs);
        assert(step_batch(ar, net, layers.last(), seq![before[i]]) =~= seq![
            step_sample(ar, net, layers.last(), before[i]),
        ]);
    } else {
        assert(seq![hs[i]] =~= seq![forward(ar, net, layers, hs)[i]]);
    }
}

/// Chunk `k` of a stack that is cut into chunks of `size` layers.
pub open spec fn chunk<T>(layers: Seq<Seq<T>>, size: int, k: int) -> Seq<Seq<T>> {
    layers.subrange(k * size, k * size + chunk_size(k, layers.len() as int, size))
}

/// What enters chunk `k` when `hs` enters the first and each chunk is run
/// through on its own.
pub open spec fn chunked_forward<T, A: Arith<T>>(
    ar: A,
    net: Net<T>,
    layers: Seq<Seq<T>>,
    size: int,
    hs: Seq<Seq<T>>,
    k: int,
) -> Seq<Seq<T>>
    decreases k,
{
    if k <= 0 {
        hs
    } else {
        forward(
            ar,
            net,
            chunk(layers, size, k - 1),
            chunked_forward(ar, net, layers, size, hs, k - 1),
        )
    }
}

/// The layers from chunk `k` on after training the chunks from the last down
/// to chunk `k`, each on its own from what enters it, and how the loss changes
/// with what enters chunk `k`.
pub open spec fn chunked_backward<T, A: Arith<T>>(
    ar: A,
    net: Net<T>,
    layers: Seq<Seq<T>>,
    size: int,
    hs: Seq<Seq<T>>,
    gs: Seq<Seq<T>>,
    lr: T,
    k: int,
) -> (Seq<Seq<T>>, Seq<Seq<T>>)
    decreases chunk_count(layers.len() as int, size) - k,
{
    if k >= chunk_count(layers.len() as int, size) {
        (Seq::empty(), gs)
    } else {
        let (done, g) = chunked_backward(ar, net, layers, size, hs, gs, lr, k + 1);
        let (trained, before) = backward(
            ar,
            net,
            chunk(layers, size, k),
            chunked_forward(ar, net, layers, size, hs, k),
            g,
            lr,
        );
        (trained + done, before)
    }
}

/// Where chunk `k` starts; all layers where there is no such chunk.
pub open spec fn chunk_start(layers: int, size: int, k: int) -> int {
    if k < chunk_count(layers, size) {
        k * size
    } else {
        layers
    }
}

/// Chunk `k` lies between its start and the start of the next.
pub proof fn lemma_chunk_start(layers: int, size: int, k: int)
    requires
        0 <= layers,
        0 < size,
        0 <= k < chunk_count(layers, size),
    ensures
        0 <= chunk_start(layers, size, k) < chunk_start(layers, size, k + 1) <= layers,
        chunk_start(layers, size, k) == k * size,
        chunk_start(layers, size, k + 1) == k * size + chunk_size(k, layers, size),
        chunk_start(layers, size, 0) == 0,
{
    law_chunks_tile(layers, size, k);
    lemma_chunk_count(layers, size);
}

/// Running a batch through a stack chunk by chunk is running it through the
/// layers before the chunk reached, whatever the size of the chunks.
pub proof fn law_chunked_forward_is_forward<T, A: Arith<T>>(
    ar: A,
    net: Net<T>,
    layers: Seq<Seq<T>>,
    size: int,
    hs: Seq<Seq<T>>,
    k: int,
)
    requires
        0 < size,
        0 <= k <= chunk_count(layers.len() as int, size),
    ensures
        0 <= chunk_start(layers.len() as int, size, k) <= layers.len(),
        chunked_forward(ar, net, layers, size, hs, k) == forward(
            ar,
            net,
            layers.take(chunk_start(layers.len() as int, size, k)),
            hs,
        ),
        k == chunk_count(layers.len() as int, size) ==> chunked_forward(
            ar,
            net,
            layers,
            size,
            hs,
            k,
        ) == forward(ar, net, layers, hs),
    decreases k,
{
    let n = layers.len() as int;
    lemma_chunk_count(n, size);
    if k > 0 {
        law_chunked_forward_is_forward(ar, net, layers, size, hs, k - 1);
        lemma_chunk_start(n, size, k - 1);
        let a = chunk_start(n, size, k - 1);
        let b = chunk_start(n, size, k);
        law_forward_splits(ar, net, layers.take(a), layers.subrange(a, b), hs);
        assert(layers.take(a) + layers.subrange(a, b) =~= layers.take(b));
    } else {
        assert(layers.take(chunk_start(n, size, 0)) =~= Seq::<Seq<T>>::empty());
    }
    assert(layers.take(n) =~= layers);
}

/// Training a stack chunk by chunk, from the last chunk to chunk `k`, and then
/// the layers before it as one stack, is training the whole stack.
pub proof fn lemma_chunked_backward<T, A: Arith<T>>(
    ar: A,
    net: Net<T>,
    layers: Seq<Seq<T>>,
    size: int,
    hs: Seq<Seq<T>>,
    gs: Seq<Seq<T>>,
    lr: T,
    k: int,
)
    requires
        0 < size,
        0 <= k <= chunk_count(layers.len() as int, size),
    ensures
        ({
            let (done, g) = chunked_backward(ar, net, layers, size, hs, gs, lr, k);
            let start = chunk_start(layers.len() as int, size, k);
            let (rest, before) = backward(ar, net, layers.take(start), hs, g, lr);
            &&& 0 <= start <= layers.len()
            &&& backward(ar, net, layers, hs, gs, lr) == (rest + done, before)
        }),
    decreases chunk_count(layers.len() as int, size) - k,
{
    let n = layers.len() as int;
    let count = chunk_count(n, size);
    lemma_chunk_count(n, size);
    if k == count {
        assert(layers.take(n) =~= layers);
        let (rest, before) = backward(ar, net, layers, hs, gs, lr);
        assert(rest + Seq::<Seq<T>>::empty() =~= rest);
    } else {
        lemma_chunked_backward(ar, net, layers, size, hs, gs, lr, k + 1);
        lemma_chunk_start(n, size, k);
        law_chunked_forward_is_forward(ar, net, layers, size, hs, k);
        let a = chunk_start(n, size, k);
        let b = chunk_start(n, size, k + 1);
        let (done, g) = chunked_backward(ar, net, layers, size, hs, gs, lr, k + 1);
        assert(layers.take(a) + layers.subrange(a, b) =~= layers.take(b));
        law_backward_splits(ar, net, layers.take(a), layers.subrange(a, b), hs, g, lr);
        let (trained, g2) = backward(
            ar,
            net,
            chunk(layers, size, k),
            chunked_forward(ar, net, layers, size, hs, k),
            g,
            lr,
        );
        let (rest, before) = backward(ar, net, layers.take(a), hs, g2, lr);
        assert((rest + trained) + done =~= rest + (trained + done));
    }
}

/// Training a stack chunk by chunk, the last chunk first, is training the
/// whole stack, whatever the size of the chunks.
pub proof fn law_chunked_backward_is_backward<T, A: Arith<T>>(
    ar: A,
    net: Net<T>,
    layers: Seq<Seq<T>>,
    size: int,
    hs: Seq<Seq<T>>,
    gs: Seq<Seq<T>>,
    lr: T,
)
    requires
        0 < size,
    ensures
        chunked_backward(ar, net, layers, size, hs, gs, lr, 0) == backward(
            ar,
            net,
            layers,
            hs,
            gs,
            lr,
        ),
{
    lemma_chunk_count(layers.len() as int, size);
    lemma_chunked_backward(ar, net, layers, size, hs, gs, lr, 0);
    let start = chunk_start(layers.len() as int, size, 0);
    let done = chunked_backward(ar, net, layers, size, hs, gs, lr, 0).0;
    assert(layers.take(start) + done =~= done);
}

} // verus!
