use crate::arith::faithful;
use crate::arith::Arith;
use crate::backward::backward;
use crate::backward::backward_chunk;
use crate::chunking::chunk;
use crate::chunking::chunk_start;
use crate::chunking::chunked_backward;
use crate::chunking::chunked_forward;
use crate::chunking::law_chunked_forward_is_forward;
use crate::chunking::lemma_chunk_start;
use crate::layout::lemma_chunk_count;
use crate::residual::forward;
use crate::residual::forward_chunk;
use crate::residual::Net;
use crate::rows::copied;
use crate::rows::lemma_rows_len;
use crate::rows::rows;
use crate::stream::Span;
use crate::stream::Stream;
use vstd::prelude::*;

verus! {

/// A batch on its way through the layers of a weight file, first chunk to
/// last. Whoever runs the pass reads the chunk that `next` asks for and feeds
/// it, until `next` asks for none.
pub struct ForwardPass<T> {
    pub stream: Stream,
    pub net: Net<T>,
    /// What entered the first chunk.
    pub entry: Vec<T>,
    /// What leaves the last chunk fed.
    pub h: Vec<T>,
    /// How many chunks were fed.
    pub done: usize,
    /// Whether checkpoints are kept.
    pub keep: bool,
    /// What entered each chunk fed.
    pub checkpoints: Vec<Vec<T>>,
}

/// A batch on its way back, last chunk to first. Whoever runs the pass reads
/// the chunk that `next` asks for, feeds it, and writes it back, until `next`
/// asks for none.
pub struct BackwardPass<T> {
    pub stream: Stream,
    pub net: Net<T>,
    /// What entered each chunk.
    pub checkpoints: Vec<Vec<T>>,
    /// How the loss changes with what enters the last chunk fed.
    pub grad: Vec<T>,
    /// How many chunks are left.
    pub left: usize,
}

/// The chunk that a pass asks for: chunk `k` if `some`.
pub open spec fn asked_for(stream: Stream, some: bool, k: int) -> Option<Span> {
    if some {
        Some(stream.span_of(k))
    } else {
        None
    }
}

impl<T> ForwardPass<T> {
    /// The parts of the pass fit each other.
    pub open spec fn wf(self) -> bool {
        &&& self.stream.wf()
        &&& self.net.wf()
        &&& self.net.width == self.stream.width
        &&& self.done <= self.stream.chunks()
        &&& self.h@.len() == self.entry@.len()
        &&& self.keep ==> self.checkpoints@.len() == self.done
        &&& forall|m: int|
            0 <= m < self.checkpoints@.len() ==> (#[trigger] self.checkpoints@[m])@.len()
                == self.entry@.len()
    }

    /// The chunks fed so far were the first of `layers`, and `hs` entered the
    /// first.
    pub open spec fn follows<A: Arith<T>>(
        self,
        ar: A,
        layers: Seq<Seq<T>>,
        hs: Seq<Seq<T>>,
    ) -> bool {
        let size = self.stream.chunk_layers as int;
        &&& layers.len() == self.stream.layers
        &&& rows(self.entry@, self.net.w()) == hs
        &&& rows(self.h@, self.net.w()) == chunked_forward(
            ar,
            self.net,
            layers,
            size,
            hs,
            self.done as int,
        )
        &&& self.keep ==> forall|m: int|
            0 <= m < self.done ==> rows((#[trigger] self.checkpoints@[m])@, self.net.w())
                == chunked_forward(ar, self.net, layers, size, hs, m)
    }
}

impl<T: Copy> ForwardPass<T> {
    /// A pass of which no chunk is fed.
    pub fn start(stream: Stream, net: Net<T>, entry: Vec<T>, keep: bool) -> (pass: ForwardPass<T>)
        requires
            stream.wf(),
            net.wf(),
            net.width == stream.width,
        ensures
            pass.wf(),
            pass.stream == stream,
            pass.net == net,
            pass.entry@ == entry@,
            pass.h@ == entry@,
            pass.done == 0,
            pass.keep == keep,
            pass.checkpoints@.len() == 0,
    {
        proof {
            lemma_chunk_count(stream.layers as int, stream.chunk_layers as int);
        }
        let h = copied(&entry);
        ForwardPass { stream, net, entry, h, done: 0, keep, checkpoints: Vec::new() }
    }

    /// The chunk to feed next.
    pub fn next(&self) -> (span: Option<Span>)
        requires
            self.wf(),
        ensures
            span == asked_for(self.stream, self.done < self.stream.chunks(), self.done as int),
            span is Some <==> self.done < self.stream.chunks(),
            span matches Some(s) ==> s == self.stream.span_of(self.done as int),
    {
        if self.done < self.stream.count() {
            Some(self.stream.span(self.done))
        } else {
            None
        }
    }

    /// Runs the batch through the chunk that was asked for.
    pub fn feed<A: Arith<T>>(&mut self, ar: &A, params: &[T])
        requires
            old(self).wf(),
            old(self).done < old(self).stream.chunks(),
            params@.len() == old(self).stream.span_of(old(self).done as int).floats,
        ensures
            final(self).wf(),
            final(self).stream == old(self).stream,
            final(self).net == old(self).net,
            final(self).entry == old(self).entry,
            final(self).keep == old(self).keep,
            final(self).done == old(self).done + 1,
            old(self).keep ==> final(self).checkpoints@.len() == old(self).checkpoints@.len() + 1
                && final(self).checkpoints@.last()@ == old(self).h@
                && final(self).checkpoints@.drop_last() == old(self).checkpoints@,
            !old(self).keep ==> final(self).checkpoints == old(self).checkpoints,
            final(self).h@.len() == old(self).h@.len(),
            faithful::<T, A>(*ar) ==> rows(final(self).h@, old(self).net.w()) == forward(
                *ar,
                old(self).net,
                rows(params@, old(self).stream.size()),
                rows(old(self).h@, old(self).net.w()),
            ),
            forall|layers: Seq<Seq<T>>, hs: Seq<Seq<T>>|
                faithful::<T, A>(*ar) && #[trigger] old(self).follows(*ar, layers, hs) && rows(
                    params@,
                    old(self).stream.size(),
                ) == chunk(
                    layers,
                    old(self).stream.chunk_layers as int,
                    old(self).done as int,
                ) ==> final(self).follows(*ar, layers, hs),
    {
        if self.keep {
            self.checkpoints.push(copied(&self.h));
            proof {
                assert(self.checkpoints@.drop_last() =~= old(self).checkpoints@);
            }
        }
        forward_chunk(ar, &self.net, params, &mut self.h);
        self.done += 1;
        proof {
            let size = self.stream.chunk_layers as int;
            assert forall|layers: Seq<Seq<T>>, hs: Seq<Seq<T>>|
                faithful::<T, A>(*ar) && #[trigger] old(self).follows(*ar, layers, hs) && rows(
                    params@,
                    old(self).stream.size(),
                ) == chunk(layers, size, old(self).done as int) implies self.follows(
                *ar,
                layers,
                hs,
            ) by {
                if self.keep {
                    assert forall|m: int| 0 <= m < self.done implies rows(
                        (#[trigger] self.checkpoints@[m])@,
                        self.net.w(),
                    ) == chunked_forward(*ar, self.net, layers, size, hs, m) by {
                        if m < old(self).done {
                            assert(self.checkpoints@[m] == old(self).checkpoints@[m]);
                        }
                    }
                }
            }
        }
    }

    /// Turns back once all chunks are fed. `grad` is how the loss changes with
    /// what left the last. Also gives back what entered the first.
    pub fn turn(self, grad: Vec<T>) -> (r: (BackwardPass<T>, Vec<T>))
        requires
            self.wf(),
            self.keep,
            self.done == self.stream.chunks(),
            grad@.len() == self.h@.len(),
        ensures
            r.0.wf(),
            r.0.stream == self.stream,
            r.0.net == self.net,
            r.0.checkpoints == self.checkpoints,
            r.0.grad == grad,
            r.0.left == self.done,
            r.1 == self.entry,
    {
        (
            BackwardPass {
                stream: self.stream,
                net: self.net,
                checkpoints: self.checkpoints,
                grad,
                left: self.done,
            },
            self.entry,
        )
    }
}

impl<T> BackwardPass<T> {
    /// The parts of the pass fit each other.
    pub open spec fn wf(self) -> bool {
        &&& self.stream.wf()
        &&& self.net.wf()
        &&& self.net.width == self.stream.width
        &&& self.left <= self.stream.chunks()
        &&& self.checkpoints@.len() == self.stream.chunks()
        &&& forall|m: int|
            0 <= m < self.checkpoints@.len() ==> (#[trigger] self.checkpoints@[m])@.len()
                == self.grad@.len()
    }

    /// Where the chunks that were fed start.
    pub open spec fn start(self) -> int {
        chunk_start(self.stream.layers as int, self.stream.chunk_layers as int, self.left as int)
    }

    /// `layers` were the layers before the pass and `now` are those after the
    /// chunks fed so far, where `hs` entered the first chunk and the loss
    /// changed by `gs` with what left the last.
    pub open spec fn follows<A: Arith<T>>(
        self,
        ar: A,
        layers: Seq<Seq<T>>,
        hs: Seq<Seq<T>>,
        gs: Seq<Seq<T>>,
        lr: T,
        now: Seq<Seq<T>>,
    ) -> bool {
        let size = self.stream.chunk_layers as int;
        &&& layers.len() == self.stream.layers
        &&& now.len() == layers.len()
        &&& now.take(self.start()) == layers.take(self.start())
        &&& forall|m: int|
            0 <= m < self.left ==> rows((#[trigger] self.checkpoints@[m])@, self.net.w())
                == chunked_forward(ar, self.net, layers, size, hs, m)
        &&& chunked_backward(ar, self.net, layers, size, hs, gs, lr, self.left as int) == (
            now.subrange(self.start(), now.len() as int),
            rows(self.grad@, self.net.w()),
        )
    }
}

/// The layers `now` after chunk `k` of them became `trained`.
pub open spec fn with_chunk<T>(now: Seq<Seq<T>>, size: int, k: int, trained: Seq<Seq<T>>) -> Seq<
    Seq<T>,
> {
    now.take(chunk_start(now.len() as int, size, k)) + trained + now.skip(
        chunk_start(now.len() as int, size, k + 1),
    )
}

impl<T: Copy> BackwardPass<T> {
    /// The chunk to feed next.
    pub fn next(&self) -> (span: Option<Span>)
        requires
            self.wf(),
        ensures
            span == asked_for(self.stream, self.left > 0, self.left - 1),
            span is Some <==> self.left > 0,
            span matches Some(s) ==> s == self.stream.span_of(self.left - 1),
    {
        if self.left > 0 {
            Some(self.stream.span(self.left - 1))
        } else {
            None
        }
    }

    /// One step of gradient descent on the chunk that was asked for.
    pub fn feed<A: Arith<T>>(&mut self, ar: &A, params: &mut Vec<T>, lr: T)
        requires
            old(self).wf(),
            0 < old(self).left,
            old(params)@.len() == old(self).stream.span_of(old(self).left - 1).floats,
        ensures
            final(self).wf(),
            final(self).stream == old(self).stream,
            final(self).net == old(self).net,
            final(self).checkpoints == old(self).checkpoints,
            final(self).left == old(self).left - 1,
            final(self).grad@.len() == old(self).grad@.len(),
            final(params)@.len() == old(params)@.len(),
            faithful::<T, A>(*ar) ==> (
                rows(final(params)@, old(self).stream.size()),
                rows(final(self).grad@, old(self).net.w()),
            ) == backward(
                *ar,
                old(self).net,
                rows(old(params)@, old(self).stream.size()),
                rows(old(self).checkpoints@[old(self).left - 1]@, old(self).net.w()),
                rows(old(self).grad@, old(self).net.w()),
                lr,
            ),
            forall|
                layers: Seq<Seq<T>>,
                hs: Seq<Seq<T>>,
                gs: Seq<Seq<T>>,
                now: Seq<Seq<T>>,
            |
                faithful::<T, A>(*ar) && #[trigger] old(self).follows(*ar, layers, hs, gs, lr, now)
                    && rows(old(params)@, old(self).stream.size()) == chunk(
                    now,
                    old(self).stream.chunk_layers as int,
                    old(self).left - 1,
                ) ==> final(self).follows(
                    *ar,
                    layers,
                    hs,
                    gs,
                    lr,
                    with_chunk(
                        now,
                        old(self).stream.chunk_layers as int,
                        old(self).left - 1,
                        rows(final(params)@, old(self).stream.size()),
                    ),
                ),
    {
        let k: usize = self.left - 1;
        self.grad = backward_chunk(
            ar,
            &self.net,
            params,
            self.checkpoints[k].as_slice(),
            self.grad.as_slice(),
            lr,
        );
        self.left = k;
        proof {
            let size = self.stream.chunk_layers as int;
            let n = self.stream.layers as int;
            let trained = rows(params@, self.stream.size());
            self.stream.lemma_span(k as int);
            lemma_chunk_start(n, size, k as int);
            lemma_rows_len(
                params@,
                self.stream.size(),
                self.stream.span_of(k as int).count as int,
            );
            let a = chunk_start(n, size, k as int);
            let b = chunk_start(n, size, k + 1);
            assert forall|
                layers: Seq<Seq<T>>,
                hs: Seq<Seq<T>>,
                gs: Seq<Seq<T>>,
                now: Seq<Seq<T>>,
            |
                faithful::<T, A>(*ar) && #[trigger] old(self).follows(*ar, layers, hs, gs, lr, now)
                    && rows(old(params)@, self.stream.size()) == chunk(
                    now,
                    size,
                    k as int,
                ) implies self.follows(
                *ar,
                layers,
                hs,
                gs,
                lr,
                with_chunk(now, size, k as int, trained),
            ) by {
                let next = with_chunk(now, size, k as int, trained);
                assert(next.take(a) =~= now.take(b).take(a));
                assert(layers.take(b).take(a) =~= layers.take(a));
                assert(chunk(now, size, k as int) =~= now.take(b).subrange(a, b));
                assert(chunk(layers, size, k as int) =~= layers.take(b).subrange(a, b));
                assert(next.subrange(a, n) =~= trained + now.subrange(b, n));
            }
        }
    }
}

/// A pass that has just started is on track, whatever layers follow.
pub proof fn law_start_follows<T, A: Arith<T>>(ar: A, out: ForwardPass<T>, layers: Seq<Seq<T>>)
    requires
        out.wf(),
        out.done == 0,
        out.h@ == out.entry@,
        layers.len() == out.stream.layers,
    ensures
        out.follows(ar, layers, rows(out.entry@, out.net.w())),
{
}

/// A batch that was run through a weight file chunk by chunk went through the
/// whole stack of layers, whatever the size of the chunks.
pub proof fn law_streamed_forward_is_forward<T, A: Arith<T>>(
    ar: A,
    out: ForwardPass<T>,
    layers: Seq<Seq<T>>,
    hs: Seq<Seq<T>>,
)
    requires
        out.wf(),
        out.done == out.stream.chunks(),
        out.follows(ar, layers, hs),
    ensures
        rows(out.h@, out.net.w()) == forward(ar, out.net, layers, hs),
{
    let size = out.stream.chunk_layers as int;
    law_chunked_forward_is_forward(ar, out.net, layers, size, hs, out.done as int);
}

/// Turning back keeps track: what followed on the way out follows on the way
/// back, before any chunk is trained.
pub proof fn law_turn_follows<T, A: Arith<T>>(
    ar: A,
    out: ForwardPass<T>,
    back: BackwardPass<T>,
    layers: Seq<Seq<T>>,
    hs: Seq<Seq<T>>,
    lr: T,
)
    requires
        out.wf(),
        out.keep,
        out.done == out.stream.chunks(),
        out.follows(ar, layers, hs),
        back.stream == out.stream,
        back.net == out.net,
        back.checkpoints == out.checkpoints,
        back.left == out.done,
    ensures
        back.follows(ar, layers, hs, rows(back.grad@, back.net.w()), lr, layers),
{
    let n = layers.len() as int;
    assert(layers.subrange(n, n) =~= Seq::<Seq<T>>::empty());
}

} // verus!
