use crate::arith::faithful;
use crate::arith::Arith;
use crate::chunking::chunk_start;
use crate::chunking::lemma_chunk_start;
use crate::head::Head;
use crate::head::HeadView;
use crate::head::Style;
use crate::layout::chunk_count;
use crate::layout::chunk_size;
use crate::layout::law_chunks_tile;
use crate::layout::lemma_chunk_count;
use crate::layout::INPUTS;
use crate::passes::evaluated;
use crate::passes::input_batch;
use crate::passes::picked_images;
use crate::passes::picked_labels;
use crate::passes::StepStats;
use crate::perceptron::mlp_eval_batch;
use crate::perceptron::perceptron_evaluated;
use crate::rows::lemma_rows_len;
use vstd::arithmetic::div_mod::lemma_fundamental_div_mod;
use vstd::prelude::*;

verus! {

/// An evaluation on the first `samples` samples of a data set, `batch` at a
/// time, the last batch perhaps of fewer.
pub struct EvalRun<T> {
    pub samples: usize,
    pub batch: usize,
    /// The first sample of the next batch.
    pub start: usize,
    /// The loss so far, each batch by its number of samples.
    pub total: T,
    /// How many samples so far were classified correctly.
    pub correct: usize,
}

/// The samples of batch `k`.
pub open spec fn batch_indices(samples: int, batch: int, k: int) -> Seq<usize> {
    Seq::new(chunk_size(k, samples, batch) as nat, |i: int| (k * batch + i) as usize)
}

/// The loss and the correct samples of the batches whose mean losses and
/// correct samples are `results`.
pub open spec fn eval_totals<T, A: Arith<T>>(
    ar: A,
    samples: int,
    batch: int,
    results: Seq<(T, int)>,
) -> (T, int)
    decreases results.len(),
{
    if results.len() == 0 {
        (ar.whole(0), 0)
    } else {
        let (total, correct) = eval_totals(ar, samples, batch, results.drop_last());
        let (loss, hits) = results.last();
        let size = chunk_size(results.len() - 1, samples, batch);
        (ar.plus(total, ar.times(loss, ar.whole(size as u64))), correct + hits)
    }
}

impl<T> EvalRun<T> {
    /// The parts of the run fit each other.
    pub open spec fn wf(self) -> bool {
        &&& 0 < self.batch
        &&& self.correct <= self.start <= self.samples
    }

    /// Samples of the next batch.
    pub open spec fn size(self) -> int {
        if self.samples - self.start < self.batch {
            self.samples - self.start
        } else {
            self.batch as int
        }
    }

    /// The batches so far had the mean losses and correct samples `results`.
    pub open spec fn follows<A: Arith<T>>(self, ar: A, results: Seq<(T, int)>) -> bool {
        let k = results.len() as int;
        &&& k <= chunk_count(self.samples as int, self.batch as int)
        &&& self.start == chunk_start(self.samples as int, self.batch as int, k)
        &&& (self.total, self.correct as int) == eval_totals(
            ar,
            self.samples as int,
            self.batch as int,
            results,
        )
    }
}

impl<T: Copy> EvalRun<T> {
    /// A run of which no batch is done.
    pub fn new<A: Arith<T>>(ar: &A, samples: usize, batch: usize) -> (run: EvalRun<T>)
        requires
            0 < batch,
        ensures
            run.wf(),
            run.samples == samples,
            run.batch == batch,
            run.start == 0,
            run.correct == 0,
            faithful::<T, A>(*ar) ==> run.follows(*ar, Seq::empty()),
    {
        proof {
            lemma_chunk_count(samples as int, batch as int);
        }
        EvalRun { samples, batch, start: 0, total: ar.from_u64(0), correct: 0 }
    }

    /// The samples of the next batch, if one is left.
    pub fn next(&self) -> (r: Option<Vec<usize>>)
        requires
            self.wf(),
        ensures
            match r {
                Some(indices) => {
                    &&& self.start < self.samples
                    &&& indices@.len() <= self.batch
                    &&& indices@.len() == self.batch || self.start + indices@.len() == self.samples
                    &&& indices@ == Seq::new(
                        self.size() as nat,
                        |i: int| (self.start + i) as usize,
                    )
                    &&& forall|k: int|
                        0 <= k && self.start == #[trigger] chunk_start(
                            self.samples as int,
                            self.batch as int,
                            k,
                        ) ==> indices@ == batch_indices(
                            self.samples as int,
                            self.batch as int,
                            k,
                        )
                },
                None => self.start == self.samples,
            },
    {
        if self.start >= self.samples {
            return None;
        }
        let left: usize = self.samples - self.start;
        let size: usize = if left < self.batch {
            left
        } else {
            self.batch
        };
        let mut indices: Vec<usize> = Vec::with_capacity(size);
        let mut i: usize = 0;
        while i < size
            invariant
                i <= size,
                size == self.size(),
                self.wf(),
                indices@ == Seq::new(i as nat, |m: int| (self.start + m) as usize),
            decreases size - i,
        {
            indices.push(self.start + i);
            i += 1;
        }
        proof {
            assert forall|k: int|
                0 <= k && self.start == #[trigger] chunk_start(
                    self.samples as int,
                    self.batch as int,
                    k,
                ) implies indices@ == batch_indices(
                self.samples as int,
                self.batch as int,
                k,
            ) by {
                assert(indices@ =~= batch_indices(self.samples as int, self.batch as int, k));
            }
        }
        Some(indices)
    }

    /// Takes note of the mean loss and the correct samples of the next batch.
    pub fn record<A: Arith<T>>(&mut self, ar: &A, stats: &StepStats<T>)
        requires
            old(self).wf(),
            old(self).start < old(self).samples,
            stats.correct <= old(self).size(),
        ensures
            final(self).wf(),
            final(self).samples == old(self).samples,
            final(self).batch == old(self).batch,
            final(self).start == old(self).start + old(self).size(),
            final(self).start == old(self).start + old(self).batch || final(self).start == old(
                self,
            ).samples,
            final(self).correct == old(self).correct + stats.correct,
            faithful::<T, A>(*ar) ==> final(self).total == ar.plus(
                old(self).total,
                ar.times(stats.loss, ar.whole(old(self).size() as u64)),
            ),
            forall|results: Seq<(T, int)>|
                faithful::<T, A>(*ar) && #[trigger] old(self).follows(*ar, results)
                    ==> final(self).follows(
                    *ar,
                    results.push((stats.loss, stats.correct as int)),
                ),
    {
        let left: usize = self.samples - self.start;
        let size: usize = if left < self.batch {
            left
        } else {
            self.batch
        };
        self.total = ar.add(self.total, ar.mul(stats.loss, ar.from_u64(size as u64)));
        self.correct += stats.correct;
        self.start += size;
        proof {
            let n = self.samples as int;
            let b = self.batch as int;
            assert forall|results: Seq<(T, int)>|
                faithful::<T, A>(*ar) && #[trigger] old(self).follows(
                    *ar,
                    results,
                ) implies self.follows(
                *ar,
                results.push((stats.loss, stats.correct as int)),
            ) by {
                let k = results.len() as int;
                let more = results.push((stats.loss, stats.correct as int));
                assert(more.drop_last() =~= results);
                lemma_chunk_start(n, b, k);
            }
        }
    }

    /// The mean loss over all samples, and the share that was classified
    /// correctly.
    pub fn finish<A: Arith<T>>(&self, ar: &A) -> (r: (T, T))
        ensures
            faithful::<T, A>(*ar) ==> r == (
                ar.over(self.total, ar.whole(self.samples as u64)),
                share(*ar, self.correct, self.samples),
            ),
            faithful::<T, A>(*ar) ==> r.1 == ar.over(
                ar.whole(self.correct as u64),
                ar.whole(self.samples as u64),
            ),
    {
        (
            ar.div(self.total, ar.from_u64(self.samples as u64)),
            accuracy(ar, self.correct, self.samples),
        )
    }
}

/// `correct` out of `n`.
pub open spec fn share<T, A: Arith<T>>(ar: A, correct: usize, n: usize) -> T {
    ar.over(ar.whole(correct as u64), ar.whole(n as u64))
}

/// The share of `n` samples that `correct` of them are.
pub fn accuracy<T: Copy, A: Arith<T>>(ar: &A, correct: usize, n: usize) -> (r: T)
    ensures
        faithful::<T, A>(*ar) ==> r == share(*ar, correct, n),
        faithful::<T, A>(*ar) ==> r == ar.over(ar.whole(correct as u64), ar.whole(n as u64)),
{
    ar.div(ar.from_u64(correct as u64), ar.from_u64(n as u64))
}

/// An evaluation adds up its batches one after the other, the loss of each times its
/// number of samples. Batch `k` has the samples from `k * batch` on, `batch` of them or
/// as many as are left. This holds with rounding too.
pub proof fn law_totals_go_batch_by_batch<T, A: Arith<T>>(
    ar: A,
    samples: int,
    batch: int,
    results: Seq<(T, int)>,
    loss: T,
    hits: int,
    i: int,
)
    requires
        0 < batch,
        0 <= samples <= usize::MAX,
        results.len() * batch < samples,
    ensures
        eval_totals(ar, samples, batch, Seq::empty()) == (ar.whole(0), 0int),
        ({
            let k = results.len() as int;
            let left = samples - k * batch;
            let size = if left < batch {
                left
            } else {
                batch
            };
            let (total, correct) = eval_totals(ar, samples, batch, results);
            let indices = batch_indices(samples, batch, k);
            &&& eval_totals(ar, samples, batch, results.push((loss, hits))) == (
                ar.plus(total, ar.times(loss, ar.whole(size as u64))),
                correct + hits,
            )
            &&& indices.len() == size
            &&& 0 <= i < size ==> indices[i] == k * batch + i
        }),
{
    assert(results.push((loss, hits)).drop_last() =~= results);
    assert(results.len() * batch >= 0) by (nonlinear_arith)
        requires
            0 < batch,
            results.len() >= 0,
    ;
}

/// What the evaluation of a perceptron adds up: batch `k` is what the perceptron makes
/// of the samples of that batch, with nothing between the two parts of its head.
pub proof fn law_perceptron_batches<T, A: Arith<T>>(
    ar: A,
    head: HeadView<T>,
    images: Seq<T>,
    labels: Seq<u8>,
    samples: int,
    batch: int,
    n: int,
    k: int,
)
    requires
        0 <= k < n,
    ensures
        mlp_results(ar, head, images, labels, samples, batch, n).len() == n,
        ({
            let indices = batch_indices(samples, batch, k);
            mlp_results(ar, head, images, labels, samples, batch, n)[k] == evaluated(
                ar,
                Style::Mlp,
                head,
                input_batch(ar, Style::Mlp, head, picked_images(images, indices)),
                picked_labels(labels, indices),
            )
        }),
{
}

/// The batches of an evaluation cover its samples: every sample lies in one
/// batch, and in no other.
pub proof fn law_every_sample_once(samples: int, batch: int, i: int)
    requires
        0 < batch,
        0 <= i < samples,
    ensures
        exists|k: int|
            {
                &&& 0 <= k < chunk_count(samples, batch)
                &&& #[trigger] (k * batch) <= i < k * batch + chunk_size(k, samples, batch)
            },
        forall|j: int, k: int|
            {
                &&& 0 <= j < chunk_count(samples, batch)
                &&& 0 <= k < chunk_count(samples, batch)
                &&& #[trigger] (j * batch) <= i < j * batch + chunk_size(j, samples, batch)
                &&& #[trigger] (k * batch) <= i < k * batch + chunk_size(k, samples, batch)
            } ==> j == k,
{
    let q = i / batch;
    lemma_fundamental_div_mod(i, batch);
    lemma_chunk_count(samples, batch);
    let n = chunk_count(samples, batch);
    assert(0 <= q && q * batch <= i < q * batch + batch) by (nonlinear_arith)
        requires
            0 <= i,
            0 < batch,
            q == i / batch,
            i == batch * q + i % batch,
    ;
    assert(q < n) by (nonlinear_arith)
        requires
            q * batch <= i,
            i < samples,
            samples <= n * batch,
            0 < batch,
    ;
    law_chunks_tile(samples, batch, q);
    assert(q * batch <= i < q * batch + chunk_size(q, samples, batch));
    assert forall|j: int, k: int|
        {
            &&& 0 <= j < n
            &&& 0 <= k < n
            &&& #[trigger] (j * batch) <= i < j * batch + chunk_size(j, samples, batch)
            &&& #[trigger] (k * batch) <= i < k * batch + chunk_size(k, samples, batch)
        } implies j == k by {
        law_chunks_tile(samples, batch, j);
        law_chunks_tile(samples, batch, k);
        assert(j == k) by (nonlinear_arith)
            requires
                j * batch <= i < j * batch + batch,
                k * batch <= i < k * batch + batch,
                0 < batch,
        ;
    }
}

/// The mean loss and the correct samples of each of the first `n` batches of an
/// evaluation of a perceptron.
pub open spec fn mlp_results<T, A: Arith<T>>(
    ar: A,
    head: HeadView<T>,
    images: Seq<T>,
    labels: Seq<u8>,
    samples: int,
    batch: int,
    n: int,
) -> Seq<(T, int)> {
    Seq::new(
        n as nat,
        |k: int|
            perceptron_evaluated(
                ar,
                head,
                picked_images(images, batch_indices(samples, batch, k)),
                picked_labels(labels, batch_indices(samples, batch, k)),
            ),
    )
}

/// Evaluates a perceptron on the first `samples` samples of a data set.
pub fn eval_mlp<T: Copy, A: Arith<T>>(
    ar: &A,
    head: &Head<T>,
    images: &[T],
    labels: &[u8],
    samples: usize,
    batch: usize,
) -> (run: EvalRun<T>)
    requires
        head.wf(),
        0 < batch,
        samples <= labels@.len(),
        images@.len() == labels@.len() * INPUTS,
        samples * head.width <= usize::MAX,
    ensures
        run.wf(),
        run.samples == samples,
        run.batch == batch,
        run.start == samples,
        faithful::<T, A>(*ar) ==> run.follows(
            *ar,
            mlp_results(
                *ar,
                head@,
                images@,
                labels@,
                samples as int,
                batch as int,
                chunk_count(samples as int, batch as int),
            ),
        ),
        faithful::<T, A>(*ar) ==> (run.total, run.correct as int) == eval_totals(
            *ar,
            samples as int,
            batch as int,
            mlp_results(
                *ar,
                head@,
                images@,
                labels@,
                samples as int,
                batch as int,
                chunk_count(samples as int, batch as int),
            ),
        ),
{
    let ghost n = samples as int;
    let ghost b = batch as int;
    let ghost mut k: int = 0;
    let mut run: EvalRun<T> = EvalRun::new(ar, samples, batch);
    proof {
        lemma_chunk_count(n, b);
        lemma_rows_len(images@, INPUTS as int, labels@.len() as int);
        assert(mlp_results(*ar, head@, images@, labels@, n, b, 0) =~= Seq::<(T, int)>::empty());
    }
    while run.start < samples
        invariant
            run.wf(),
            run.samples == samples == n,
            run.batch == batch == b,
            head.wf(),
            0 < batch,
            samples <= labels@.len(),
            images@.len() == labels@.len() * INPUTS,
            samples * head.width <= usize::MAX,
            0 <= k <= chunk_count(n, b),
            run.start == chunk_start(n, b, k),
            faithful::<T, A>(*ar) ==> run.follows(
                *ar,
                mlp_results(*ar, head@, images@, labels@, n, b, k),
            ),
        decreases samples - run.start,
    {
        if let Some(indices) = run.next() {
            proof {
                lemma_rows_len(images@, INPUTS as int, labels@.len() as int);
                lemma_chunk_start(n, b, k);
                assert(indices@.len() * head.width <= samples * head.width) by (nonlinear_arith)
                    requires
                        indices@.len() <= samples,
                ;
            }
            let stats = mlp_eval_batch(ar, head, images, labels, indices.as_slice());
            run.record(ar, &stats);
            proof {
                assert(mlp_results(*ar, head@, images@, labels@, n, b, k + 1) =~= mlp_results(
                    *ar,
                    head@,
                    images@,
                    labels@,
                    n,
                    b,
                    k,
                ).push(
                    perceptron_evaluated(
                        *ar,
                        head@,
                        picked_images(images@, batch_indices(n, b, k)),
                        picked_labels(labels@, batch_indices(n, b, k)),
                    ),
                ));
                k = k + 1;
            }
        }
    }
    proof {
        if k < chunk_count(n, b) {
            law_chunks_tile(n, b, k);
        }
    }
    run
}

} // verus!
