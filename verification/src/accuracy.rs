use crate::arith::Arith;
use crate::chunking::chunk_start;
use crate::chunking::law_samples_are_independent;
use crate::chunking::lemma_chunk_start;
use crate::division::lemma_minus_is_plus;
use crate::division::lemma_over_times;
use crate::division::undoes;
use crate::evaluation::batch_indices;
use crate::evaluation::eval_totals;
use crate::evaluation::mlp_results;
use crate::exact::exact;
use crate::exact::lemma_plus_zero;
use crate::exact::lemma_total_ext;
use crate::exact::lemma_total_split;
use crate::exact::total;
use crate::head::HeadView;
use crate::head::Style;
use crate::kernels::law_forward_agrees;
use crate::kernels::same_but_kernel;
use crate::layout::chunk_count;
use crate::layout::chunk_size;
use crate::layout::lemma_chunk_count;
use crate::layout::INPUTS;
use crate::passes::batch_probabilities;
use crate::passes::correct_count;
use crate::passes::evaluated;
use crate::passes::input_batch;
use crate::passes::input_sample;
use crate::passes::logits;
use crate::passes::picked_images;
use crate::passes::picked_labels;
use crate::passes::total_loss;
use crate::residual::forward;
use crate::residual::Net;
use crate::rows::rows;
use crate::softmax::log_probability;
use crate::softmax::prediction;
use crate::softmax::probabilities;
use crate::softmax::sample_loss;
use vstd::prelude::*;

verus! {

/// A data set as a network sees it, and the network.
pub struct Trial<T> {
    pub style: Style,
    pub net: Net<T>,
    pub head: HeadView<T>,
    pub layers: Seq<Seq<T>>,
    pub images: Seq<T>,
    pub labels: Seq<u8>,
}

impl<T> Trial<T> {
    /// What leaves the layers for sample `i`, run alone.
    pub open spec fn leaving<A: Arith<T>>(self, ar: A, i: int) -> Seq<T> {
        let h = input_sample(
            ar,
            self.style,
            self.head,
            rows(self.images, INPUTS as int)[i],
        );
        forward(ar, self.net, self.layers, seq![h])[0]
    }

    /// The probabilities of the classes for sample `i`.
    pub open spec fn probs<A: Arith<T>>(self, ar: A, i: int) -> Seq<T> {
        probabilities(ar, logits(ar, self.style, self.head, self.leaving(ar, i), self.head.width))
    }

    /// Sample `i` is classified correctly.
    pub open spec fn hits<A: Arith<T>>(self, ar: A, i: int) -> bool {
        prediction(ar, self.probs(ar, i)) == self.labels[i] as int
    }

    /// How many of the first `n` samples are classified correctly.
    pub open spec fn hit_count<A: Arith<T>>(self, ar: A, n: int) -> int
        decreases n,
    {
        if n <= 0 {
            0
        } else {
            self.hit_count(ar, n - 1) + if self.hits(ar, n - 1) {
                1int
            } else {
                0int
            }
        }
    }

    /// The loss of sample `i`.
    pub open spec fn loss<A: Arith<T>>(self, ar: A, i: int) -> T {
        sample_loss(ar, self.probs(ar, i), self.labels[i] as int)
    }

    /// What the samples that `indices` picks leave the layers as, when `net` runs
    /// them as one batch.
    pub open spec fn batch_leaving<A: Arith<T>>(
        self,
        ar: A,
        net: Net<T>,
        indices: Seq<usize>,
    ) -> Seq<Seq<T>> {
        forward(
            ar,
            net,
            self.layers,
            input_batch(ar, self.style, self.head, picked_images(self.images, indices)),
        )
    }

    /// The mean loss and the correct samples of each of the first `n` batches of an
    /// evaluation. A batch of `m` samples is run by `nets(m)`.
    pub open spec fn results<A: Arith<T>>(
        self,
        ar: A,
        nets: spec_fn(int) -> Net<T>,
        samples: int,
        batch: int,
        n: int,
    ) -> Seq<(T, int)> {
        Seq::new(
            n as nat,
            |k: int|
                evaluated(
                    ar,
                    self.style,
                    self.head,
                    self.batch_leaving(
                        ar,
                        nets(chunk_size(k, samples, batch)),
                        batch_indices(samples, batch, k),
                    ),
                    picked_labels(self.labels, batch_indices(samples, batch, k)),
                ),
        )
    }

    /// Batches of all sizes are run as the network is: by the same kernel, or by
    /// another one where nothing is rounded.
    pub open spec fn runs_alike<A: Arith<T>>(self, ar: A, nets: spec_fn(int) -> Net<T>) -> bool {
        forall|m: int|
            #![trigger nets(m)]
            nets(m) == self.net || exact::<T, A>(ar) && same_but_kernel(nets(m), self.net)
    }
}

/// A sample leaves the layers in a batch as it does alone.
proof fn lemma_leaving<T, A: Arith<T>>(
    ar: A,
    trial: Trial<T>,
    net: Net<T>,
    indices: Seq<usize>,
    j: int,
)
    requires
        net == trial.net || exact::<T, A>(ar) && same_but_kernel(net, trial.net),
        0 <= j < indices.len(),
    ensures
        trial.batch_leaving(ar, net, indices).len() == indices.len(),
        trial.batch_leaving(ar, net, indices)[j] == trial.leaving(ar, indices[j] as int),
{
    let hs = input_batch(
        ar,
        trial.style,
        trial.head,
        picked_images(trial.images, indices),
    );
    law_samples_are_independent(ar, net, trial.layers, hs, j);
    if net != trial.net {
        law_forward_agrees(ar, net, trial.net, trial.layers, seq![hs[j]]);
    }
    let alone = seq![forward(ar, net, trial.layers, hs)[j]];
    assert(alone[0] == forward(ar, net, trial.layers, hs)[j]);
}

/// The correct samples among the first `m` of a batch.
proof fn lemma_batch_hits<T, A: Arith<T>>(
    ar: A,
    trial: Trial<T>,
    net: Net<T>,
    start: int,
    indices: Seq<usize>,
    m: int,
)
    requires
        net == trial.net || exact::<T, A>(ar) && same_but_kernel(net, trial.net),
        0 <= start,
        0 <= m <= indices.len(),
        forall|j: int| 0 <= j < indices.len() ==> #[trigger] indices[j] == start + j,
    ensures
        correct_count(
            ar,
            batch_probabilities(
                ar,
                trial.style,
                trial.head,
                trial.batch_leaving(ar, net, indices),
            ),
            picked_labels(trial.labels, indices),
            m,
        ) == trial.hit_count(ar, start + m) - trial.hit_count(ar, start),
    decreases m,
{
    if m > 0 {
        lemma_batch_hits(ar, trial, net, start, indices, m - 1);
        lemma_leaving(ar, trial, net, indices, m - 1);
        assert(indices[m - 1] == start + (m - 1));
    }
}

/// The first `k` batches of an evaluation count the correct samples among theirs.
proof fn lemma_total_hits<T, A: Arith<T>>(
    ar: A,
    trial: Trial<T>,
    nets: spec_fn(int) -> Net<T>,
    samples: int,
    batch: int,
    k: int,
)
    requires
        trial.runs_alike(ar, nets),
        0 < batch,
        0 <= samples <= usize::MAX,
        0 <= k <= chunk_count(samples, batch),
    ensures
        eval_totals(ar, samples, batch, trial.results(ar, nets, samples, batch, k)).1
            == trial.hit_count(ar, chunk_start(samples, batch, k)),
    decreases k,
{
    lemma_chunk_count(samples, batch);
    if k > 0 {
        lemma_total_hits(ar, trial, nets, samples, batch, k - 1);
        lemma_chunk_start(samples, batch, k - 1);
        let results = trial.results(ar, nets, samples, batch, k);
        assert(results.drop_last() =~= trial.results(ar, nets, samples, batch, k - 1));
        let indices = batch_indices(samples, batch, k - 1);
        let net = nets(chunk_size(k - 1, samples, batch));
        let m = indices.len() as int;
        lemma_leaving(ar, trial, net, indices, 0);
        lemma_batch_hits(ar, trial, net, (k - 1) * batch, indices, m);
    }
}

/// How many samples an evaluation finds to be classified correctly does not depend
/// on the size of its batches: they are those that are, each taken alone. This
/// holds with rounding too, as long as one kernel runs them all.
pub proof fn law_accuracy_ignores_the_batch_size<T, A: Arith<T>>(
    ar: A,
    trial: Trial<T>,
    nets: spec_fn(int) -> Net<T>,
    samples: int,
    batch: int,
)
    requires
        trial.runs_alike(ar, nets),
        0 < batch,
        0 <= samples <= usize::MAX,
    ensures
        eval_totals(
            ar,
            samples,
            batch,
            trial.results(ar, nets, samples, batch, chunk_count(samples, batch)),
        ).1 == trial.hit_count(ar, samples),
{
    lemma_chunk_count(samples, batch);
    lemma_total_hits(ar, trial, nets, samples, batch, chunk_count(samples, batch));
}

/// Without rounding, the loss of the first `m` samples is the sum of their losses.
proof fn lemma_total_loss<T, A: Arith<T>>(
    ar: A,
    style: Style,
    probs: Seq<Seq<T>>,
    labels: Seq<int>,
    m: int,
)
    requires
        exact::<T, A>(ar),
        undoes::<T, A>(ar),
        0 <= m,
    ensures
        total_loss(ar, style, probs, labels, m) == total(
            ar,
            m,
            |i: int| sample_loss(ar, probs[i], labels[i]),
        ),
    decreases m,
{
    if m > 0 {
        lemma_total_loss(ar, style, probs, labels, m - 1);
        let before = total_loss(ar, style, probs, labels, m - 1);
        lemma_plus_zero(ar, before);
        if 0 <= labels[m - 1] < probs[m - 1].len() {
            lemma_minus_is_plus(
                ar,
                before,
                log_probability(ar, probs[m - 1][labels[m - 1]]),
            );
        }
    }
}

/// The first `k` batches of an evaluation add up the losses of their samples.
proof fn lemma_losses_add_up<T, A: Arith<T>>(
    ar: A,
    trial: Trial<T>,
    nets: spec_fn(int) -> Net<T>,
    samples: int,
    batch: int,
    k: int,
)
    requires
        exact::<T, A>(ar),
        undoes::<T, A>(ar),
        trial.runs_alike(ar, nets),
        0 < batch,
        0 <= samples <= usize::MAX,
        forall|m: int|
            0 < m <= samples && m <= batch ==> #[trigger] ar.whole(m as u64) != ar.whole(0),
        0 <= k <= chunk_count(samples, batch),
    ensures
        eval_totals(ar, samples, batch, trial.results(ar, nets, samples, batch, k)).0 == total(
            ar,
            chunk_start(samples, batch, k),
            |i: int| trial.loss(ar, i),
        ),
    decreases k,
{
    let losses = |i: int| trial.loss(ar, i);
    lemma_chunk_count(samples, batch);
    if k > 0 {
        lemma_losses_add_up(ar, trial, nets, samples, batch, k - 1);
        lemma_chunk_start(samples, batch, k - 1);
        let results = trial.results(ar, nets, samples, batch, k);
        assert(results.drop_last() =~= trial.results(ar, nets, samples, batch, k - 1));
        let start = (k - 1) * batch;
        let indices = batch_indices(samples, batch, k - 1);
        let net = nets(chunk_size(k - 1, samples, batch));
        let m = indices.len() as int;
        let labels = picked_labels(trial.labels, indices);
        let hs = trial.batch_leaving(ar, net, indices);
        let probs = batch_probabilities(ar, trial.style, trial.head, hs);
        lemma_leaving(ar, trial, net, indices, 0);
        lemma_total_loss(ar, trial.style, probs, labels, m);
        let own = |j: int| sample_loss(ar, probs[j], labels[j]);
        let shifted = |j: int| losses(start + j);
        assert forall|j: int| 0 <= j < m implies #[trigger] own(j) == shifted(j) by {
            lemma_leaving(ar, trial, net, indices, j);
            assert(indices[j] == start + j);
        }
        lemma_total_ext(ar, m, own, shifted);
        lemma_total_split(ar, start, m, losses);
        assert(ar.whole(m as u64) != ar.whole(0));
        lemma_over_times(ar, total(ar, m, own), ar.whole(m as u64));
    }
}

/// Without rounding, the loss of an evaluation does not depend on the size of its
/// batches: it is the sum of the losses of the samples.
pub proof fn law_loss_ignores_the_batch_size<T, A: Arith<T>>(
    ar: A,
    trial: Trial<T>,
    nets: spec_fn(int) -> Net<T>,
    samples: int,
    batch: int,
)
    requires
        exact::<T, A>(ar),
        undoes::<T, A>(ar),
        trial.runs_alike(ar, nets),
        0 < batch,
        0 <= samples <= usize::MAX,
        forall|m: int|
            0 < m <= samples && m <= batch ==> #[trigger] ar.whole(m as u64) != ar.whole(0),
    ensures
        eval_totals(
            ar,
            samples,
            batch,
            trial.results(ar, nets, samples, batch, chunk_count(samples, batch)),
        ).0 == total(ar, samples, |i: int| trial.loss(ar, i)),
{
    lemma_chunk_count(samples, batch);
    lemma_losses_add_up(ar, trial, nets, samples, batch, chunk_count(samples, batch));
}

/// The evaluation of a perceptron is that of a network without layers.
pub proof fn law_perceptron_results<T, A: Arith<T>>(
    ar: A,
    trial: Trial<T>,
    nets: spec_fn(int) -> Net<T>,
    samples: int,
    batch: int,
    n: int,
)
    requires
        trial.style == Style::Mlp,
        trial.layers.len() == 0,
    ensures
        mlp_results(ar, trial.head, trial.images, trial.labels, samples, batch, n)
            == trial.results(ar, nets, samples, batch, n),
{
    assert(mlp_results(ar, trial.head, trial.images, trial.labels, samples, batch, n)
        =~= trial.results(ar, nets, samples, batch, n));
}

} // verus!
