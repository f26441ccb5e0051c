use crate::arith::Arith;
use crate::division::lemma_minus_is_plus;
use crate::division::lemma_negated_plus_self;
use crate::division::lemma_plus_cancel;
use crate::division::undoes;
use crate::exact::exact;
use crate::exact::lemma_plus_comm;
use crate::exact::lemma_summed_where;
use crate::exact::lemma_times_comm;
use crate::exact::lemma_times_zero;
use crate::exact::lemma_total_exchanged;
use crate::exact::summed_where;
use crate::exact::total;
use crate::head::HeadView;
use crate::head::Style;
use crate::passes::batch_probabilities;
use crate::passes::correct_count;
use crate::passes::evaluated;
use crate::passes::input_batch;
use crate::passes::input_sample;
use crate::passes::input_sums;
use crate::passes::lemma_input_sums_len;
use crate::passes::lemma_logits_len;
use crate::passes::logits;
use crate::passes::output_step;
use crate::passes::picked_images;
use crate::passes::picked_labels;
use crate::passes::total_loss;
use crate::rows::lemma_row_index;
use crate::skipping::one_zero;
use crate::softmax::exponentials;
use crate::softmax::largest;
use crate::softmax::log_probability;
use crate::softmax::logit_gradients;
use crate::softmax::most_probable;
use crate::softmax::prediction;
use crate::softmax::probabilities;
use crate::softmax::running_sum;
use crate::softmax::sample_loss;
use vstd::prelude::*;

verus! {

/// A batch takes the images and the labels that its indices name: pixel `p` of image
/// `i` is the pixel at position `784 * indices[i] + p` of the data, and label `i` the
/// label at position `indices[i]`.
pub proof fn law_batches_take_what_is_named<T>(
    images: Seq<T>,
    labels: Seq<u8>,
    indices: Seq<usize>,
    i: int,
    p: int,
)
    requires
        0 <= i < indices.len(),
        784 * (indices[i] + 1) <= images.len(),
        indices[i] < labels.len(),
        0 <= p < 784,
    ensures
        picked_images(images, indices).len() == indices.len(),
        picked_images(images, indices)[i].len() == 784,
        picked_images(images, indices)[i][p] == images[784 * indices[i] + p],
        picked_labels(labels, indices).len() == indices.len(),
        picked_labels(labels, indices)[i] == labels[indices[i] as int],
{
    lemma_row_index(images, 784, indices[i] + 1, indices[i] as int, p);
}

proof fn lemma_input_sums_take<T, A: Arith<T>>(
    ar: A,
    style: Style,
    head: HeadView<T>,
    image: Seq<T>,
    k: int,
    j: int,
)
    requires
        0 <= j < head.input_b.len(),
    ensures
        input_sums(ar, style, head, image, k)[j] == summed_where(
            ar,
            head.input_b[j],
            k,
            |m: int| style == Style::Narrow || !ar.is_same(image[m], ar.whole(0)),
            |m: int| ar.times(image[m], head.input_w[m][j]),
        ),
    decreases k,
{
    if k > 0 {
        lemma_input_sums_take(ar, style, head, image, k - 1, j);
        lemma_input_sums_len(ar, style, head, image, k - 1);
    }
}

/// What enters the layers, for every unit of a head of any width: the bias of the unit
/// and all 784 pixels, each times its weight in the unit, and of that sum the positive
/// part for a perceptron and tanh for the other networks. Only the narrow network takes
/// black pixels too. This holds with rounding too.
pub proof fn law_every_unit_reads_the_image<T, A: Arith<T>>(
    ar: A,
    style: Style,
    head: HeadView<T>,
    images: Seq<Seq<T>>,
    i: int,
    j: int,
)
    requires
        0 <= i < images.len(),
        0 <= j < head.input_b.len(),
    ensures
        input_batch(ar, style, head, images).len() == images.len(),
        input_batch(ar, style, head, images)[i] == input_sample(ar, style, head, images[i]),
        input_sample(ar, style, head, images[i]).len() == head.input_b.len(),
        ({
            let image = images[i];
            let sum = summed_where(
                ar,
                head.input_b[j],
                784,
                |k: int| style == Style::Narrow || !ar.is_same(image[k], ar.whole(0)),
                |k: int| ar.times(image[k], head.input_w[k][j]),
            );
            input_batch(ar, style, head, images)[i][j] == if style == Style::Mlp {
                ar.larger(sum, ar.whole(0))
            } else {
                ar.tanh_of(sum)
            }
        }),
{
    lemma_input_sums_take(ar, style, head, images[i], 784, j);
    lemma_input_sums_len(ar, style, head, images[i], 784);
}

/// Without rounding, a unit reads the bias plus the sum of all 784 pixels, each times
/// its weight, whatever the style: a perceptron takes the positive part of it, the other
/// networks tanh.
pub proof fn law_unit_formula<T, A: Arith<T>>(
    ar: A,
    style: Style,
    head: HeadView<T>,
    image: Seq<T>,
    j: int,
)
    requires
        exact::<T, A>(ar),
        one_zero::<T, A>(ar),
        0 <= j < head.input_b.len(),
    ensures
        ({
            let sum = ar.plus(
                head.input_b[j],
                total(ar, 784, |k: int| ar.times(image[k], head.input_w[k][j])),
            );
            input_sample(ar, style, head, image)[j] == if style == Style::Mlp {
                ar.larger(sum, ar.whole(0))
            } else {
                ar.tanh_of(sum)
            }
        }),
{
    let keep = |k: int| style == Style::Narrow || !ar.is_same(image[k], ar.whole(0));
    let f = |k: int| ar.times(image[k], head.input_w[k][j]);
    assert forall|k: int| 0 <= k < 784 && !#[trigger] keep(k) implies f(k) == ar.whole(0) by {
        lemma_times_comm(ar, image[k], head.input_w[k][j]);
        lemma_times_zero(ar, head.input_w[k][j]);
    }
    lemma_summed_where(ar, head.input_b[j], 784, keep, f);
    law_every_unit_reads_the_image(ar, style, head, seq![image], 0, j);
    assert(seq![image][0] == image);
}

proof fn lemma_logits_take<T, A: Arith<T>>(
    ar: A,
    style: Style,
    head: HeadView<T>,
    h: Seq<T>,
    k: int,
    c: int,
)
    requires
        0 <= c < head.output_b.len(),
    ensures
        logits(ar, style, head, h, k)[c] == summed_where(
            ar,
            head.output_b[c],
            k,
            |m: int| style != Style::Mlp || !ar.is_same(h[m], ar.whole(0)),
            |m: int| ar.times(h[m], head.output_w[m][c]),
        ),
    decreases k,
{
    if k > 0 {
        lemma_logits_take(ar, style, head, h, k - 1, c);
        lemma_logits_len(ar, style, head, h, k - 1);
    }
}

/// The logit of every class: its bias and all values that leave the layers, each times
/// its weight in the class. Only a perceptron leaves out idle units. This holds with
/// rounding too.
pub proof fn law_every_logit_weighs_all_values<T, A: Arith<T>>(
    ar: A,
    style: Style,
    head: HeadView<T>,
    h: Seq<T>,
    c: int,
)
    requires
        0 <= c < head.output_b.len(),
    ensures
        logits(ar, style, head, h, head.width).len() == head.output_b.len(),
        logits(ar, style, head, h, head.width)[c] == summed_where(
            ar,
            head.output_b[c],
            head.width,
            |k: int| style != Style::Mlp || !ar.is_same(h[k], ar.whole(0)),
            |k: int| ar.times(h[k], head.output_w[k][c]),
        ),
{
    lemma_logits_take(ar, style, head, h, head.width, c);
    lemma_logits_len(ar, style, head, h, head.width);
}

/// Without rounding, the logit of a class is its bias plus the sum of all values that
/// leave the layers, each times its weight, whatever the style.
pub proof fn law_logit_formula<T, A: Arith<T>>(
    ar: A,
    style: Style,
    head: HeadView<T>,
    h: Seq<T>,
    c: int,
)
    requires
        exact::<T, A>(ar),
        one_zero::<T, A>(ar),
        0 <= c < head.output_b.len(),
    ensures
        logits(ar, style, head, h, head.width)[c] == ar.plus(
            head.output_b[c],
            total(ar, head.width, |k: int| ar.times(h[k], head.output_w[k][c])),
        ),
{
    let keep = |k: int| style != Style::Mlp || !ar.is_same(h[k], ar.whole(0));
    let f = |k: int| ar.times(h[k], head.output_w[k][c]);
    assert forall|k: int|
        0 <= k < head.width && !#[trigger] keep(k) implies f(k) == ar.whole(0) by {
        lemma_times_comm(ar, h[k], head.output_w[k][c]);
        lemma_times_zero(ar, head.output_w[k][c]);
    }
    lemma_summed_where(ar, head.output_b[c], head.width, keep, f);
    law_every_logit_weighs_all_values(ar, style, head, h, c);
}

/// The units of a head are alike: in a head in which two units have changed places,
/// with their input weights, their biases and their output weights, the two values that
/// enter the layers change places, with rounding too, and without rounding all logits of
/// the head stay what they were.
pub proof fn law_units_are_alike<T, A: Arith<T>>(
    ar: A,
    style: Style,
    head: HeadView<T>,
    other: HeadView<T>,
    image: Seq<T>,
    a: int,
    b: int,
)
    requires
        head.input_b.len() == head.width,
        head.output_w.len() == head.width,
        0 <= a < head.width,
        0 <= b < head.width,
        a != b,
        other.width == head.width,
        forall|k: int|
            0 <= k < 784 ==> (#[trigger] head.input_w[k]).len() == head.width && other.input_w[k]
                == head.input_w[k].update(a, head.input_w[k][b]).update(b, head.input_w[k][a]),
        other.input_b == head.input_b.update(a, head.input_b[b]).update(b, head.input_b[a]),
        other.output_w == head.output_w.update(a, head.output_w[b]).update(b, head.output_w[a]),
        other.output_b == head.output_b,
    ensures
        ({
            let h = input_sample(ar, style, head, image);
            let moved = input_sample(ar, style, other, image);
            &&& moved == h.update(a, h[b]).update(b, h[a])
            &&& exact::<T, A>(ar) && one_zero::<T, A>(ar) ==> logits(
                ar,
                style,
                other,
                moved,
                other.width,
            ) == logits(ar, style, head, h, head.width)
        }),
{
    let h = input_sample(ar, style, head, image);
    let moved = input_sample(ar, style, other, image);
    let at = |j: int|
        if j == a {
            b
        } else if j == b {
            a
        } else {
            j
        };
    lemma_input_sums_len(ar, style, head, image, 784);
    lemma_input_sums_len(ar, style, other, image, 784);
    assert forall|j: int| 0 <= j < head.width implies #[trigger] moved[j] == h[at(j)] by {
        lemma_input_sums_take(ar, style, head, image, 784, at(j));
        lemma_input_sums_take(ar, style, other, image, 784, j);
        let keep = |m: int| style == Style::Narrow || !ar.is_same(image[m], ar.whole(0));
        let f = |m: int| ar.times(image[m], other.input_w[m][j]);
        let g = |m: int| ar.times(image[m], head.input_w[m][at(j)]);
        assert forall|m: int| 0 <= m < 784 implies #[trigger] f(m) == g(m) by {
            assert(head.input_w[m].len() == head.width);
        }
        lemma_summed_where_ext(ar, other.input_b[j], 784, keep, f, g);
    }
    assert(moved =~= h.update(a, h[b]).update(b, h[a]));
    if exact::<T, A>(ar) && one_zero::<T, A>(ar) {
        lemma_logits_len(ar, style, head, h, head.width);
        lemma_logits_len(ar, style, other, moved, head.width);
        assert forall|c: int| 0 <= c < head.output_b.len() implies #[trigger] logits(
            ar,
            style,
            other,
            moved,
            other.width,
        )[c] == logits(ar, style, head, h, head.width)[c] by {
            law_logit_formula(ar, style, head, h, c);
            law_logit_formula(ar, style, other, moved, c);
            let f = |k: int| ar.times(h[k], head.output_w[k][c]);
            let g = |k: int| ar.times(moved[k], other.output_w[k][c]);
            lemma_total_exchanged(ar, head.width, a, b, f, g);
        }
        assert(logits(ar, style, other, moved, other.width) =~= logits(
            ar,
            style,
            head,
            h,
            head.width,
        ));
    }
}

/// A sum with terms left out depends on its terms alone.
proof fn lemma_summed_where_ext<T, A: Arith<T>>(
    ar: A,
    start: T,
    n: int,
    keep: spec_fn(int) -> bool,
    f: spec_fn(int) -> T,
    g: spec_fn(int) -> T,
)
    requires
        forall|i: int| 0 <= i < n ==> #[trigger] f(i) == g(i),
    ensures
        summed_where(ar, start, n, keep, f) == summed_where(ar, start, n, keep, g),
    decreases n,
{
    if n > 0 {
        lemma_summed_where_ext(ar, start, n - 1, keep, f, g);
        assert(f(n - 1) == g(n - 1));
    }
}

proof fn lemma_running_sum_is_total<T, A: Arith<T>>(
    ar: A,
    s: Seq<T>,
    k: int,
    f: spec_fn(int) -> T,
)
    requires
        forall|i: int| 0 <= i < k ==> #[trigger] f(i) == s[i],
    ensures
        running_sum(ar, s, k) == total(ar, k, f),
    decreases k,
{
    if k > 0 {
        lemma_running_sum_is_total(ar, s, k - 1, f);
        assert(f(k - 1) == s[k - 1]);
    }
}

/// The probability of every class: the exponential of the distance of its logit from
/// the largest one, over the sum of these exponentials of all classes. The largest is
/// taken value by value. This holds with rounding too.
pub proof fn law_probabilities_formula<T, A: Arith<T>>(ar: A, z: Seq<T>, c: int, k: int)
    requires
        0 <= c < z.len(),
        0 <= k,
    ensures
        largest(ar, z, 0) == ar.lowest(),
        largest(ar, z, k + 1) == ar.larger(largest(ar, z, k), z[k]),
        probabilities(ar, z).len() == z.len(),
        ({
            let top = largest(ar, z, z.len() as int);
            probabilities(ar, z)[c] == ar.over(
                ar.exp_of(ar.minus(z[c], top)),
                total(ar, z.len() as int, |d: int| ar.exp_of(ar.minus(z[d], top))),
            )
        }),
{
    let top = largest(ar, z, z.len() as int);
    let e = exponentials(ar, z);
    lemma_running_sum_is_total(
        ar,
        e,
        e.len() as int,
        |d: int| ar.exp_of(ar.minus(z[d], top)),
    );
}

/// The prediction goes through the classes in order and takes each one that is more
/// probable than what it holds, from class zero at minus one on.
pub proof fn law_prediction_goes_class_by_class<T, A: Arith<T>>(ar: A, probs: Seq<T>, k: int)
    requires
        0 <= k,
    ensures
        prediction(ar, probs) == most_probable(ar, probs, probs.len() as int).0,
        most_probable(ar, probs, 0) == (0int, ar.negated(ar.whole(1))),
        ({
            let (class, prob) = most_probable(ar, probs, k);
            most_probable(ar, probs, k + 1) == if ar.is_above(probs[k], prob) {
                (k, probs[k])
            } else {
                (class, prob)
            }
        }),
{
}

/// The loss of a sample is minus the logarithm of the probability of its label, for
/// every probability: only one that is not the larger of itself and the least
/// probability is replaced, by that one. The gradient of the loss by a logit is the
/// probability of its class, less one for the label, times the scale. This holds with
/// rounding too.
pub proof fn law_loss_formula<T, A: Arith<T>>(
    ar: A,
    probs: Seq<T>,
    label: int,
    scale: T,
    c: int,
)
    requires
        0 <= label < probs.len(),
        0 <= c < probs.len(),
    ensures
        sample_loss(ar, probs, label) == ar.negated(
            ar.ln_of(ar.larger(probs[label], ar.least())),
        ),
        log_probability(ar, probs[label]) == ar.ln_of(ar.larger(probs[label], ar.least())),
        ar.larger(probs[label], ar.least()) == probs[label] ==> sample_loss(ar, probs, label)
            == ar.negated(ar.ln_of(probs[label])),
        logit_gradients(ar, probs, label, scale).len() == probs.len(),
        logit_gradients(ar, probs, label, scale)[c] == ar.times(
            if c == label {
                ar.minus(probs[c], ar.whole(1))
            } else {
                probs[c]
            },
            scale,
        ),
{
}

/// A label that is no class costs nothing, and the gradient of each logit is the
/// probability of its class times the scale.
pub proof fn law_no_class_no_loss<T, A: Arith<T>>(
    ar: A,
    probs: Seq<T>,
    label: int,
    scale: T,
    c: int,
)
    requires
        !(0 <= label < probs.len()),
        0 <= c < probs.len(),
    ensures
        sample_loss(ar, probs, label) == ar.whole(0),
        logit_gradients(ar, probs, label, scale).len() == probs.len(),
        logit_gradients(ar, probs, label, scale)[c] == ar.times(probs[c], scale),
{
}

/// The loss tells the probability of the label: without rounding, and where the
/// exponential undoes the logarithm of that probability, the exponential of minus the
/// loss is the probability.
pub proof fn law_loss_tells_the_probability<T, A: Arith<T>>(ar: A, probs: Seq<T>, label: int)
    requires
        exact::<T, A>(ar),
        undoes::<T, A>(ar),
        0 <= label < probs.len(),
        ar.larger(probs[label], ar.least()) == probs[label],
        ar.exp_of(ar.ln_of(probs[label])) == probs[label],
    ensures
        ar.exp_of(ar.negated(sample_loss(ar, probs, label))) == probs[label],
{
    let l = ar.ln_of(probs[label]);
    let n = ar.negated(l);
    lemma_negated_plus_self(ar, l);
    lemma_negated_plus_self(ar, n);
    lemma_plus_comm(ar, n, l);
    lemma_plus_cancel(ar, ar.negated(n), l, n);
}

/// Of two labels the less probable one costs more, whichever samples they belong to:
/// wherever going up from one probability to the other the logarithm goes up too, and
/// negation turns that round.
pub proof fn law_less_probable_costs_more<T, A: Arith<T>>(
    ar: A,
    p: Seq<T>,
    a: int,
    q: Seq<T>,
    b: int,
)
    requires
        0 <= a < p.len(),
        0 <= b < q.len(),
        ar.larger(p[a], ar.least()) == p[a],
        ar.larger(q[b], ar.least()) == q[b],
        ar.is_above(q[b], p[a]),
        ar.is_above(q[b], p[a]) ==> ar.is_above(
            ar.negated(ar.ln_of(p[a])),
            ar.negated(ar.ln_of(q[b])),
        ),
    ensures
        ar.is_above(sample_loss(ar, p, a), sample_loss(ar, q, b)),
{
}

/// The loss of a batch, sample by sample: a dense network and a perceptron add the loss
/// of each sample, the narrow network takes the logarithm of the probability of its
/// label away. No sample is left out but one whose label is no class. A sample is
/// correct if its label is predicted. This holds with rounding too.
pub proof fn law_batch_goes_sample_by_sample<T, A: Arith<T>>(
    ar: A,
    style: Style,
    probs: Seq<Seq<T>>,
    labels: Seq<int>,
    k: int,
)
    requires
        0 <= k,
    ensures
        total_loss(ar, style, probs, labels, 0) == ar.whole(0),
        total_loss(ar, style, probs, labels, k + 1) == ({
            let before = total_loss(ar, style, probs, labels, k);
            if style != Style::Narrow {
                ar.plus(before, sample_loss(ar, probs[k], labels[k]))
            } else if 0 <= labels[k] < probs[k].len() {
                ar.minus(before, ar.ln_of(ar.larger(probs[k][labels[k]], ar.least())))
            } else {
                before
            }
        }),
        correct_count(ar, probs, labels, 0) == 0,
        correct_count(ar, probs, labels, k + 1) == correct_count(ar, probs, labels, k) + if (
        prediction(ar, probs[k]) == labels[k]) {
            1int
        } else {
            0int
        },
{
}

proof fn lemma_losses<T, A: Arith<T>>(
    ar: A,
    style: Style,
    probs: Seq<Seq<T>>,
    labels: Seq<int>,
    n: int,
    f: spec_fn(int) -> T,
)
    requires
        style != Style::Narrow || exact::<T, A>(ar) && undoes::<T, A>(ar),
        0 <= n <= probs.len(),
        forall|i: int| 0 <= i < n ==> 0 <= #[trigger] labels[i] < probs[i].len(),
        forall|i: int|
            0 <= i < n ==> #[trigger] f(i) == ar.negated(
                ar.ln_of(ar.larger(probs[i][labels[i]], ar.least())),
            ),
    ensures
        total_loss(ar, style, probs, labels, n) == total(ar, n, f),
    decreases n,
{
    if n > 0 {
        lemma_losses(ar, style, probs, labels, n - 1, f);
        assert(0 <= labels[n - 1] < probs[n - 1].len());
        assert(f(n - 1) == ar.negated(
            ar.ln_of(ar.larger(probs[n - 1][labels[n - 1]], ar.least())),
        ));
        if style == Style::Narrow {
            lemma_minus_is_plus(
                ar,
                total_loss(ar, style, probs, labels, n - 1),
                log_probability(ar, probs[n - 1][labels[n - 1]]),
            );
        }
    }
}

/// The loss that an evaluation reports for a batch is the mean of minus the logarithms
/// of the probabilities of the labels, over all samples. A training step reports it too,
/// as the sum times the reciprocal of the number of samples. For a dense network and a
/// perceptron this holds with rounding too, for the narrow network without.
pub proof fn law_mean_loss_formula<T, A: Arith<T>>(
    ar: A,
    style: Style,
    head: HeadView<T>,
    hs: Seq<Seq<T>>,
    labels: Seq<int>,
    lr: T,
)
    requires
        style != Style::Narrow || exact::<T, A>(ar) && undoes::<T, A>(ar),
        head.output_b.len() == 10,
        forall|i: int| 0 <= i < hs.len() ==> 0 <= #[trigger] labels[i] < 10,
    ensures
        ({
            let n = hs.len() as int;
            let sum = total(
                ar,
                n,
                |i: int|
                    ar.negated(
                        ar.ln_of(
                            ar.larger(
                                probabilities(
                                    ar,
                                    logits(ar, style, head, hs[i], head.width),
                                )[labels[i]],
                                ar.least(),
                            ),
                        ),
                    ),
            );
            &&& evaluated(ar, style, head, hs, labels).0 == ar.over(sum, ar.whole(hs.len() as u64))
            &&& output_step(ar, style, head, hs, labels, lr).loss == ar.times(
                sum,
                ar.over(ar.whole(1), ar.whole(hs.len() as u64)),
            )
        }),
{
    let n = hs.len() as int;
    let probs = batch_probabilities(ar, style, head, hs);
    let f = |i: int|
        ar.negated(
            ar.ln_of(
                ar.larger(
                    probabilities(ar, logits(ar, style, head, hs[i], head.width))[labels[i]],
                    ar.least(),
                ),
            ),
        );
    assert forall|i: int| 0 <= i < n implies 0 <= #[trigger] labels[i] < probs[i].len() by {
        lemma_logits_len(ar, style, head, hs[i], head.width);
    }
    lemma_losses(ar, style, probs, labels, n, f);
}

/// What an evaluation and the output part of a training step report is worked out from
/// the probabilities of all samples of the batch, each from its own logits.
pub proof fn law_reports_cover_the_batch<T, A: Arith<T>>(
    ar: A,
    style: Style,
    head: HeadView<T>,
    hs: Seq<Seq<T>>,
    labels: Seq<int>,
    lr: T,
    i: int,
)
    requires
        0 <= i < hs.len(),
    ensures
        ({
            let n = hs.len() as int;
            let probs = batch_probabilities(ar, style, head, hs);
            let loss = total_loss(ar, style, probs, labels, n);
            let step = output_step(ar, style, head, hs, labels, lr);
            &&& probs.len() == hs.len()
            &&& probs[i] == probabilities(ar, logits(ar, style, head, hs[i], head.width))
            &&& evaluated(ar, style, head, hs, labels) == (
                ar.over(loss, ar.whole(hs.len() as u64)),
                correct_count(ar, probs, labels, n),
            )
            &&& step.loss == ar.times(loss, ar.over(ar.whole(1), ar.whole(hs.len() as u64)))
            &&& step.correct == correct_count(ar, probs, labels, n)
        }),
{
}

} // verus!
