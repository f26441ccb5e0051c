use crate::adjoint::batch_dot;
use crate::adjoint::dot;
use crate::adjoint::forward_rate;
use crate::adjoint::law_backward_descends;
use crate::adjoint::law_backward_is_exact;
use crate::adjoint::lemma_forward_count;
use crate::adjoint::stack_gradient;
use crate::arith::descended;
use crate::arith::Arith;
use crate::backward::backward;
use crate::division::undoes;
use crate::exact::exact;
use crate::exact::lemma_plus_comm;
use crate::exact::lemma_plus_zero;
use crate::exact::lemma_times_assoc;
use crate::exact::lemma_times_comm;
use crate::exact::lemma_times_one;
use crate::exact::lemma_times_plus;
use crate::exact::lemma_times_zero;
use crate::exact::lemma_total_ext;
use crate::exact::lemma_total_plus;
use crate::exact::lemma_total_swap;
use crate::exact::lemma_total_times;
use crate::exact::total;
use crate::head::HeadView;
use crate::head::Style;
use crate::layout::layer_floats;
use crate::layout::CLASSES;
use crate::layout::INPUTS;
use crate::loss::law_gradient_scales;
use crate::loss::law_logit_gradients_are_the_derivative;
use crate::loss::sample_loss_rate;
use crate::loss::smooth;
use crate::passes::batch_logit_gradients;
use crate::passes::batch_probabilities;
use crate::passes::bias_gradient;
use crate::passes::class_sum;
use crate::passes::entering_delta;
use crate::passes::entering_deltas;
use crate::passes::input_batch;
use crate::passes::input_gradient;
use crate::passes::leaving_gradient;
use crate::passes::lemma_input_sums_len;
use crate::passes::lemma_logits_len;
use crate::passes::logits;
use crate::passes::output_gradient;
use crate::passes::output_step;
use crate::passes::skips_pixel;
use crate::passes::trained_rows;
use crate::residual::forward;
use crate::residual::Net;
use crate::skipping::one_zero;
use crate::softmax::logit_gradients;
use crate::softmax::probabilities;
use crate::train::training_step;
use vstd::prelude::*;

verus! {

/// How fast value `c` of an affine map changes with its weights and bias, when
/// these change at the rates `dw` and `db`.
pub open spec fn affine_rate<T, A: Arith<T>>(
    ar: A,
    n: int,
    x: Seq<T>,
    dw: Seq<Seq<T>>,
    db: Seq<T>,
    c: int,
) -> T {
    ar.plus(db[c], total(ar, n, |k: int| ar.times(x[k], dw[k][c])))
}

/// The derivative of what a sum of an image becomes, where it becomes `h`.
pub open spec fn entering_slope<T, A: Arith<T>>(ar: A, style: Style, h: T) -> T {
    if style != Style::Mlp {
        ar.minus(ar.whole(1), ar.times(h, h))
    } else if ar.is_at_most(h, ar.whole(0)) {
        ar.whole(0)
    } else {
        ar.whole(1)
    }
}

/// How fast what enters the layers changes, when the head changes at the rate
/// `dhead`.
pub open spec fn entering_rates<T, A: Arith<T>>(
    ar: A,
    style: Style,
    width: int,
    dhead: HeadView<T>,
    images: Seq<Seq<T>>,
    hs: Seq<Seq<T>>,
) -> Seq<Seq<T>> {
    Seq::new(
        images.len(),
        |i: int|
            Seq::new(
                width as nat,
                |j: int|
                    ar.times(
                        entering_slope(ar, style, hs[i][j]),
                        affine_rate(ar, INPUTS as int, images[i], dhead.input_w, dhead.input_b, j),
                    ),
            ),
    )
}

/// How fast logit `c` of a sample changes, when the head changes at the rate
/// `dhead` and what leaves the layers at the rate `dh`.
pub open spec fn logit_rate<T, A: Arith<T>>(
    ar: A,
    head: HeadView<T>,
    dhead: HeadView<T>,
    h: Seq<T>,
    dh: Seq<T>,
    c: int,
) -> T {
    ar.plus(
        affine_rate(ar, head.width, h, dhead.output_w, dhead.output_b, c),
        total(ar, head.width, |k: int| ar.times(dh[k], head.output_w[k][c])),
    )
}

/// The change of the logits of a batch, weighted with `gs`, when the head changes
/// at the rate `dhead` and what leaves the layers at the rate `dhs`.
pub open spec fn weighted_logit_rates<T, A: Arith<T>>(
    ar: A,
    head: HeadView<T>,
    dhead: HeadView<T>,
    hs: Seq<Seq<T>>,
    dhs: Seq<Seq<T>>,
    gs: Seq<Seq<T>>,
) -> T {
    total(
        ar,
        hs.len() as int,
        |i: int|
            total(
                ar,
                CLASSES as int,
                |c: int| ar.times(gs[i][c], logit_rate(ar, head, dhead, hs[i], dhs[i], c)),
            ),
    )
}

/// How fast the logits of a sample change.
pub open spec fn logit_rates<T, A: Arith<T>>(
    ar: A,
    head: HeadView<T>,
    dhead: HeadView<T>,
    h: Seq<T>,
    dh: Seq<T>,
) -> Seq<T> {
    Seq::new(CLASSES as nat, |c: int| logit_rate(ar, head, dhead, h, dh, c))
}

/// How fast the mean loss of a batch changes, when the head changes at the rate
/// `dhead` and what leaves the layers at the rate `dhs`: the derivative of the
/// loss of `output_step`. The largest logits change at the rates `dtops`.
pub open spec fn mean_loss_rate<T, A: Arith<T>>(
    ar: A,
    style: Style,
    head: HeadView<T>,
    dhead: HeadView<T>,
    hs: Seq<Seq<T>>,
    dhs: Seq<Seq<T>>,
    labels: Seq<int>,
    dtops: Seq<T>,
) -> T {
    ar.times(
        total(
            ar,
            hs.len() as int,
            |i: int|
                sample_loss_rate(
                    ar,
                    logits(ar, style, head, hs[i], head.width),
                    logit_rates(ar, head, dhead, hs[i], dhs[i]),
                    dtops[i],
                    labels[i],
                ),
        ),
        ar.over(ar.whole(1), ar.whole(hs.len() as u64)),
    )
}

/// The loss of every sample of a batch that leaves the layers as `hs` can be
/// differentiated.
pub open spec fn all_smooth<T, A: Arith<T>>(
    ar: A,
    style: Style,
    head: HeadView<T>,
    hs: Seq<Seq<T>>,
    labels: Seq<int>,
) -> bool {
    forall|i: int|
        0 <= i < hs.len() ==> smooth(
            ar,
            logits(ar, style, head, #[trigger] hs[i], head.width),
            labels[i],
        )
}

/// The gradients that a training step descends along.
pub struct StepGradients<T> {
    pub input_w: Seq<Seq<T>>,
    pub input_b: Seq<T>,
    pub layers: Seq<Seq<T>>,
    pub output_w: Seq<Seq<T>>,
    pub output_b: Seq<T>,
}

/// The gradients of the mean loss of a batch by the logits of its samples.
pub open spec fn mean_logit_gradients<T, A: Arith<T>>(
    ar: A,
    style: Style,
    head: HeadView<T>,
    hs: Seq<Seq<T>>,
    labels: Seq<int>,
) -> Seq<Seq<T>> {
    batch_logit_gradients(
        ar,
        batch_probabilities(ar, style, head, hs),
        labels,
        ar.over(ar.whole(1), ar.whole(hs.len() as u64)),
    )
}

/// The gradients of a training step.
pub open spec fn step_gradients<T, A: Arith<T>>(
    ar: A,
    style: Style,
    net: Net<T>,
    head: HeadView<T>,
    layers: Seq<Seq<T>>,
    images: Seq<Seq<T>>,
    labels: Seq<int>,
    layer_lr: T,
    head_lr: T,
) -> StepGradients<T> {
    let n = images.len() as int;
    let hs = input_batch(ar, style, head, images);
    let last = forward(ar, net, layers, hs);
    let gs = mean_logit_gradients(ar, style, head, last, labels);
    let leaving = output_step(ar, style, head, last, labels, head_lr).grads;
    let ds = entering_deltas(ar, style, hs, backward(ar, net, layers, hs, leaving, layer_lr).1);
    StepGradients {
        input_w: input_gradient(ar, style, head.width, images, ds, n),
        input_b: bias_gradient(ar, head.width, ds, n),
        layers: stack_gradient(ar, net, layers, hs, leaving),
        output_w: output_gradient(ar, head.width, last, gs, n),
        output_b: bias_gradient(ar, CLASSES as int, gs, n),
    }
}

/// How fast the mean loss of a batch changes, when the head changes at the rate
/// `dhead` and the layers at the rate `dlayers`: its derivative, worked out from
/// the images to the loss.
pub open spec fn step_rate<T, A: Arith<T>>(
    ar: A,
    style: Style,
    net: Net<T>,
    head: HeadView<T>,
    dhead: HeadView<T>,
    layers: Seq<Seq<T>>,
    dlayers: Seq<Seq<T>>,
    images: Seq<Seq<T>>,
    labels: Seq<int>,
    dtops: Seq<T>,
) -> T {
    let hs = input_batch(ar, style, head, images);
    mean_loss_rate(
        ar,
        style,
        head,
        dhead,
        forward(ar, net, layers, hs),
        forward_rate(
            ar,
            net,
            layers,
            dlayers,
            hs,
            entering_rates(ar, style, head.width, dhead, images, hs),
        ),
        labels,
        dtops,
    )
}

/// The change of the mean loss is the change of the logits, weighted with their
/// gradients.
proof fn lemma_mean_loss_rate<T, A: Arith<T>>(
    ar: A,
    style: Style,
    head: HeadView<T>,
    dhead: HeadView<T>,
    hs: Seq<Seq<T>>,
    dhs: Seq<Seq<T>>,
    labels: Seq<int>,
    dtops: Seq<T>,
)
    requires
        exact::<T, A>(ar),
        undoes::<T, A>(ar),
        head.output_b.len() == CLASSES,
        all_smooth(ar, style, head, hs, labels),
    ensures
        mean_loss_rate(ar, style, head, dhead, hs, dhs, labels, dtops) == weighted_logit_rates(
            ar,
            head,
            dhead,
            hs,
            dhs,
            mean_logit_gradients(ar, style, head, hs, labels),
        ),
{
    let n = hs.len() as int;
    let m = CLASSES as int;
    let scale = ar.over(ar.whole(1), ar.whole(hs.len() as u64));
    let gs = mean_logit_gradients(ar, style, head, hs, labels);
    let losses = |i: int|
        sample_loss_rate(
            ar,
            logits(ar, style, head, hs[i], head.width),
            logit_rates(ar, head, dhead, hs[i], dhs[i]),
            dtops[i],
            labels[i],
        );
    let wanted = |i: int|
        total(
            ar,
            m,
            |c: int| ar.times(gs[i][c], logit_rate(ar, head, dhead, hs[i], dhs[i], c)),
        );
    let scaled = |i: int| ar.times(scale, losses(i));
    assert forall|i: int| 0 <= i < n implies #[trigger] scaled(i) == wanted(i) by {
        let z = logits(ar, style, head, hs[i], head.width);
        let d = logit_rates(ar, head, dhead, hs[i], dhs[i]);
        let p = probabilities(ar, z);
        lemma_logits_len(ar, style, head, hs[i], head.width);
        assert(smooth(ar, z, labels[i]));
        law_logit_gradients_are_the_derivative(ar, z, d, dtops[i], labels[i]);
        let one = logit_gradients(ar, p, labels[i], ar.whole(1));
        let terms = |c: int| ar.times(one[c], d[c]);
        lemma_total_times(ar, m, scale, terms);
        let parts = |c: int| ar.times(scale, terms(c));
        let cells = |c: int|
            ar.times(gs[i][c], logit_rate(ar, head, dhead, hs[i], dhs[i], c));
        assert forall|c: int| 0 <= c < m implies #[trigger] parts(c) == cells(c) by {
            lemma_times_one(ar, p[c]);
            lemma_times_one(ar, ar.minus(p[c], ar.whole(1)));
            assert(gs[i] == logit_gradients(ar, p, labels[i], scale));
            law_gradient_scales(ar, p, labels[i], scale, c);
            lemma_times_assoc(ar, scale, one[c], d[c]);
            lemma_times_comm(ar, scale, one[c]);
        }
        lemma_total_ext(ar, m, parts, cells);
    }
    lemma_total_times(ar, n, scale, losses);
    lemma_total_ext(ar, n, scaled, wanted);
    lemma_times_comm(ar, scale, total(ar, n, losses));
}

/// A bias gradient is the sum over the samples.
pub proof fn lemma_bias_gradient<T, A: Arith<T>>(ar: A, m: int, gs: Seq<Seq<T>>, n: int, c: int)
    requires
        0 <= n,
        0 <= c < m,
    ensures
        bias_gradient(ar, m, gs, n).len() == m,
        bias_gradient(ar, m, gs, n)[c] == total(ar, n, |i: int| gs[i][c]),
    decreases n,
{
    if n > 0 {
        lemma_bias_gradient(ar, m, gs, n - 1, c);
    }
}

/// The gradient of an output weight is the sum over the samples.
pub proof fn lemma_output_gradient<T, A: Arith<T>>(
    ar: A,
    width: int,
    hs: Seq<Seq<T>>,
    gs: Seq<Seq<T>>,
    n: int,
    k: int,
    c: int,
)
    requires
        0 <= n,
        0 <= k < width,
        0 <= c < CLASSES,
    ensures
        output_gradient(ar, width, hs, gs, n).len() == width,
        output_gradient(ar, width, hs, gs, n)[k].len() == CLASSES,
        output_gradient(ar, width, hs, gs, n)[k][c] == total(
            ar,
            n,
            |i: int| ar.times(hs[i][k], gs[i][c]),
        ),
    decreases n,
{
    if n > 0 {
        lemma_output_gradient(ar, width, hs, gs, n - 1, k, c);
    }
}

/// The gradient of an input weight is the sum over the samples.
proof fn lemma_input_gradient<T, A: Arith<T>>(
    ar: A,
    style: Style,
    width: int,
    images: Seq<Seq<T>>,
    ds: Seq<Seq<T>>,
    n: int,
    k: int,
    j: int,
)
    requires
        exact::<T, A>(ar),
        one_zero::<T, A>(ar),
        0 <= n,
        0 <= k < INPUTS,
        0 <= j < width,
    ensures
        input_gradient(ar, style, width, images, ds, n).len() == INPUTS,
        input_gradient(ar, style, width, images, ds, n)[k].len() == width,
        input_gradient(ar, style, width, images, ds, n)[k][j] == total(
            ar,
            n,
            |i: int| ar.times(images[i][k], ds[i][j]),
        ),
    decreases n,
{
    if n > 0 {
        lemma_input_gradient(ar, style, width, images, ds, n - 1, k, j);
        if skips_pixel(ar, style, images[n - 1][k]) {
            lemma_times_comm(ar, images[n - 1][k], ds[n - 1][j]);
            lemma_times_zero(ar, ds[n - 1][j]);
            lemma_plus_zero(ar, total(ar, n - 1, |i: int| ar.times(images[i][k], ds[i][j])));
        }
    }
}

/// The weights of a class in the gradient of a value.
proof fn lemma_class_sum<T, A: Arith<T>>(
    ar: A,
    style: Style,
    weights: Seq<T>,
    g: Seq<T>,
    c: int,
)
    requires
        exact::<T, A>(ar),
        0 <= c,
    ensures
        class_sum(ar, style, weights, g, c) == total(ar, c, |m: int| ar.times(g[m], weights[m])),
    decreases c,
{
    if c > 0 {
        lemma_class_sum(ar, style, weights, g, c - 1);
        lemma_times_comm(ar, g[c - 1], weights[c - 1]);
    }
}

/// The products of one cell of a weight matrix, sample by sample.
proof fn lemma_cell<T, A: Arith<T>>(
    ar: A,
    n: int,
    xs: Seq<Seq<T>>,
    es: Seq<Seq<T>>,
    k: int,
    c: int,
    d: T,
)
    requires
        exact::<T, A>(ar),
    ensures
        total(ar, n, |i: int| ar.times(es[i][c], ar.times(xs[i][k], d))) == ar.times(
            total(ar, n, |i: int| ar.times(xs[i][k], es[i][c])),
            d,
        ),
{
    let cell = |i: int| ar.times(xs[i][k], es[i][c]);
    lemma_times_comm(ar, total(ar, n, cell), d);
    lemma_total_times(ar, n, d, cell);
    let scaled = |i: int| ar.times(d, cell(i));
    let wanted = |i: int| ar.times(es[i][c], ar.times(xs[i][k], d));
    assert forall|i: int| 0 <= i < n implies #[trigger] scaled(i) == wanted(i) by {
        lemma_times_comm(ar, d, cell(i));
        lemma_times_comm(ar, xs[i][k], es[i][c]);
        lemma_times_assoc(ar, es[i][c], xs[i][k], d);
    }
    lemma_total_ext(ar, n, scaled, wanted);
}

/// An affine map on a batch: the weighted change of its values is the weighted
/// change of its weights and bias. `gw` and `gb` are the gradients of these.
proof fn lemma_affine_exact<T, A: Arith<T>>(
    ar: A,
    n: int,
    inputs: int,
    outputs: int,
    xs: Seq<Seq<T>>,
    es: Seq<Seq<T>>,
    dw: Seq<Seq<T>>,
    db: Seq<T>,
    gw: Seq<Seq<T>>,
    gb: Seq<T>,
)
    requires
        exact::<T, A>(ar),
        forall|k: int, c: int|
            0 <= k < inputs && 0 <= c < outputs ==> #[trigger] gw[k][c] == total(
                ar,
                n,
                |i: int| ar.times(xs[i][k], es[i][c]),
            ),
        forall|c: int|
            0 <= c < outputs ==> #[trigger] gb[c] == total(ar, n, |i: int| es[i][c]),
    ensures
        total(
            ar,
            n,
            |i: int|
                total(
                    ar,
                    outputs,
                    |c: int| ar.times(es[i][c], affine_rate(ar, inputs, xs[i], dw, db, c)),
                ),
        ) == ar.plus(batch_dot(ar, inputs, outputs, gw, dw), dot(ar, outputs, gb, db)),
{
    let cell = |i: int, k: int, c: int| ar.times(es[i][c], ar.times(xs[i][k], dw[k][c]));
    let bias = |i: int, c: int| ar.times(es[i][c], db[c]);
    let sample = |i: int|
        total(
            ar,
            outputs,
            |c: int| ar.times(es[i][c], affine_rate(ar, inputs, xs[i], dw, db, c)),
        );
    let weights = |i: int, k: int| total(ar, outputs, |c: int| cell(i, k, c));
    let by_weights = |i: int| total(ar, inputs, |k: int| weights(i, k));
    let by_bias = |i: int| total(ar, outputs, |c: int| bias(i, c));
    // One sample: weights and bias apart.
    assert forall|i: int| 0 <= i < n implies #[trigger] sample(i) == ar.plus(
        by_weights(i),
        by_bias(i),
    ) by {
        let whole = |c: int| ar.times(es[i][c], affine_rate(ar, inputs, xs[i], dw, db, c));
        let flipped = |c: int, k: int| cell(i, k, c);
        let column = |c: int| total(ar, inputs, |k: int| flipped(c, k));
        let on_bias = |c: int| bias(i, c);
        assert forall|c: int| 0 <= c < outputs implies #[trigger] whole(c) == ar.plus(
            column(c),
            on_bias(c),
        ) by {
            let terms = |k: int| ar.times(xs[i][k], dw[k][c]);
            lemma_times_plus(ar, es[i][c], db[c], total(ar, inputs, terms));
            lemma_total_times(ar, inputs, es[i][c], terms);
            lemma_total_ext(
                ar,
                inputs,
                |k: int| ar.times(es[i][c], terms(k)),
                |k: int| flipped(c, k),
            );
            lemma_plus_comm(ar, on_bias(c), column(c));
        }
        lemma_total_ext(ar, outputs, whole, |c: int| ar.plus(column(c), on_bias(c)));
        lemma_total_plus(ar, outputs, column, on_bias);
        lemma_total_swap(ar, outputs, inputs, flipped);
        let rows = |k: int| total(ar, outputs, |c: int| flipped(c, k));
        assert forall|k: int| 0 <= k < inputs implies #[trigger] rows(k) == weights(i, k) by {
            lemma_total_ext(ar, outputs, |c: int| flipped(c, k), |c: int| cell(i, k, c));
        }
        lemma_total_ext(ar, inputs, rows, |k: int| weights(i, k));
    }
    lemma_total_ext(ar, n, sample, |i: int| ar.plus(by_weights(i), by_bias(i)));
    lemma_total_plus(ar, n, by_weights, by_bias);

    // The weights, row by row.
    lemma_total_swap(ar, n, inputs, weights);
    let rows = |k: int| total(ar, n, |i: int| weights(i, k));
    let wanted_rows = |k: int| dot(ar, outputs, gw[k], dw[k]);
    assert forall|k: int| 0 <= k < inputs implies #[trigger] rows(k) == wanted_rows(k) by {
        let on_row = |i: int, c: int| cell(i, k, c);
        let samples = |i: int| weights(i, k);
        let row_sums = |i: int| total(ar, outputs, |c: int| on_row(i, c));
        assert forall|i: int| 0 <= i < n implies #[trigger] samples(i) == row_sums(i) by {
            lemma_total_ext(ar, outputs, |c: int| cell(i, k, c), |c: int| on_row(i, c));
        }
        lemma_total_ext(ar, n, samples, row_sums);
        lemma_total_swap(ar, n, outputs, on_row);
        let cells = |c: int| total(ar, n, |i: int| on_row(i, c));
        let wanted = |c: int| ar.times(gw[k][c], dw[k][c]);
        assert forall|c: int| 0 <= c < outputs implies #[trigger] cells(c) == wanted(c) by {
            lemma_cell(ar, n, xs, es, k, c, dw[k][c]);
            lemma_total_ext(
                ar,
                n,
                |i: int| on_row(i, c),
                |i: int| ar.times(es[i][c], ar.times(xs[i][k], dw[k][c])),
            );
            assert(gw[k][c] == total(ar, n, |i: int| ar.times(xs[i][k], es[i][c])));
        }
        lemma_total_ext(ar, outputs, cells, wanted);
    }
    lemma_total_ext(ar, inputs, rows, wanted_rows);

    // The bias, value by value.
    lemma_total_swap(ar, n, outputs, bias);
    let values = |c: int| total(ar, n, |i: int| bias(i, c));
    let wanted = |c: int| ar.times(gb[c], db[c]);
    assert forall|c: int| 0 <= c < outputs implies #[trigger] values(c) == wanted(c) by {
        let terms = |i: int| es[i][c];
        assert(gb[c] == total(ar, n, terms));
        lemma_times_comm(ar, gb[c], db[c]);
        lemma_total_times(ar, n, db[c], terms);
        let scaled = |i: int| ar.times(db[c], terms(i));
        assert forall|i: int| 0 <= i < n implies #[trigger] scaled(i) == bias(i, c) by {
            lemma_times_comm(ar, db[c], terms(i));
        }
        lemma_total_ext(ar, n, scaled, |i: int| bias(i, c));
    }
    lemma_total_ext(ar, outputs, values, wanted);
}

/// The output part of a network: the change of the loss is the weighted change
/// of what leaves the layers, of the output weights and of the output bias.
proof fn lemma_output_exact<T, A: Arith<T>>(
    ar: A,
    style: Style,
    head: HeadView<T>,
    dhead: HeadView<T>,
    hs: Seq<Seq<T>>,
    dhs: Seq<Seq<T>>,
    gs: Seq<Seq<T>>,
)
    requires
        exact::<T, A>(ar),
        0 <= head.width,
    ensures
        ({
            let n = hs.len() as int;
            let w = head.width;
            let leaving = Seq::new(hs.len(), |i: int| leaving_gradient(ar, style, head, gs[i]));
            weighted_logit_rates(ar, head, dhead, hs, dhs, gs) == ar.plus(
                ar.plus(
                    batch_dot(
                        ar,
                        w,
                        CLASSES as int,
                        output_gradient(ar, w, hs, gs, n),
                        dhead.output_w,
                    ),
                    dot(
                        ar,
                        CLASSES as int,
                        bias_gradient(ar, CLASSES as int, gs, n),
                        dhead.output_b,
                    ),
                ),
                batch_dot(ar, n, w, leaving, dhs),
            )
        }),
{
    let n = hs.len() as int;
    let w = head.width;
    let m = CLASSES as int;
    let leaving = Seq::new(hs.len(), |i: int| leaving_gradient(ar, style, head, gs[i]));
    let sample = |i: int|
        total(
            ar,
            m,
            |c: int| ar.times(gs[i][c], logit_rate(ar, head, dhead, hs[i], dhs[i], c)),
        );
    let own = |i: int|
        total(
            ar,
            m,
            |c: int|
                ar.times(gs[i][c], affine_rate(ar, w, hs[i], dhead.output_w, dhead.output_b, c)),
        );
    let passed = |i: int| dot(ar, w, leaving[i], dhs[i]);
    assert forall|i: int| 0 <= i < n implies #[trigger] sample(i) == ar.plus(
        own(i),
        passed(i),
    ) by {
        let whole = |c: int| ar.times(gs[i][c], logit_rate(ar, head, dhead, hs[i], dhs[i], c));
        let rate = |c: int| affine_rate(ar, w, hs[i], dhead.output_w, dhead.output_b, c);
        let f = |c: int, k: int| ar.times(gs[i][c], ar.times(dhs[i][k], head.output_w[k][c]));
        let first = |c: int| ar.times(gs[i][c], rate(c));
        let second = |c: int| total(ar, w, |k: int| f(c, k));
        assert forall|c: int| 0 <= c < m implies #[trigger] whole(c) == ar.plus(
            first(c),
            second(c),
        ) by {
            let terms = |k: int| ar.times(dhs[i][k], head.output_w[k][c]);
            lemma_times_plus(ar, gs[i][c], rate(c), total(ar, w, terms));
            lemma_total_times(ar, w, gs[i][c], terms);
            lemma_total_ext(ar, w, |k: int| ar.times(gs[i][c], terms(k)), |k: int| f(c, k));
        }
        lemma_total_ext(ar, m, whole, |c: int| ar.plus(first(c), second(c)));
        lemma_total_plus(ar, m, first, second);
        lemma_total_ext(
            ar,
            m,
            first,
            |c: int|
                ar.times(gs[i][c], affine_rate(ar, w, hs[i], dhead.output_w, dhead.output_b, c)),
        );
        lemma_total_swap(ar, m, w, f);
        let columns = |k: int| total(ar, m, |c: int| f(c, k));
        let wanted = |k: int| ar.times(leaving[i][k], dhs[i][k]);
        assert forall|k: int| 0 <= k < w implies #[trigger] columns(k) == wanted(k) by {
            let g = gs[i];
            let weights = head.output_w[k];
            let d = dhs[i][k];
            let terms = |c: int| ar.times(g[c], weights[c]);
            lemma_class_sum(ar, style, weights, g, m);
            assert(leaving[i][k] == total(ar, m, terms));
            lemma_times_comm(ar, leaving[i][k], d);
            lemma_total_times(ar, m, d, terms);
            let scaled = |c: int| ar.times(d, terms(c));
            assert forall|c: int| 0 <= c < m implies #[trigger] scaled(c) == f(c, k) by {
                lemma_times_comm(ar, d, terms(c));
                lemma_times_assoc(ar, g[c], weights[c], d);
                lemma_times_comm(ar, weights[c], d);
            }
            lemma_total_ext(ar, m, scaled, |c: int| f(c, k));
        }
        lemma_total_ext(ar, w, columns, wanted);
    }
    lemma_total_ext(ar, n, sample, |i: int| ar.plus(own(i), passed(i)));
    lemma_total_plus(ar, n, own, passed);
    let gw = output_gradient(ar, w, hs, gs, n);
    let gb = bias_gradient(ar, m, gs, n);
    assert forall|k: int, c: int| 0 <= k < w && 0 <= c < m implies #[trigger] gw[k][c] == total(
        ar,
        n,
        |i: int| ar.times(hs[i][k], gs[i][c]),
    ) by {
        lemma_output_gradient(ar, w, hs, gs, n, k, c);
    }
    assert forall|c: int| 0 <= c < m implies #[trigger] gb[c] == total(
        ar,
        n,
        |i: int| gs[i][c],
    ) by {
        lemma_bias_gradient(ar, m, gs, n, c);
    }
    lemma_affine_exact(ar, n, w, m, hs, gs, dhead.output_w, dhead.output_b, gw, gb);
}

/// The input part of a network: the weighted change of what enters the layers is
/// the weighted change of the input weights and of the input bias.
proof fn lemma_input_exact<T, A: Arith<T>>(
    ar: A,
    style: Style,
    width: int,
    dhead: HeadView<T>,
    images: Seq<Seq<T>>,
    hs: Seq<Seq<T>>,
    gs: Seq<Seq<T>>,
)
    requires
        exact::<T, A>(ar),
        one_zero::<T, A>(ar),
        0 <= width,
        hs.len() == images.len(),
        forall|i: int| 0 <= i < hs.len() ==> (#[trigger] hs[i]).len() == width,
    ensures
        ({
            let n = images.len() as int;
            let ds = entering_deltas(ar, style, hs, gs);
            batch_dot(
                ar,
                n,
                width,
                gs,
                entering_rates(ar, style, width, dhead, images, hs),
            ) == ar.plus(
                batch_dot(
                    ar,
                    INPUTS as int,
                    width,
                    input_gradient(ar, style, width, images, ds, n),
                    dhead.input_w,
                ),
                dot(ar, width, bias_gradient(ar, width, ds, n), dhead.input_b),
            )
        }),
{
    let n = images.len() as int;
    let p = INPUTS as int;
    let ds = entering_deltas(ar, style, hs, gs);
    let rates = entering_rates(ar, style, width, dhead, images, hs);
    let sample = |i: int| dot(ar, width, gs[i], rates[i]);
    let wanted = |i: int|
        total(
            ar,
            width,
            |j: int|
                ar.times(ds[i][j], affine_rate(ar, p, images[i], dhead.input_w, dhead.input_b, j)),
        );
    assert forall|i: int| 0 <= i < n implies #[trigger] sample(i) == wanted(i) by {
        let a = |j: int| ar.times(gs[i][j], rates[i][j]);
        let b = |j: int|
            ar.times(ds[i][j], affine_rate(ar, p, images[i], dhead.input_w, dhead.input_b, j));
        assert forall|j: int| 0 <= j < width implies #[trigger] a(j) == b(j) by {
            let h = hs[i][j];
            let g = gs[i][j];
            let slope = entering_slope(ar, style, h);
            let rate = affine_rate(ar, p, images[i], dhead.input_w, dhead.input_b, j);
            lemma_times_assoc(ar, g, slope, rate);
            assert(ds[i] == entering_delta(ar, style, hs[i], gs[i]));
            lemma_times_one(ar, g);
            lemma_times_zero(ar, g);
            assert(ds[i][j] == ar.times(g, slope));
        }
        lemma_total_ext(ar, width, a, b);
    }
    lemma_total_ext(ar, n, sample, wanted);
    let gw = input_gradient(ar, style, width, images, ds, n);
    let gb = bias_gradient(ar, width, ds, n);
    assert forall|k: int, c: int|
        0 <= k < p && 0 <= c < width implies #[trigger] gw[k][c] == total(
        ar,
        n,
        |i: int| ar.times(images[i][k], ds[i][c]),
    ) by {
        lemma_input_gradient(ar, style, width, images, ds, n, k, c);
    }
    assert forall|c: int| 0 <= c < width implies #[trigger] gb[c] == total(
        ar,
        n,
        |i: int| ds[i][c],
    ) by {
        lemma_bias_gradient(ar, width, ds, n, c);
    }
    lemma_affine_exact(ar, n, p, width, images, ds, dhead.input_w, dhead.input_b, gw, gb);
}

/// A training step knows the exact gradient of the loss through the whole
/// network: without rounding, and whatever the direction in which the head and
/// the layers change, the change of the mean loss is the change of every
/// parameter, weighted with its gradient.
pub proof fn law_training_step_is_exact<T, A: Arith<T>>(
    ar: A,
    style: Style,
    net: Net<T>,
    head: HeadView<T>,
    dhead: HeadView<T>,
    layers: Seq<Seq<T>>,
    dlayers: Seq<Seq<T>>,
    images: Seq<Seq<T>>,
    labels: Seq<int>,
    dtops: Seq<T>,
    layer_lr: T,
    head_lr: T,
)
    requires
        exact::<T, A>(ar),
        undoes::<T, A>(ar),
        one_zero::<T, A>(ar),
        net.wf(),
        head.width == net.w(),
        head.input_b.len() == head.width,
        head.output_b.len() == CLASSES,
        all_smooth(
            ar,
            style,
            head,
            forward(ar, net, layers, input_batch(ar, style, head, images)),
            labels,
        ),
    ensures
        ({
            let w = head.width;
            let m = CLASSES as int;
            let g = step_gradients(
                ar,
                style,
                net,
                head,
                layers,
                images,
                labels,
                layer_lr,
                head_lr,
            );
            step_rate(
                ar,
                style,
                net,
                head,
                dhead,
                layers,
                dlayers,
                images,
                labels,
                dtops,
            ) == ar.plus(
                ar.plus(
                    batch_dot(ar, w, m, g.output_w, dhead.output_w),
                    dot(ar, m, g.output_b, dhead.output_b),
                ),
                ar.plus(
                    ar.plus(
                        batch_dot(ar, INPUTS as int, w, g.input_w, dhead.input_w),
                        dot(ar, w, g.input_b, dhead.input_b),
                    ),
                    batch_dot(ar, layers.len() as int, layer_floats(w), g.layers, dlayers),
                ),
            )
        }),
{
    let w = head.width;
    let hs = input_batch(ar, style, head, images);
    let dhs = entering_rates(ar, style, w, dhead, images, hs);
    let last = forward(ar, net, layers, hs);
    let dlast = forward_rate(ar, net, layers, dlayers, hs, dhs);
    let gs = mean_logit_gradients(ar, style, head, last, labels);
    let leaving = output_step(ar, style, head, last, labels, head_lr).grads;
    lemma_forward_count(ar, net, layers, hs);
    lemma_mean_loss_rate(ar, style, head, dhead, last, dlast, labels, dtops);
    lemma_output_exact(ar, style, head, dhead, last, dlast, gs);
    assert(leaving =~= Seq::new(last.len(), |i: int| leaving_gradient(ar, style, head, gs[i])));
    law_backward_is_exact(ar, net, layers, dlayers, hs, dhs, leaving, layer_lr);
    let entering = backward(ar, net, layers, hs, leaving, layer_lr).1;
    assert forall|i: int| 0 <= i < hs.len() implies (#[trigger] hs[i]).len() == w by {
        lemma_input_sums_len(ar, style, head, images[i], INPUTS as int);
    }
    lemma_input_exact(ar, style, w, dhead, images, hs, entering);
}

/// A training step descends along these gradients: every parameter of the head
/// and of the layers moves against its gradient by its learning rate. This holds
/// with rounding too.
pub proof fn law_training_step_descends<T, A: Arith<T>>(
    ar: A,
    style: Style,
    net: Net<T>,
    head: HeadView<T>,
    layers: Seq<Seq<T>>,
    images: Seq<Seq<T>>,
    labels: Seq<int>,
    layer_lr: T,
    head_lr: T,
)
    requires
        forall|l: int|
            0 <= l < layers.len() ==> (#[trigger] layers[l]).len() == layer_floats(net.w()),
    ensures
        ({
            let t = training_step(
                ar,
                style,
                net,
                head,
                layers,
                images,
                labels,
                layer_lr,
                head_lr,
            );
            let g = step_gradients(
                ar,
                style,
                net,
                head,
                layers,
                images,
                labels,
                layer_lr,
                head_lr,
            );
            &&& t.head.input_w == trained_rows(ar, head.input_w, g.input_w, head_lr)
            &&& t.head.input_b == descended(ar, head.input_b, g.input_b, head_lr)
            &&& t.head.output_w == trained_rows(ar, head.output_w, g.output_w, head_lr)
            &&& t.head.output_b == descended(ar, head.output_b, g.output_b, head_lr)
            &&& t.layers == trained_rows(ar, layers, g.layers, layer_lr)
        }),
{
    let hs = input_batch(ar, style, head, images);
    let last = forward(ar, net, layers, hs);
    let leaving = output_step(ar, style, head, last, labels, head_lr).grads;
    lemma_forward_count(ar, net, layers, hs);
    law_backward_descends(ar, net, layers, hs, leaving, layer_lr);
    let g = stack_gradient(ar, net, layers, hs, leaving);
    assert(backward(ar, net, layers, hs, leaving, layer_lr).0 =~= trained_rows(
        ar,
        layers,
        g,
        layer_lr,
    ));
}

} // verus!
