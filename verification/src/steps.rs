use crate::adjoint::law_backward_descends;
use crate::adjoint::lemma_forward_count;
use crate::adjoint::stack_gradient;
use crate::arith::descended;
use crate::arith::Arith;
use crate::backward::backward;
use crate::descent::law_training_step_descends;
use crate::descent::lemma_bias_gradient;
use crate::descent::lemma_output_gradient;
use crate::descent::mean_logit_gradients;
use crate::descent::step_gradients;
use crate::division::lemma_minus_plus;
use crate::division::lemma_plus_cancel;
use crate::division::undoes;
use crate::exact::exact;
use crate::exact::lemma_plus_comm;
use crate::exact::lemma_times_comm;
use crate::exact::lemma_times_one;
use crate::exact::lemma_times_plus;
use crate::exact::lemma_total_ext;
use crate::exact::summed_where;
use crate::exact::total;
use crate::head::HeadView;
use crate::head::Style;
use crate::layout::layer_floats;
use crate::passes::bias_gradient;
use crate::passes::class_sum;
use crate::passes::entering_delta;
use crate::passes::entering_deltas;
use crate::passes::input_batch;
use crate::passes::input_gradient;
use crate::passes::input_step;
use crate::passes::lemma_input_sums_len;
use crate::passes::lemma_logits_len;
use crate::passes::logits;
use crate::passes::output_gradient;
use crate::passes::output_step;
use crate::residual::forward;
use crate::residual::Net;
use crate::softmax::logit_gradients;
use crate::softmax::probabilities;
use crate::train::training_step;
use vstd::prelude::*;

verus! {

/// Training a stack moves every parameter of every layer: whatever the learning rate,
/// it is the parameter before less `lr` times its gradient. This holds with rounding
/// too. Without rounding, the parameter after the step plus `lr` times its gradient is
/// the parameter before.
pub proof fn law_stack_moves_every_parameter<T, A: Arith<T>>(
    ar: A,
    net: Net<T>,
    layers: Seq<Seq<T>>,
    hs: Seq<Seq<T>>,
    gs: Seq<Seq<T>>,
    lr: T,
    l: int,
    p: int,
)
    requires
        forall|m: int|
            0 <= m < layers.len() ==> (#[trigger] layers[m]).len() == layer_floats(net.w()),
        0 <= l < layers.len(),
        0 <= p < layers[l].len(),
    ensures
        ({
            let after = backward(ar, net, layers, hs, gs, lr).0;
            let grads = stack_gradient(ar, net, layers, hs, gs);
            &&& after.len() == layers.len()
            &&& after[l].len() == layers[l].len()
            &&& after[l][p] == ar.minus(layers[l][p], ar.times(lr, grads[l][p]))
            &&& undoes::<T, A>(ar) ==> ar.plus(after[l][p], ar.times(lr, grads[l][p]))
                == layers[l][p]
        }),
{
    law_backward_descends(ar, net, layers, hs, gs, lr);
    let grads = stack_gradient(ar, net, layers, hs, gs);
    assert(backward(ar, net, layers, hs, gs, lr).0[l] == descended(ar, layers[l], grads[l], lr));
    if undoes::<T, A>(ar) {
        lemma_minus_plus(ar, layers[l][p], ar.times(lr, grads[l][p]));
    }
}

/// Without rounding, the step goes with the learning rate: a step at the sum of two
/// rates takes from every parameter what steps at the two rates take together, and a
/// step at rate one takes the gradient.
pub proof fn law_step_goes_with_the_rate<T, A: Arith<T>>(
    ar: A,
    net: Net<T>,
    layers: Seq<Seq<T>>,
    hs: Seq<Seq<T>>,
    gs: Seq<Seq<T>>,
    a: T,
    b: T,
    l: int,
    p: int,
)
    requires
        exact::<T, A>(ar),
        undoes::<T, A>(ar),
        forall|m: int|
            0 <= m < layers.len() ==> (#[trigger] layers[m]).len() == layer_floats(net.w()),
        0 <= l < layers.len(),
        0 <= p < layers[l].len(),
    ensures
        ({
            let taken = |lr: T|
                ar.minus(layers[l][p], backward(ar, net, layers, hs, gs, lr).0[l][p]);
            &&& taken(ar.plus(a, b)) == ar.plus(taken(a), taken(b))
            &&& taken(ar.whole(1)) == stack_gradient(ar, net, layers, hs, gs)[l][p]
        }),
{
    let before = layers[l][p];
    let g = stack_gradient(ar, net, layers, hs, gs)[l][p];
    assert forall|lr: T| #[trigger] ar.minus(
        before,
        backward(ar, net, layers, hs, gs, lr).0[l][p],
    ) == ar.times(lr, g) by {
        law_stack_moves_every_parameter(ar, net, layers, hs, gs, lr, l, p);
        let step = ar.times(lr, g);
        let after = ar.minus(before, step);
        lemma_minus_plus(ar, before, step);
        lemma_plus_comm(ar, after, step);
        lemma_minus_plus(ar, before, after);
        lemma_plus_cancel(ar, ar.minus(before, after), step, after);
    }
    lemma_times_comm(ar, ar.plus(a, b), g);
    lemma_times_plus(ar, g, a, b);
    lemma_times_comm(ar, g, a);
    lemma_times_comm(ar, g, b);
    lemma_times_one(ar, g);
    lemma_times_comm(ar, g, ar.whole(1));
}

/// A training step moves every parameter of the network: whatever the learning rates,
/// each weight and bias of the head is what it was less `head_lr` times its gradient,
/// and each parameter of a layer what it was less `layer_lr` times its gradient. This
/// holds with rounding too.
pub proof fn law_step_moves_every_parameter<T, A: Arith<T>>(
    ar: A,
    style: Style,
    net: Net<T>,
    head: HeadView<T>,
    layers: Seq<Seq<T>>,
    images: Seq<Seq<T>>,
    labels: Seq<int>,
    layer_lr: T,
    head_lr: T,
)
    requires
        forall|m: int|
            0 <= m < layers.len() ==> (#[trigger] layers[m]).len() == layer_floats(net.w()),
    ensures
        ({
            let t = training_step(
                ar,
                style,
                net,
                head,
                layers,
                images,
                labels,
                layer_lr,
                head_lr,
            );
            let g = step_gradients(
                ar,
                style,
                net,
                head,
                layers,
                images,
                labels,
                layer_lr,
                head_lr,
            );
            &&& t.head.width == head.width
            &&& t.head.input_w.len() == head.input_w.len()
            &&& t.head.input_b.len() == head.input_b.len()
            &&& t.head.output_w.len() == head.output_w.len()
            &&& t.head.output_b.len() == head.output_b.len()
            &&& t.layers.len() == layers.len()
            &&& forall|k: int, j: int|
                0 <= k < head.input_w.len() && 0 <= j < head.input_w[k].len()
                    ==> #[trigger] t.head.input_w[k][j] == ar.minus(
                    head.input_w[k][j],
                    ar.times(head_lr, g.input_w[k][j]),
                )
            &&& forall|j: int|
                0 <= j < head.input_b.len() ==> #[trigger] t.head.input_b[j] == ar.minus(
                    head.input_b[j],
                    ar.times(head_lr, g.input_b[j]),
                )
            &&& forall|k: int, c: int|
                0 <= k < head.output_w.len() && 0 <= c < head.output_w[k].len()
                    ==> #[trigger] t.head.output_w[k][c] == ar.minus(
                    head.output_w[k][c],
                    ar.times(head_lr, g.output_w[k][c]),
                )
            &&& forall|c: int|
                0 <= c < head.output_b.len() ==> #[trigger] t.head.output_b[c] == ar.minus(
                    head.output_b[c],
                    ar.times(head_lr, g.output_b[c]),
                )
            &&& forall|l: int, p: int|
                0 <= l < layers.len() && 0 <= p < layers[l].len()
                    ==> #[trigger] t.layers[l][p] == ar.minus(
                    layers[l][p],
                    ar.times(layer_lr, g.layers[l][p]),
                )
        }),
{
    law_training_step_descends(
        ar,
        style,
        net,
        head,
        layers,
        images,
        labels,
        layer_lr,
        head_lr,
    );
}

/// Without rounding, a training step can be made up for: every parameter after the
/// step plus its learning rate times its gradient is the parameter before.
pub proof fn law_step_can_be_made_up_for<T, A: Arith<T>>(
    ar: A,
    style: Style,
    net: Net<T>,
    head: HeadView<T>,
    layers: Seq<Seq<T>>,
    images: Seq<Seq<T>>,
    labels: Seq<int>,
    layer_lr: T,
    head_lr: T,
)
    requires
        undoes::<T, A>(ar),
        forall|m: int|
            0 <= m < layers.len() ==> (#[trigger] layers[m]).len() == layer_floats(net.w()),
    ensures
        ({
            let t = training_step(
                ar,
                style,
                net,
                head,
                layers,
                images,
                labels,
                layer_lr,
                head_lr,
            );
            let g = step_gradients(
                ar,
                style,
                net,
                head,
                layers,
                images,
                labels,
                layer_lr,
                head_lr,
            );
            &&& forall|k: int, j: int|
                0 <= k < head.input_w.len() && 0 <= j < head.input_w[k].len() ==> ar.plus(
                    #[trigger] t.head.input_w[k][j],
                    ar.times(head_lr, g.input_w[k][j]),
                ) == head.input_w[k][j]
            &&& forall|j: int|
                0 <= j < head.input_b.len() ==> ar.plus(
                    #[trigger] t.head.input_b[j],
                    ar.times(head_lr, g.input_b[j]),
                ) == head.input_b[j]
            &&& forall|k: int, c: int|
                0 <= k < head.output_w.len() && 0 <= c < head.output_w[k].len() ==> ar.plus(
                    #[trigger] t.head.output_w[k][c],
                    ar.times(head_lr, g.output_w[k][c]),
                ) == head.output_w[k][c]
            &&& forall|c: int|
                0 <= c < head.output_b.len() ==> ar.plus(
                    #[trigger] t.head.output_b[c],
                    ar.times(head_lr, g.output_b[c]),
                ) == head.output_b[c]
            &&& forall|l: int, p: int|
                0 <= l < layers.len() && 0 <= p < layers[l].len() ==> ar.plus(
                    #[trigger] t.layers[l][p],
                    ar.times(layer_lr, g.layers[l][p]),
                ) == layers[l][p]
        }),
{
    law_step_moves_every_parameter(
        ar,
        style,
        net,
        head,
        layers,
        images,
        labels,
        layer_lr,
        head_lr,
    );
    assert forall|a: T, b: T| ar.plus(#[trigger] ar.minus(a, b), b) == a by {
        lemma_minus_plus(ar, a, b);
    }
}

/// What the output part of a training step makes of the output weights and biases, for
/// whatever leaves the layers: each moves by `lr` times the sum over all samples of the
/// gradient of its class's logit, for a weight times the value that it weighs. The input
/// part of the head stays as it is. This holds with rounding too.
pub proof fn law_output_part_moves<T, A: Arith<T>>(
    ar: A,
    style: Style,
    head: HeadView<T>,
    hs: Seq<Seq<T>>,
    labels: Seq<int>,
    lr: T,
    k: int,
    c: int,
)
    requires
        head.output_b.len() == 10,
        head.output_w.len() == head.width,
        0 <= k < head.width,
        0 <= c < 10,
        head.output_w[k].len() == 10,
    ensures
        ({
            let after = output_step(ar, style, head, hs, labels, lr).head;
            let n = hs.len() as int;
            let by_logit = |i: int|
                {
                    let p = probabilities(ar, logits(ar, style, head, hs[i], head.width))[c];
                    ar.times(
                        if c == labels[i] {
                            ar.minus(p, ar.whole(1))
                        } else {
                            p
                        },
                        ar.over(ar.whole(1), ar.whole(hs.len() as u64)),
                    )
                };
            &&& after.width == head.width
            &&& after.input_w == head.input_w
            &&& after.input_b == head.input_b
            &&& after.output_w.len() == head.width
            &&& after.output_w[k].len() == 10
            &&& after.output_b.len() == 10
            &&& after.output_b[c] == ar.minus(
                head.output_b[c],
                ar.times(lr, total(ar, n, by_logit)),
            )
            &&& after.output_w[k][c] == ar.minus(
                head.output_w[k][c],
                ar.times(lr, total(ar, n, |i: int| ar.times(hs[i][k], by_logit(i)))),
            )
        }),
{
    let n = hs.len() as int;
    let gs = mean_logit_gradients(ar, style, head, hs, labels);
    lemma_output_sums(ar, style, head, hs, labels, k, c);
    let after = output_step(ar, style, head, hs, labels, lr).head;
    assert(after.output_b == descended(ar, head.output_b, bias_gradient(ar, 10, gs, n), lr));
    assert(after.output_w[k] == descended(
        ar,
        head.output_w[k],
        output_gradient(ar, head.width, hs, gs, n)[k],
        lr,
    ));
}

/// The gradients of an output weight and of an output bias, sample by sample.
proof fn lemma_output_sums<T, A: Arith<T>>(
    ar: A,
    style: Style,
    head: HeadView<T>,
    hs: Seq<Seq<T>>,
    labels: Seq<int>,
    k: int,
    c: int,
)
    requires
        head.output_b.len() == 10,
        0 <= k < head.width,
        0 <= c < 10,
    ensures
        ({
            let n = hs.len() as int;
            let gs = mean_logit_gradients(ar, style, head, hs, labels);
            let by_logit = |i: int|
                {
                    let p = probabilities(ar, logits(ar, style, head, hs[i], head.width))[c];
                    ar.times(
                        if c == labels[i] {
                            ar.minus(p, ar.whole(1))
                        } else {
                            p
                        },
                        ar.over(ar.whole(1), ar.whole(hs.len() as u64)),
                    )
                };
            &&& bias_gradient(ar, 10, gs, n)[c] == total(ar, n, by_logit)
            &&& output_gradient(ar, head.width, hs, gs, n)[k][c] == total(
                ar,
                n,
                |i: int| ar.times(hs[i][k], by_logit(i)),
            )
        }),
{
    let n = hs.len() as int;
    let gs = mean_logit_gradients(ar, style, head, hs, labels);
    let scale = ar.over(ar.whole(1), ar.whole(hs.len() as u64));
    let by_logit = |i: int|
        {
            let p = probabilities(ar, logits(ar, style, head, hs[i], head.width))[c];
            ar.times(
                if c == labels[i] {
                    ar.minus(p, ar.whole(1))
                } else {
                    p
                },
                ar.over(ar.whole(1), ar.whole(hs.len() as u64)),
            )
        };
    lemma_bias_gradient(ar, 10, gs, n, c);
    lemma_output_gradient(ar, head.width, hs, gs, n, k, c);
    let direct = |i: int| gs[i][c];
    assert forall|i: int| 0 <= i < n implies #[trigger] direct(i) == by_logit(i) by {
        lemma_logits_len(ar, style, head, hs[i], head.width);
        let probs = probabilities(ar, logits(ar, style, head, hs[i], head.width));
        assert(gs[i] == logit_gradients(ar, probs, labels[i], scale));
    }
    lemma_total_ext(ar, n, direct, by_logit);
    let weighted = |i: int| ar.times(hs[i][k], gs[i][c]);
    assert forall|i: int| 0 <= i < n implies #[trigger] weighted(i) == ar.times(
        hs[i][k],
        by_logit(i),
    ) by {
        assert(direct(i) == by_logit(i));
    }
    lemma_total_ext(ar, n, weighted, |i: int| ar.times(hs[i][k], by_logit(i)));
}

/// The gradients of the output part of the head are sums over all samples of the
/// batch: a bias gets the gradient of its class's logit, a weight that gradient times
/// the value that it weighs. The gradient of a logit is the probability of its class,
/// less one for the label, over the number of samples. This holds with rounding too.
pub proof fn law_output_gradients_sum_over_the_batch<T, A: Arith<T>>(
    ar: A,
    style: Style,
    net: Net<T>,
    head: HeadView<T>,
    layers: Seq<Seq<T>>,
    images: Seq<Seq<T>>,
    labels: Seq<int>,
    layer_lr: T,
    head_lr: T,
    k: int,
    c: int,
)
    requires
        head.output_b.len() == 10,
        0 <= k < head.width,
        0 <= c < 10,
    ensures
        ({
            let g = step_gradients(
                ar,
                style,
                net,
                head,
                layers,
                images,
                labels,
                layer_lr,
                head_lr,
            );
            let n = images.len() as int;
            let last = forward(ar, net, layers, input_batch(ar, style, head, images));
            let by_logit = |i: int|
                {
                    let p = probabilities(ar, logits(ar, style, head, last[i], head.width))[c];
                    ar.times(
                        if c == labels[i] {
                            ar.minus(p, ar.whole(1))
                        } else {
                            p
                        },
                        ar.over(ar.whole(1), ar.whole(images.len() as u64)),
                    )
                };
            &&& last.len() == n
            &&& g.output_b[c] == total(ar, n, by_logit)
            &&& g.output_w[k][c] == total(ar, n, |i: int| ar.times(last[i][k], by_logit(i)))
        }),
{
    let hs = input_batch(ar, style, head, images);
    lemma_forward_count(ar, net, layers, hs);
    lemma_output_sums(ar, style, head, forward(ar, net, layers, hs), labels, k, c);
}

proof fn lemma_class_sums<T, A: Arith<T>>(
    ar: A,
    style: Style,
    weights: Seq<T>,
    g: Seq<T>,
    c: int,
    f: spec_fn(int) -> T,
)
    requires
        forall|m: int|
            0 <= m < c ==> #[trigger] f(m) == if style == Style::Narrow {
                ar.times(g[m], weights[m])
            } else {
                ar.times(weights[m], g[m])
            },
    ensures
        class_sum(ar, style, weights, g, c) == total(ar, c, f),
    decreases c,
{
    if c > 0 {
        lemma_class_sums(ar, style, weights, g, c - 1, f);
        assert(f(c - 1) == if style == Style::Narrow {
            ar.times(g[c - 1], weights[c - 1])
        } else {
            ar.times(weights[c - 1], g[c - 1])
        });
    }
}

/// How the loss of a batch changes with value `k` of what leaves the layers for a
/// sample: by the gradients of the logits of all ten classes, each times the weight of
/// the value in the class. This holds with rounding too.
pub proof fn law_leaving_gradients_weigh_all_classes<T, A: Arith<T>>(
    ar: A,
    style: Style,
    head: HeadView<T>,
    hs: Seq<Seq<T>>,
    labels: Seq<int>,
    lr: T,
    i: int,
    k: int,
)
    requires
        0 <= i < hs.len(),
        0 <= k < head.width,
    ensures
        output_step(ar, style, head, hs, labels, lr).grads.len() == hs.len(),
        output_step(ar, style, head, hs, labels, lr).grads[i].len() == head.width,
        ({
            let g = mean_logit_gradients(ar, style, head, hs, labels)[i];
            let w = head.output_w[k];
            let p = probabilities(ar, logits(ar, style, head, hs[i], head.width));
            &&& g.len() == p.len()
            &&& forall|c: int|
                0 <= c < p.len() ==> #[trigger] g[c] == ar.times(
                    if c == labels[i] {
                        ar.minus(p[c], ar.whole(1))
                    } else {
                        p[c]
                    },
                    ar.over(ar.whole(1), ar.whole(hs.len() as u64)),
                )
            &&& output_step(ar, style, head, hs, labels, lr).grads[i][k] == total(
                ar,
                10,
                |c: int|
                    if style == Style::Narrow {
                        ar.times(g[c], w[c])
                    } else {
                        ar.times(w[c], g[c])
                    },
            )
        }),
{
    let g = mean_logit_gradients(ar, style, head, hs, labels)[i];
    let w = head.output_w[k];
    lemma_class_sums(
        ar,
        style,
        w,
        g,
        10,
        |c: int|
            if style == Style::Narrow {
                ar.times(g[c], w[c])
            } else {
                ar.times(w[c], g[c])
            },
    );
}

/// The gradient of an input weight.
proof fn lemma_input_gradients<T, A: Arith<T>>(
    ar: A,
    style: Style,
    width: int,
    images: Seq<Seq<T>>,
    ds: Seq<Seq<T>>,
    n: int,
    k: int,
    j: int,
    keep: spec_fn(int) -> bool,
    f: spec_fn(int) -> T,
)
    requires
        0 <= n,
        0 <= k < 784,
        0 <= j < width,
        forall|i: int|
            0 <= i < n ==> #[trigger] keep(i) == !(style != Style::Narrow && ar.is_same(
                images[i][k],
                ar.whole(0),
            )),
        forall|i: int| 0 <= i < n ==> #[trigger] f(i) == ar.times(images[i][k], ds[i][j]),
    ensures
        input_gradient(ar, style, width, images, ds, n).len() == 784,
        input_gradient(ar, style, width, images, ds, n)[k].len() == width,
        input_gradient(ar, style, width, images, ds, n)[k][j] == summed_where(
            ar,
            ar.whole(0),
            n,
            keep,
            f,
        ),
    decreases n,
{
    if n > 0 {
        lemma_input_gradients(ar, style, width, images, ds, n - 1, k, j, keep, f);
        assert(keep(n - 1) == !(style != Style::Narrow && ar.is_same(
            images[n - 1][k],
            ar.whole(0),
        )));
        assert(f(n - 1) == ar.times(images[n - 1][k], ds[n - 1][j]));
    }
}

/// What the input part of a training step makes of the input weights and biases, for
/// whatever entered the layers and however the loss changes with it: each moves by `lr`
/// times the sum over all samples of the gradient of the sum that it belongs to, for a
/// weight times its pixel. The output part of the head stays as it is. This holds with
/// rounding too.
pub proof fn law_input_part_moves<T, A: Arith<T>>(
    ar: A,
    style: Style,
    head: HeadView<T>,
    images: Seq<Seq<T>>,
    hs: Seq<Seq<T>>,
    gs: Seq<Seq<T>>,
    lr: T,
    k: int,
    j: int,
)
    requires
        head.input_b.len() == head.width,
        head.input_w.len() == 784,
        0 <= k < 784,
        0 <= j < head.width,
        head.input_w[k].len() == head.width,
        hs.len() == images.len(),
        forall|i: int| 0 <= i < hs.len() ==> (#[trigger] hs[i]).len() == head.width,
    ensures
        ({
            let after = input_step(ar, style, head, images, hs, gs, lr);
            let n = images.len() as int;
            let by_sum = |i: int|
                if style != Style::Mlp {
                    ar.times(gs[i][j], ar.minus(ar.whole(1), ar.times(hs[i][j], hs[i][j])))
                } else if ar.is_at_most(hs[i][j], ar.whole(0)) {
                    ar.whole(0)
                } else {
                    gs[i][j]
                };
            &&& after.width == head.width
            &&& after.output_w == head.output_w
            &&& after.output_b == head.output_b
            &&& after.input_w.len() == 784
            &&& after.input_w[k].len() == head.width
            &&& after.input_b.len() == head.width
            &&& after.input_b[j] == ar.minus(
                head.input_b[j],
                ar.times(lr, total(ar, n, by_sum)),
            )
            &&& after.input_w[k][j] == ar.minus(
                head.input_w[k][j],
                ar.times(
                    lr,
                    summed_where(
                        ar,
                        ar.whole(0),
                        n,
                        |i: int| style == Style::Narrow || !ar.is_same(images[i][k], ar.whole(0)),
                        |i: int| ar.times(images[i][k], by_sum(i)),
                    ),
                ),
            )
        }),
{
    let n = images.len() as int;
    let ds = entering_deltas(ar, style, hs, gs);
    lemma_input_part_sums(ar, style, head.width, images, hs, gs, k, j);
    let after = input_step(ar, style, head, images, hs, gs, lr);
    assert(after.input_b == descended(
        ar,
        head.input_b,
        bias_gradient(ar, head.width, ds, n),
        lr,
    ));
    assert(after.input_w[k] == descended(
        ar,
        head.input_w[k],
        input_gradient(ar, style, head.width, images, ds, n)[k],
        lr,
    ));
}

/// The gradients of an input weight and of an input bias, sample by sample.
proof fn lemma_input_part_sums<T, A: Arith<T>>(
    ar: A,
    style: Style,
    width: int,
    images: Seq<Seq<T>>,
    hs: Seq<Seq<T>>,
    gs: Seq<Seq<T>>,
    k: int,
    j: int,
)
    requires
        0 <= k < 784,
        0 <= j < width,
        hs.len() == images.len(),
        forall|i: int| 0 <= i < hs.len() ==> (#[trigger] hs[i]).len() == width,
    ensures
        ({
            let n = images.len() as int;
            let ds = entering_deltas(ar, style, hs, gs);
            let by_sum = |i: int|
                if style != Style::Mlp {
                    ar.times(gs[i][j], ar.minus(ar.whole(1), ar.times(hs[i][j], hs[i][j])))
                } else if ar.is_at_most(hs[i][j], ar.whole(0)) {
                    ar.whole(0)
                } else {
                    gs[i][j]
                };
            &&& bias_gradient(ar, width, ds, n)[j] == total(ar, n, by_sum)
            &&& input_gradient(ar, style, width, images, ds, n)[k][j] == summed_where(
                ar,
                ar.whole(0),
                n,
                |i: int| style == Style::Narrow || !ar.is_same(images[i][k], ar.whole(0)),
                |i: int| ar.times(images[i][k], by_sum(i)),
            )
        }),
{
    let n = images.len() as int;
    let ds = entering_deltas(ar, style, hs, gs);
    let by_sum = |i: int|
        if style != Style::Mlp {
            ar.times(gs[i][j], ar.minus(ar.whole(1), ar.times(hs[i][j], hs[i][j])))
        } else if ar.is_at_most(hs[i][j], ar.whole(0)) {
            ar.whole(0)
        } else {
            gs[i][j]
        };
    let direct = |i: int| ds[i][j];
    assert forall|i: int| 0 <= i < n implies #[trigger] direct(i) == by_sum(i) by {
        assert(hs[i].len() == width);
        assert(ds[i] == entering_delta(ar, style, hs[i], gs[i]));
    }
    lemma_bias_gradient(ar, width, ds, n, j);
    lemma_total_ext(ar, n, direct, by_sum);
    let keep = |i: int| style == Style::Narrow || !ar.is_same(images[i][k], ar.whole(0));
    let f = |i: int| ar.times(images[i][k], by_sum(i));
    assert forall|i: int| 0 <= i < n implies #[trigger] f(i) == ar.times(
        images[i][k],
        ds[i][j],
    ) by {
        assert(direct(i) == by_sum(i));
    }
    lemma_input_gradients(ar, style, width, images, ds, n, k, j, keep, f);
}

/// The gradients of the input part of the head are sums over all samples of the
/// batch: a bias gets the gradient of the sum that it belongs to, a weight that
/// gradient times its pixel, where only the narrow network takes black pixels too. The
/// gradient of a sum is that of what it became, times the derivative of tanh, or for a
/// perceptron that gradient itself where the unit is active, and zero where it is not.
/// This holds with rounding too.
pub proof fn law_input_gradients_sum_over_the_batch<T, A: Arith<T>>(
    ar: A,
    style: Style,
    net: Net<T>,
    head: HeadView<T>,
    layers: Seq<Seq<T>>,
    images: Seq<Seq<T>>,
    labels: Seq<int>,
    layer_lr: T,
    head_lr: T,
    k: int,
    j: int,
)
    requires
        head.input_b.len() == head.width,
        0 <= k < 784,
        0 <= j < head.width,
    ensures
        ({
            let g = step_gradients(
                ar,
                style,
                net,
                head,
                layers,
                images,
                labels,
                layer_lr,
                head_lr,
            );
            let n = images.len() as int;
            let hs = input_batch(ar, style, head, images);
            let leaving = output_step(
                ar,
                style,
                head,
                forward(ar, net, layers, hs),
                labels,
                head_lr,
            ).grads;
            let entering = backward(ar, net, layers, hs, leaving, layer_lr).1;
            let by_sum = |i: int|
                if style != Style::Mlp {
                    ar.times(
                        entering[i][j],
                        ar.minus(ar.whole(1), ar.times(hs[i][j], hs[i][j])),
                    )
                } else if ar.is_at_most(hs[i][j], ar.whole(0)) {
                    ar.whole(0)
                } else {
                    entering[i][j]
                };
            &&& g.input_b[j] == total(ar, n, by_sum)
            &&& g.input_w[k][j] == summed_where(
                ar,
                ar.whole(0),
                n,
                |i: int| style == Style::Narrow || !ar.is_same(images[i][k], ar.whole(0)),
                |i: int| ar.times(images[i][k], by_sum(i)),
            )
        }),
{
    let hs = input_batch(ar, style, head, images);
    let leaving = output_step(
        ar,
        style,
        head,
        forward(ar, net, layers, hs),
        labels,
        head_lr,
    ).grads;
    let entering = backward(ar, net, layers, hs, leaving, layer_lr).1;
    assert forall|i: int| 0 <= i < hs.len() implies (#[trigger] hs[i]).len() == head.width by {
        lemma_input_sums_len(ar, style, head, images[i], 784);
    }
    lemma_input_part_sums(ar, style, head.width, images, hs, entering, k, j);
}

} // verus!
