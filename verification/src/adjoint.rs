use crate::activation::activated;
use crate::activation::slope;
use crate::arith::descended;
use crate::arith::Arith;
use crate::backward::backward;
use crate::backward::delta;
use crate::backward::deltas;
use crate::backward::gradient_term;
use crate::backward::gradients;
use crate::backward::input_gradient;
use crate::backward::parameter_gradient;
use crate::backward::sample_deltas;
use crate::backward::sample_gradients;
use crate::backward::trained_layer;
use crate::exact::exact;
use crate::exact::lemma_plus_assoc;
use crate::exact::lemma_plus_comm;
use crate::exact::lemma_plus_zero;
use crate::exact::lemma_times_assoc;
use crate::exact::lemma_times_comm;
use crate::exact::lemma_times_plus;
use crate::exact::lemma_total_ext;
use crate::exact::lemma_total_plus;
use crate::exact::lemma_total_rows;
use crate::exact::lemma_total_split;
use crate::exact::lemma_total_swap;
use crate::exact::lemma_total_times;
use crate::exact::total;
use crate::kernels::input_terms;
use crate::kernels::lemma_input_gradient;
use crate::kernels::lemma_parameter_gradient;
use crate::layout::layer_floats;
use crate::residual::forward;
use crate::residual::pre_activation;
use crate::residual::Net;
use vstd::arithmetic::div_mod::lemma_fundamental_div_mod_converse;
use vstd::prelude::*;

verus! {

/// The sum of the products of the first `n` values of `a` and `b`.
pub open spec fn dot<T, A: Arith<T>>(ar: A, n: int, a: Seq<T>, b: Seq<T>) -> T {
    total(ar, n, |i: int| ar.times(a[i], b[i]))
}

/// The sum of the products of the values of `a` and `b`, each `n` rows of `w`
/// values.
pub open spec fn batch_dot<T, A: Arith<T>>(
    ar: A,
    n: int,
    w: int,
    a: Seq<Seq<T>>,
    b: Seq<Seq<T>>,
) -> T {
    total(ar, n, |i: int| dot(ar, w, a[i], b[i]))
}

/// The derivative of the activation of output `o` of a layer.
pub open spec fn slope_at<T, A: Arith<T>>(
    ar: A,
    net: Net<T>,
    layer: Seq<T>,
    x: Seq<T>,
    o: int,
) -> T {
    let s = pre_activation(ar, net, layer, x, o);
    slope(ar, net.activation, s, activated(ar, net.activation, s))
}

/// How fast what output `o` of a layer activates changes, when the parameters
/// change at the rate `dlayer` and the inputs at the rate `dx`.
pub open spec fn activation_rate<T, A: Arith<T>>(
    ar: A,
    w: int,
    layer: Seq<T>,
    dlayer: Seq<T>,
    x: Seq<T>,
    dx: Seq<T>,
    o: int,
) -> T {
    ar.plus(
        dlayer[w * w + o],
        total(
            ar,
            w,
            |k: int|
                ar.plus(
                    ar.times(dx[k], layer[k * w + o]),
                    ar.times(x[k], dlayer[k * w + o]),
                ),
        ),
    )
}

/// How fast what a layer makes of one sample changes.
pub open spec fn sample_rate<T, A: Arith<T>>(
    ar: A,
    net: Net<T>,
    layer: Seq<T>,
    dlayer: Seq<T>,
    x: Seq<T>,
    dx: Seq<T>,
) -> Seq<T> {
    Seq::new(
        net.width as nat,
        |o: int|
            ar.plus(
                dx[o],
                ar.times(
                    ar.times(net.alpha, slope_at(ar, net, layer, x, o)),
                    activation_rate(ar, net.w(), layer, dlayer, x, dx, o),
                ),
            ),
    )
}

/// How fast what a layer makes of a batch changes.
pub open spec fn batch_rate<T, A: Arith<T>>(
    ar: A,
    net: Net<T>,
    layer: Seq<T>,
    dlayer: Seq<T>,
    hs: Seq<Seq<T>>,
    dhs: Seq<Seq<T>>,
) -> Seq<Seq<T>> {
    Seq::new(hs.len(), |i: int| sample_rate(ar, net, layer, dlayer, hs[i], dhs[i]))
}

/// How fast what a stack of layers makes of a batch changes, when the layers
/// change at the rate `dlayers` and the batch at the rate `dhs`: the derivative
/// of `forward`, worked out from the first layer to the last.
pub open spec fn forward_rate<T, A: Arith<T>>(
    ar: A,
    net: Net<T>,
    layers: Seq<Seq<T>>,
    dlayers: Seq<Seq<T>>,
    hs: Seq<Seq<T>>,
    dhs: Seq<Seq<T>>,
) -> Seq<Seq<T>>
    decreases layers.len(),
{
    if layers.len() == 0 {
        dhs
    } else {
        batch_rate(
            ar,
            net,
            layers.last(),
            dlayers[layers.len() - 1],
            forward(ar, net, layers.drop_last(), hs),
            forward_rate(ar, net, layers.drop_last(), dlayers, hs, dhs),
        )
    }
}

/// The gradient of the parameters of a layer.
pub open spec fn layer_gradient<T, A: Arith<T>>(
    ar: A,
    net: Net<T>,
    hs: Seq<Seq<T>>,
    ds: Seq<Seq<T>>,
) -> Seq<T> {
    Seq::new(layer_floats(net.w()) as nat, |p: int| parameter_gradient(ar, net, hs, ds, p))
}

/// The gradient of the parameters of each layer of a stack, worked out from the
/// last layer to the first.
pub open spec fn stack_gradient<T, A: Arith<T>>(
    ar: A,
    net: Net<T>,
    layers: Seq<Seq<T>>,
    hs: Seq<Seq<T>>,
    gs: Seq<Seq<T>>,
) -> Seq<Seq<T>>
    decreases layers.len(),
{
    if layers.len() == 0 {
        Seq::empty()
    } else {
        let layer = layers.last();
        let before = forward(ar, net, layers.drop_last(), hs);
        let ds = deltas(ar, net, layer, before, gs);
        stack_gradient(
            ar,
            net,
            layers.drop_last(),
            hs,
            gradients(ar, net, layer, gs, ds),
        ).push(layer_gradient(ar, net, before, ds))
    }
}

/// `a` times `b` plus `c`, multiplied out behind `g`: one output of a layer.
proof fn lemma_output_term<T, A: Arith<T>>(ar: A, g: T, dx: T, alpha: T, s: T, z: T)
    requires
        exact::<T, A>(ar),
    ensures
        ar.times(g, ar.plus(dx, ar.times(ar.times(alpha, s), z))) == ar.plus(
            ar.times(g, dx),
            ar.times(ar.times(ar.times(g, alpha), s), z),
        ),
{
    lemma_times_plus(ar, g, dx, ar.times(ar.times(alpha, s), z));
    lemma_times_assoc(ar, g, ar.times(alpha, s), z);
    lemma_times_assoc(ar, g, alpha, s);
}

/// One sample: its deltas times the rate of what is activated, with inputs and
/// parameters apart.
proof fn lemma_delta_rates<T, A: Arith<T>>(
    ar: A,
    w: int,
    layer: Seq<T>,
    dlayer: Seq<T>,
    x: Seq<T>,
    dx: Seq<T>,
    d: Seq<T>,
)
    requires
        exact::<T, A>(ar),
    ensures
        total(
            ar,
            w,
            |o: int| ar.times(d[o], activation_rate(ar, w, layer, dlayer, x, dx, o)),
        ) == ar.plus(
            total(ar, w, |o: int| ar.times(d[o], dlayer[w * w + o])),
            ar.plus(
                total(
                    ar,
                    w,
                    |o: int|
                        total(
                            ar,
                            w,
                            |k: int| ar.times(d[o], ar.times(dx[k], layer[k * w + o])),
                        ),
                ),
                total(
                    ar,
                    w,
                    |o: int|
                        total(
                            ar,
                            w,
                            |k: int| ar.times(d[o], ar.times(x[k], dlayer[k * w + o])),
                        ),
                ),
            ),
        ),
{
    let whole = |o: int| ar.times(d[o], activation_rate(ar, w, layer, dlayer, x, dx, o));
    let bias = |o: int| ar.times(d[o], dlayer[w * w + o]);
    let inputs = |o: int|
        total(ar, w, |k: int| ar.times(d[o], ar.times(dx[k], layer[k * w + o])));
    let weights = |o: int|
        total(ar, w, |k: int| ar.times(d[o], ar.times(x[k], dlayer[k * w + o])));
    let both = |o: int| ar.plus(inputs(o), weights(o));
    assert forall|o: int| 0 <= o < w implies #[trigger] whole(o) == ar.plus(bias(o), both(o)) by {
        let a = |k: int| ar.times(dx[k], layer[k * w + o]);
        let b = |k: int| ar.times(x[k], dlayer[k * w + o]);
        let rate = |k: int|
            ar.plus(
                ar.times(dx[k], layer[k * w + o]),
                ar.times(x[k], dlayer[k * w + o]),
            );
        lemma_total_ext(ar, w, rate, |k: int| ar.plus(a(k), b(k)));
        lemma_total_plus(ar, w, a, b);
        lemma_times_plus(ar, d[o], dlayer[w * w + o], total(ar, w, rate));
        lemma_times_plus(ar, d[o], total(ar, w, a), total(ar, w, b));
        lemma_total_times(ar, w, d[o], a);
        lemma_total_times(ar, w, d[o], b);
        lemma_total_ext(
            ar,
            w,
            |k: int| ar.times(d[o], a(k)),
            |k: int| ar.times(d[o], ar.times(dx[k], layer[k * w + o])),
        );
        lemma_total_ext(
            ar,
            w,
            |k: int| ar.times(d[o], b(k)),
            |k: int| ar.times(d[o], ar.times(x[k], dlayer[k * w + o])),
        );
    }
    lemma_total_ext(ar, w, whole, |o: int| ar.plus(bias(o), both(o)));
    lemma_total_plus(ar, w, bias, both);
    lemma_total_plus(ar, w, inputs, weights);
}

/// One sample: the deltas times the rate of the inputs, input by input.
proof fn lemma_input_rates<T, A: Arith<T>>(
    ar: A,
    w: int,
    layer: Seq<T>,
    dx: Seq<T>,
    d: Seq<T>,
)
    requires
        exact::<T, A>(ar),
    ensures
        total(
            ar,
            w,
            |o: int| total(ar, w, |k: int| ar.times(d[o], ar.times(dx[k], layer[k * w + o]))),
        ) == total(
            ar,
            w,
            |k: int| ar.times(total(ar, w, input_terms(ar, layer, w, d, k)), dx[k]),
        ),
{
    let f = |o: int, k: int| ar.times(d[o], ar.times(dx[k], layer[k * w + o]));
    let per_output = |o: int|
        total(ar, w, |k: int| ar.times(d[o], ar.times(dx[k], layer[k * w + o])));
    assert forall|o: int| 0 <= o < w implies #[trigger] per_output(o) == total(
        ar,
        w,
        |k: int| f(o, k),
    ) by {
        lemma_total_ext(
            ar,
            w,
            |k: int| ar.times(d[o], ar.times(dx[k], layer[k * w + o])),
            |k: int| f(o, k),
        );
    }
    lemma_total_ext(ar, w, per_output, |o: int| total(ar, w, |k: int| f(o, k)));
    lemma_total_swap(ar, w, w, f);
    let columns = |k: int| total(ar, w, |o: int| f(o, k));
    let wanted = |k: int| ar.times(total(ar, w, input_terms(ar, layer, w, d, k)), dx[k]);
    assert forall|k: int| 0 <= k < w implies #[trigger] columns(k) == wanted(k) by {
        let terms = input_terms(ar, layer, w, d, k);
        lemma_times_comm(ar, total(ar, w, terms), dx[k]);
        lemma_total_times(ar, w, dx[k], terms);
        let scaled = |o: int| ar.times(dx[k], terms(o));
        assert forall|o: int| 0 <= o < w implies #[trigger] scaled(o) == f(o, k) by {
            lemma_times_comm(ar, dx[k], terms(o));
            lemma_times_assoc(ar, d[o], layer[k * w + o], dx[k]);
            lemma_times_comm(ar, layer[k * w + o], dx[k]);
        }
        lemma_total_ext(ar, w, scaled, |o: int| f(o, k));
    }
    lemma_total_ext(ar, w, columns, wanted);
}

/// One sample: what it adds to the gradient of each parameter, times the rate of
/// the parameter.
proof fn lemma_parameter_rates<T, A: Arith<T>>(
    ar: A,
    w: int,
    dlayer: Seq<T>,
    hs: Seq<Seq<T>>,
    ds: Seq<Seq<T>>,
    i: int,
)
    requires
        exact::<T, A>(ar),
        0 < w,
    ensures
        total(
            ar,
            layer_floats(w),
            |p: int| ar.times(gradient_term(ar, w, hs, ds, p, i), dlayer[p]),
        ) == ar.plus(
            total(
                ar,
                w,
                |o: int|
                    total(
                        ar,
                        w,
                        |k: int| ar.times(ds[i][o], ar.times(hs[i][k], dlayer[k * w + o])),
                    ),
            ),
            total(ar, w, |o: int| ar.times(ds[i][o], dlayer[w * w + o])),
        ),
{
    let x = hs[i];
    let d = ds[i];
    let q = |p: int| ar.times(gradient_term(ar, w, hs, ds, p, i), dlayer[p]);
    assert(w * w >= 0) by (nonlinear_arith);
    lemma_total_split(ar, w * w, w, q);
    let tail = |o: int| q(w * w + o);
    let bias = |o: int| ar.times(d[o], dlayer[w * w + o]);
    assert forall|o: int| 0 <= o < w implies #[trigger] tail(o) == bias(o) by {}
    lemma_total_ext(ar, w, tail, bias);
    lemma_total_rows(ar, w, w, q);
    let f = |o: int, k: int| ar.times(d[o], ar.times(x[k], dlayer[k * w + o]));
    let per_row = |k: int| total(ar, w, |o: int| q(k * w + o));
    let columns = |k: int| total(ar, w, |o: int| f(o, k));
    assert forall|k: int| 0 <= k < w implies #[trigger] per_row(k) == columns(k) by {
        let cells = |o: int| q(k * w + o);
        assert forall|o: int| 0 <= o < w implies #[trigger] cells(o) == f(o, k) by {
            assert(0 <= k * w + o < w * w) by (nonlinear_arith)
                requires
                    0 <= k < w,
                    0 <= o < w,
            ;
            lemma_fundamental_div_mod_converse(k * w + o, w, k, o);
            lemma_times_comm(ar, x[k], d[o]);
            lemma_times_assoc(ar, d[o], x[k], dlayer[k * w + o]);
        }
        lemma_total_ext(ar, w, cells, |o: int| f(o, k));
    }
    lemma_total_ext(ar, w, per_row, columns);
    lemma_total_swap(ar, w, w, f);
    let per_output = |o: int|
        total(ar, w, |k: int| ar.times(d[o], ar.times(x[k], dlayer[k * w + o])));
    assert forall|o: int| 0 <= o < w implies #[trigger] per_output(o) == total(
        ar,
        w,
        |k: int| f(o, k),
    ) by {
        lemma_total_ext(
            ar,
            w,
            |k: int| ar.times(d[o], ar.times(x[k], dlayer[k * w + o])),
            |k: int| f(o, k),
        );
    }
    lemma_total_ext(ar, w, per_output, |o: int| total(ar, w, |k: int| f(o, k)));
}

/// One sample of a batch: what its outputs change by is what its inputs and the
/// parameters do.
proof fn lemma_sample_exact<T, A: Arith<T>>(
    ar: A,
    net: Net<T>,
    layer: Seq<T>,
    dlayer: Seq<T>,
    hs: Seq<Seq<T>>,
    dx: Seq<T>,
    gs: Seq<Seq<T>>,
    i: int,
)
    requires
        exact::<T, A>(ar),
        net.wf(),
        0 <= i < hs.len(),
    ensures
        ({
            let ds = deltas(ar, net, layer, hs, gs);
            dot(ar, net.w(), gs[i], sample_rate(ar, net, layer, dlayer, hs[i], dx)) == ar.plus(
                dot(ar, net.w(), sample_gradients(ar, net, layer, gs[i], ds[i]), dx),
                total(
                    ar,
                    layer_floats(net.w()),
                    |p: int| ar.times(gradient_term(ar, net.w(), hs, ds, p, i), dlayer[p]),
                ),
            )
        }),
{
    let w = net.w();
    let ds = deltas(ar, net, layer, hs, gs);
    let x = hs[i];
    let g = gs[i];
    let d = ds[i];
    assert(d == sample_deltas(ar, net, layer, x, g));
    let rate = sample_rate(ar, net, layer, dlayer, x, dx);
    let z = |o: int| activation_rate(ar, w, layer, dlayer, x, dx, o);

    let outputs = |o: int| ar.times(g[o], rate[o]);
    let direct = |o: int| ar.times(g[o], dx[o]);
    let through = |o: int| ar.times(d[o], activation_rate(ar, w, layer, dlayer, x, dx, o));
    assert forall|o: int| 0 <= o < w implies #[trigger] outputs(o) == ar.plus(
        direct(o),
        through(o),
    ) by {
        lemma_output_term(ar, g[o], dx[o], net.alpha, slope_at(ar, net, layer, x, o), z(o));
        assert(d[o] == delta(ar, net, layer, x, g, o));
    }
    lemma_total_ext(ar, w, outputs, |o: int| ar.plus(direct(o), through(o)));
    lemma_total_plus(ar, w, direct, through);
    lemma_delta_rates(ar, w, layer, dlayer, x, dx, d);
    lemma_input_rates(ar, w, layer, dx, d);
    lemma_parameter_rates(ar, w, dlayer, hs, ds, i);

    let entering = sample_gradients(ar, net, layer, g, d);
    let inputs = |k: int| ar.times(entering[k], dx[k]);
    let weighted = |k: int| ar.times(total(ar, w, input_terms(ar, layer, w, d, k)), dx[k]);
    assert forall|k: int| 0 <= k < w implies #[trigger] inputs(k) == ar.plus(
        direct(k),
        weighted(k),
    ) by {
        let s = total(ar, w, input_terms(ar, layer, w, d, k));
        assert(entering[k] == input_gradient(ar, net, layer, g, d, k));
        lemma_input_gradient(ar, net, layer, g, d, k);
        lemma_times_comm(ar, entering[k], dx[k]);
        lemma_times_plus(ar, dx[k], g[k], s);
        lemma_times_comm(ar, dx[k], g[k]);
        lemma_times_comm(ar, dx[k], s);
    }
    lemma_total_ext(ar, w, inputs, |k: int| ar.plus(direct(k), weighted(k)));
    lemma_total_plus(ar, w, direct, weighted);

    let a = total(ar, w, direct);
    let b = total(ar, w, |o: int| ar.times(d[o], dlayer[w * w + o]));
    let m = total(ar, w, weighted);
    let n = total(
        ar,
        w,
        |o: int| total(ar, w, |k: int| ar.times(d[o], ar.times(x[k], dlayer[k * w + o]))),
    );
    // a + (b + (m + n)) is (a + m) + (n + b).
    lemma_plus_comm(ar, b, ar.plus(m, n));
    lemma_plus_assoc(ar, m, n, b);
    lemma_plus_assoc(ar, a, m, ar.plus(n, b));
}

/// One layer: what the outputs of a batch change by is what its inputs and the
/// parameters do.
proof fn lemma_layer_exact<T, A: Arith<T>>(
    ar: A,
    net: Net<T>,
    layer: Seq<T>,
    dlayer: Seq<T>,
    hs: Seq<Seq<T>>,
    dhs: Seq<Seq<T>>,
    gs: Seq<Seq<T>>,
)
    requires
        exact::<T, A>(ar),
        net.wf(),
        gs.len() == hs.len(),
    ensures
        ({
            let n = hs.len() as int;
            let w = net.w();
            let ds = deltas(ar, net, layer, hs, gs);
            batch_dot(ar, n, w, gs, batch_rate(ar, net, layer, dlayer, hs, dhs)) == ar.plus(
                batch_dot(ar, n, w, gradients(ar, net, layer, gs, ds), dhs),
                dot(ar, layer_floats(w), layer_gradient(ar, net, hs, ds), dlayer),
            )
        }),
{
    let n = hs.len() as int;
    let w = net.w();
    let size = layer_floats(w);
    let ds = deltas(ar, net, layer, hs, gs);
    let rates = batch_rate(ar, net, layer, dlayer, hs, dhs);
    let entering = gradients(ar, net, layer, gs, ds);
    let leaving_dot = |i: int| dot(ar, w, gs[i], rates[i]);
    let entering_dot = |i: int| dot(ar, w, entering[i], dhs[i]);
    let f = |i: int, p: int| ar.times(gradient_term(ar, w, hs, ds, p, i), dlayer[p]);
    let added = |i: int| total(ar, size, |p: int| f(i, p));
    assert forall|i: int| 0 <= i < n implies #[trigger] leaving_dot(i) == ar.plus(
        entering_dot(i),
        added(i),
    ) by {
        lemma_sample_exact(ar, net, layer, dlayer, hs, dhs[i], gs, i);
        lemma_total_ext(
            ar,
            size,
            |p: int| ar.times(gradient_term(ar, w, hs, ds, p, i), dlayer[p]),
            |p: int| f(i, p),
        );
    }
    lemma_total_ext(ar, n, leaving_dot, |i: int| ar.plus(entering_dot(i), added(i)));
    lemma_total_plus(ar, n, entering_dot, added);
    lemma_total_swap(ar, n, size, f);

    let grad = layer_gradient(ar, net, hs, ds);
    let columns = |p: int| total(ar, n, |i: int| f(i, p));
    let wanted = |p: int| ar.times(grad[p], dlayer[p]);
    assert forall|p: int| 0 <= p < size implies #[trigger] columns(p) == wanted(p) by {
        let terms = |i: int| gradient_term(ar, w, hs, ds, p, i);
        lemma_parameter_gradient(ar, net, hs, ds, p);
        assert(grad[p] == total(ar, n, terms));
        lemma_times_comm(ar, grad[p], dlayer[p]);
        lemma_total_times(ar, n, dlayer[p], terms);
        let scaled = |i: int| ar.times(dlayer[p], terms(i));
        assert forall|i: int| 0 <= i < n implies #[trigger] scaled(i) == f(i, p) by {
            lemma_times_comm(ar, dlayer[p], terms(i));
        }
        lemma_total_ext(ar, n, scaled, |i: int| f(i, p));
    }
    lemma_total_ext(ar, size, columns, wanted);
}

/// The backward pass is exact: without rounding, and whatever the direction in
/// which the layers and the batch change, the change of what leaves the stack,
/// weighted with `gs`, is the change of what enters it, weighted with the
/// gradient that the backward pass hands back, plus the change of the layers,
/// weighted with the gradients that it descends along.
pub proof fn law_backward_is_exact<T, A: Arith<T>>(
    ar: A,
    net: Net<T>,
    layers: Seq<Seq<T>>,
    dlayers: Seq<Seq<T>>,
    hs: Seq<Seq<T>>,
    dhs: Seq<Seq<T>>,
    gs: Seq<Seq<T>>,
    lr: T,
)
    requires
        exact::<T, A>(ar),
        net.wf(),
        gs.len() == hs.len(),
    ensures
        ({
            let n = hs.len() as int;
            let w = net.w();
            let grads = stack_gradient(ar, net, layers, hs, gs);
            batch_dot(ar, n, w, gs, forward_rate(ar, net, layers, dlayers, hs, dhs)) == ar.plus(
                batch_dot(ar, n, w, backward(ar, net, layers, hs, gs, lr).1, dhs),
                batch_dot(ar, layers.len() as int, layer_floats(w), grads, dlayers),
            )
        }),
    decreases layers.len(),
{
    let n = hs.len() as int;
    let w = net.w();
    let size = layer_floats(w);
    let count = layers.len() as int;
    let grads = stack_gradient(ar, net, layers, hs, gs);
    if count == 0 {
        lemma_plus_zero(ar, batch_dot(ar, n, w, gs, dhs));
    } else {
        let rest = layers.drop_last();
        let layer = layers.last();
        let dlayer = dlayers[count - 1];
        let before = forward(ar, net, rest, hs);
        lemma_forward_count(ar, net, rest, hs);
        let dbefore = forward_rate(ar, net, rest, dlayers, hs, dhs);
        let ds = deltas(ar, net, layer, before, gs);
        let entering = gradients(ar, net, layer, gs, ds);
        lemma_layer_exact(ar, net, layer, dlayer, before, dbefore, gs);
        law_backward_is_exact(ar, net, rest, dlayers, hs, dhs, entering, lr);
        let fewer = stack_gradient(ar, net, rest, hs, entering);
        lemma_stack_gradient_len(ar, net, rest, hs, entering);
        let last = layer_gradient(ar, net, before, ds);
        lemma_total_ext(
            ar,
            count - 1,
            |l: int| dot(ar, size, fewer[l], dlayers[l]),
            |l: int| dot(ar, size, grads[l], dlayers[l]),
        );
        assert(grads[count - 1] == last);
        lemma_plus_assoc(
            ar,
            batch_dot(ar, n, w, backward(ar, net, layers, hs, gs, lr).1, dhs),
            total(ar, count - 1, |l: int| dot(ar, size, grads[l], dlayers[l])),
            dot(ar, size, last, dlayer),
        );
    }
}

pub proof fn lemma_forward_count<T, A: Arith<T>>(
    ar: A,
    net: Net<T>,
    layers: Seq<Seq<T>>,
    hs: Seq<Seq<T>>,
)
    ensures
        forward(ar, net, layers, hs).len() == hs.len(),
    decreases layers.len(),
{
    if layers.len() > 0 {
        lemma_forward_count(ar, net, layers.drop_last(), hs);
    }
}

pub proof fn lemma_stack_gradient_len<T, A: Arith<T>>(
    ar: A,
    net: Net<T>,
    layers: Seq<Seq<T>>,
    hs: Seq<Seq<T>>,
    gs: Seq<Seq<T>>,
)
    ensures
        stack_gradient(ar, net, layers, hs, gs).len() == layers.len(),
    decreases layers.len(),
{
    if layers.len() > 0 {
        let layer = layers.last();
        let before = forward(ar, net, layers.drop_last(), hs);
        let ds = deltas(ar, net, layer, before, gs);
        lemma_stack_gradient_len(
            ar,
            net,
            layers.drop_last(),
            hs,
            gradients(ar, net, layer, gs, ds),
        );
    }
}

/// The backward pass descends: every layer moves against its gradient, by the
/// learning rate. This holds with rounding too.
pub proof fn law_backward_descends<T, A: Arith<T>>(
    ar: A,
    net: Net<T>,
    layers: Seq<Seq<T>>,
    hs: Seq<Seq<T>>,
    gs: Seq<Seq<T>>,
    lr: T,
)
    requires
        forall|l: int|
            0 <= l < layers.len() ==> (#[trigger] layers[l]).len() == layer_floats(net.w()),
    ensures
        backward(ar, net, layers, hs, gs, lr).0.len() == layers.len(),
        forall|l: int|
            0 <= l < layers.len() ==> #[trigger] backward(ar, net, layers, hs, gs, lr).0[l]
                == descended(ar, layers[l], stack_gradient(ar, net, layers, hs, gs)[l], lr),
    decreases layers.len(),
{
    if layers.len() > 0 {
        let rest = layers.drop_last();
        let layer = layers.last();
        let before = forward(ar, net, rest, hs);
        let ds = deltas(ar, net, layer, before, gs);
        let entering = gradients(ar, net, layer, gs, ds);
        law_backward_descends(ar, net, rest, hs, entering, lr);
        lemma_stack_gradient_len(ar, net, rest, hs, entering);
        assert(layer == layers[layers.len() - 1]);
        assert(trained_layer(ar, net, layer, before, ds, lr) =~= descended(
            ar,
            layer,
            layer_gradient(ar, net, before, ds),
            lr,
        ));
        assert forall|l: int| 0 <= l < layers.len() implies #[trigger] backward(
            ar,
            net,
            layers,
            hs,
            gs,
            lr,
        ).0[l] == descended(ar, layers[l], stack_gradient(ar, net, layers, hs, gs)[l], lr) by {
            if l < rest.len() {
                assert(rest[l] == layers[l]);
                assert(backward(ar, net, rest, hs, entering, lr).0[l] == descended(
                    ar,
                    rest[l],
                    stack_gradient(ar, net, rest, hs, entering)[l],
                    lr,
                ));
            }
        }
    }
}

} // verus!
