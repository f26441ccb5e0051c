use crate::arith::Arith;
use crate::backward::backward;
use crate::backward::delta;
use crate::backward::deltas;
use crate::backward::gradient_term;
use crate::backward::gradients;
use crate::backward::input_gradient;
use crate::backward::lane_sum;
use crate::backward::onto_gradient;
use crate::backward::parameter_gradient;
use crate::backward::sample_deltas;
use crate::backward::sample_gradients;
use crate::backward::trained_layer;
use crate::exact::exact;
use crate::exact::lemma_plus_assoc;
use crate::exact::lemma_plus_comm;
use crate::exact::lemma_plus_zero;
use crate::exact::lemma_total_ext;
use crate::exact::lemma_total_plus;
use crate::exact::lemma_total_single;
use crate::exact::lemma_total_split;
use crate::exact::lemma_total_zero;
use crate::exact::total;
use crate::residual::forward;
use crate::residual::onto_bias;
use crate::residual::paired;
use crate::residual::pre_activation;
use crate::residual::products;
use crate::residual::step_batch;
use crate::residual::step_sample;
use crate::residual::Kernel;
use crate::residual::Net;
use vstd::prelude::*;

verus! {

/// The terms of output `o` of a layer.
pub open spec fn output_terms<T, A: Arith<T>>(
    ar: A,
    layer: Seq<T>,
    w: int,
    x: Seq<T>,
    o: int,
) -> spec_fn(int) -> T {
    |k: int| ar.times(x[k], layer[k * w + o])
}

/// The terms of the gradient of input `j` of a layer.
pub open spec fn input_terms<T, A: Arith<T>>(
    ar: A,
    layer: Seq<T>,
    w: int,
    d: Seq<T>,
    j: int,
) -> spec_fn(int) -> T {
    |o: int| ar.times(d[o], layer[j * w + o])
}

/// Four terms in pairs.
proof fn lemma_four<T, A: Arith<T>>(ar: A, f: spec_fn(int) -> T)
    requires
        exact::<T, A>(ar),
    ensures
        total(ar, 4, f) == ar.plus(ar.plus(f(0), f(1)), ar.plus(f(2), f(3))),
{
    reveal_with_fuel(total, 5);
    lemma_plus_zero(ar, f(0));
    lemma_plus_assoc(ar, ar.plus(f(0), f(1)), f(2), f(3));
}

proof fn lemma_paired<T, A: Arith<T>>(
    ar: A,
    x: Seq<T>,
    y: Seq<T>,
    rest: T,
    f: spec_fn(int) -> T,
)
    requires
        exact::<T, A>(ar),
        forall|i: int| 0 <= i < 4 ==> #[trigger] f(i) == ar.times(x[i], y[i]),
    ensures
        paired(ar, x, y, rest) == ar.plus(rest, total(ar, 4, f)),
{
    lemma_four(ar, f);
    assert(f(0) == ar.times(x[0], y[0]));
    assert(f(1) == ar.times(x[1], y[1]));
    assert(f(2) == ar.times(x[2], y[2]));
    assert(f(3) == ar.times(x[3], y[3]));
    lemma_plus_comm(ar, rest, total(ar, 4, f));
}

proof fn lemma_onto_bias<T, A: Arith<T>>(ar: A, layer: Seq<T>, w: int, x: Seq<T>, o: int, k: int)
    requires
        exact::<T, A>(ar),
        0 <= k,
    ensures
        onto_bias(ar, layer, w, x, o, k) == ar.plus(
            layer[w * w + o],
            total(ar, k, output_terms(ar, layer, w, x, o)),
        ),
    decreases k,
{
    let f = output_terms(ar, layer, w, x, o);
    if k == 0 {
        lemma_plus_zero(ar, layer[w * w + o]);
    } else {
        lemma_onto_bias(ar, layer, w, x, o, k - 1);
        lemma_plus_assoc(ar, layer[w * w + o], total(ar, k - 1, f), f(k - 1));
    }
}

proof fn lemma_products<T, A: Arith<T>>(ar: A, layer: Seq<T>, w: int, x: Seq<T>, o: int, k: int)
    requires
        exact::<T, A>(ar),
        1 <= k,
    ensures
        products(ar, layer, w, x, o, k) == total(ar, k, output_terms(ar, layer, w, x, o)),
    decreases k,
{
    let f = output_terms(ar, layer, w, x, o);
    if k == 1 {
        assert(total(ar, 0, f) == ar.whole(0));
        lemma_plus_zero(ar, f(0));
    } else {
        lemma_products(ar, layer, w, x, o, k - 1);
    }
}

/// Without rounding, every kernel activates the bias plus the weighted inputs.
pub proof fn lemma_pre_activation<T, A: Arith<T>>(
    ar: A,
    net: Net<T>,
    layer: Seq<T>,
    x: Seq<T>,
    o: int,
)
    requires
        exact::<T, A>(ar),
        net.wf(),
    ensures
        pre_activation(ar, net, layer, x, o) == ar.plus(
            layer[net.w() * net.w() + o],
            total(ar, net.w(), output_terms(ar, layer, net.w(), x, o)),
        ),
{
    let w = net.w();
    let f = output_terms(ar, layer, w, x, o);
    match net.kernel {
        Kernel::BiasFirst => {
            lemma_onto_bias(ar, layer, w, x, o, w);
        },
        Kernel::BiasLast => {
            lemma_products(ar, layer, w, x, o, w);
            lemma_plus_comm(ar, layer[w * w + o], total(ar, w, f));
        },
        Kernel::Paired => {
            assert(w * w == 16) by (nonlinear_arith)
                requires
                    w == 4,
            ;
            lemma_paired(
                ar,
                x,
                seq![layer[o], layer[4 + o], layer[8 + o], layer[12 + o]],
                layer[16 + o],
                f,
            );
        },
    }
}

proof fn lemma_onto_gradient<T, A: Arith<T>>(
    ar: A,
    layer: Seq<T>,
    w: int,
    d: Seq<T>,
    start: T,
    j: int,
    k: int,
)
    requires
        exact::<T, A>(ar),
        0 <= k,
    ensures
        onto_gradient(ar, layer, w, d, start, j, k) == ar.plus(
            start,
            total(ar, k, input_terms(ar, layer, w, d, j)),
        ),
    decreases k,
{
    let f = input_terms(ar, layer, w, d, j);
    if k == 0 {
        lemma_plus_zero(ar, start);
    } else {
        lemma_onto_gradient(ar, layer, w, d, start, j, k - 1);
        lemma_plus_assoc(ar, start, total(ar, k - 1, f), f(k - 1));
    }
}

/// Without rounding, every kernel gives an input the gradient of its output plus
/// the weighted deltas.
pub proof fn lemma_input_gradient<T, A: Arith<T>>(
    ar: A,
    net: Net<T>,
    layer: Seq<T>,
    g: Seq<T>,
    d: Seq<T>,
    j: int,
)
    requires
        exact::<T, A>(ar),
        net.wf(),
    ensures
        input_gradient(ar, net, layer, g, d, j) == ar.plus(
            g[j],
            total(ar, net.w(), input_terms(ar, layer, net.w(), d, j)),
        ),
{
    let w = net.w();
    let f = input_terms(ar, layer, w, d, j);
    match net.kernel {
        Kernel::Paired => {
            assert(j * w == 4 * j) by (nonlinear_arith)
                requires
                    w == 4,
            ;
            lemma_paired(
                ar,
                d,
                seq![layer[4 * j], layer[4 * j + 1], layer[4 * j + 2], layer[4 * j + 3]],
                g[j],
                f,
            );
        },
        _ => {
            lemma_onto_gradient(ar, layer, w, d, g[j], j, w);
        },
    }
}

/// The lanes of a sum have the sum of all terms.
proof fn lemma_lanes<T, A: Arith<T>>(
    ar: A,
    w: int,
    hs: Seq<Seq<T>>,
    ds: Seq<Seq<T>>,
    p: int,
    lanes: int,
    n: int,
)
    requires
        exact::<T, A>(ar),
        0 < lanes,
        0 <= n,
    ensures
        total(ar, lanes, |lane: int| lane_sum(ar, w, hs, ds, p, lane, lanes, n)) == total(
            ar,
            n,
            |i: int| gradient_term(ar, w, hs, ds, p, i),
        ),
    decreases n,
{
    let sums = |lane: int| lane_sum(ar, w, hs, ds, p, lane, lanes, n);
    if n == 0 {
        lemma_total_zero::<T, A>(ar, lanes);
        lemma_total_ext(ar, lanes, sums, |i: int| ar.whole(0));
    } else {
        lemma_lanes(ar, w, hs, ds, p, lanes, n - 1);
        let r = (n - 1) % lanes;
        assert(0 <= r < lanes) by (nonlinear_arith)
            requires
                0 < lanes,
                r == (n - 1) % lanes,
        ;
        let t = gradient_term(ar, w, hs, ds, p, n - 1);
        let before = |lane: int| lane_sum(ar, w, hs, ds, p, lane, lanes, n - 1);
        let added = |lane: int|
            if lane == r {
                t
            } else {
                ar.whole(0)
            };
        lemma_total_single(ar, lanes, r, t);
        lemma_total_plus(ar, lanes, before, added);
        assert forall|lane: int| 0 <= lane < lanes implies #[trigger] sums(lane) == ar.plus(
            before(lane),
            added(lane),
        ) by {
            lemma_plus_zero(ar, before(lane));
        }
        lemma_total_ext(ar, lanes, sums, |lane: int| ar.plus(before(lane), added(lane)));
    }
}

/// Without rounding, every kernel gives a parameter the sum of what the samples
/// add.
pub proof fn lemma_parameter_gradient<T, A: Arith<T>>(
    ar: A,
    net: Net<T>,
    hs: Seq<Seq<T>>,
    ds: Seq<Seq<T>>,
    p: int,
)
    requires
        exact::<T, A>(ar),
    ensures
        parameter_gradient(ar, net, hs, ds, p) == total(
            ar,
            hs.len() as int,
            |i: int| gradient_term(ar, net.w(), hs, ds, p, i),
        ),
{
    let n = hs.len() as int;
    let w = net.w();
    match net.kernel {
        Kernel::Paired => {
            let sums = |lane: int| lane_sum(ar, w, hs, ds, p, lane, 8, n);
            lemma_lanes(ar, w, hs, ds, p, 8, n);
            lemma_total_split(ar, 4, 4, sums);
            lemma_four(ar, sums);
            lemma_four(ar, |j: int| sums(4 + j));
        },
        _ => {
            let sums = |lane: int| lane_sum(ar, w, hs, ds, p, lane, 1, n);
            lemma_lanes(ar, w, hs, ds, p, 1, n);
            assert(total(ar, 0, sums) == ar.whole(0));
            lemma_plus_zero(ar, sums(0));
        },
    }
}

/// Two nets that differ in nothing but the kernel.
pub open spec fn same_but_kernel<T>(a: Net<T>, b: Net<T>) -> bool {
    &&& a.wf()
    &&& b.wf()
    &&& a.width == b.width
    &&& a.alpha == b.alpha
    &&& a.activation == b.activation
}

proof fn lemma_step_agrees<T, A: Arith<T>>(
    ar: A,
    a: Net<T>,
    b: Net<T>,
    layer: Seq<T>,
    hs: Seq<Seq<T>>,
)
    requires
        exact::<T, A>(ar),
        same_but_kernel(a, b),
    ensures
        step_batch(ar, a, layer, hs) == step_batch(ar, b, layer, hs),
{
    assert forall|i: int| 0 <= i < hs.len() implies step_sample(ar, a, layer, hs[i])
        == step_sample(ar, b, layer, hs[i]) by {
        assert forall|o: int| 0 <= o < a.width implies pre_activation(ar, a, layer, hs[i], o)
            == pre_activation(ar, b, layer, hs[i], o) by {
            lemma_pre_activation(ar, a, layer, hs[i], o);
            lemma_pre_activation(ar, b, layer, hs[i], o);
        }
        assert(step_sample(ar, a, layer, hs[i]) =~= step_sample(ar, b, layer, hs[i]));
    }
    assert(step_batch(ar, a, layer, hs) =~= step_batch(ar, b, layer, hs));
}

proof fn lemma_layer_agrees<T, A: Arith<T>>(
    ar: A,
    a: Net<T>,
    b: Net<T>,
    layer: Seq<T>,
    hs: Seq<Seq<T>>,
    gs: Seq<Seq<T>>,
    lr: T,
)
    requires
        exact::<T, A>(ar),
        same_but_kernel(a, b),
    ensures
        ({
            let ds = deltas(ar, a, layer, hs, gs);
            &&& ds == deltas(ar, b, layer, hs, gs)
            &&& gradients(ar, a, layer, gs, ds) == gradients(ar, b, layer, gs, ds)
            &&& trained_layer(ar, a, layer, hs, ds, lr) == trained_layer(ar, b, layer, hs, ds, lr)
        }),
{
    let ds = deltas(ar, a, layer, hs, gs);
    assert forall|i: int| 0 <= i < hs.len() implies sample_deltas(ar, a, layer, hs[i], gs[i])
        == sample_deltas(ar, b, layer, hs[i], gs[i]) by {
        assert forall|o: int| 0 <= o < a.width implies delta(ar, a, layer, hs[i], gs[i], o)
            == delta(ar, b, layer, hs[i], gs[i], o) by {
            lemma_pre_activation(ar, a, layer, hs[i], o);
            lemma_pre_activation(ar, b, layer, hs[i], o);
        }
        assert(sample_deltas(ar, a, layer, hs[i], gs[i]) =~= sample_deltas(
            ar,
            b,
            layer,
            hs[i],
            gs[i],
        ));
    }
    assert(ds =~= deltas(ar, b, layer, hs, gs));
    assert forall|i: int| 0 <= i < gs.len() implies sample_gradients(ar, a, layer, gs[i], ds[i])
        == sample_gradients(ar, b, layer, gs[i], ds[i]) by {
        assert forall|j: int| 0 <= j < a.width implies input_gradient(
            ar,
            a,
            layer,
            gs[i],
            ds[i],
            j,
        ) == input_gradient(ar, b, layer, gs[i], ds[i], j) by {
            lemma_input_gradient(ar, a, layer, gs[i], ds[i], j);
            lemma_input_gradient(ar, b, layer, gs[i], ds[i], j);
        }
        assert(sample_gradients(ar, a, layer, gs[i], ds[i]) =~= sample_gradients(
            ar,
            b,
            layer,
            gs[i],
            ds[i],
        ));
    }
    assert(gradients(ar, a, layer, gs, ds) =~= gradients(ar, b, layer, gs, ds));
    assert forall|p: int| parameter_gradient(ar, a, hs, ds, p) == parameter_gradient(
        ar,
        b,
        hs,
        ds,
        p,
    ) by {
        lemma_parameter_gradient(ar, a, hs, ds, p);
        lemma_parameter_gradient(ar, b, hs, ds, p);
    }
    assert(trained_layer(ar, a, layer, hs, ds, lr) =~= trained_layer(ar, b, layer, hs, ds, lr));
}

/// The kernels differ in rounding alone: without it, all of them run a batch
/// through a stack of layers with the same result.
pub proof fn law_forward_agrees<T, A: Arith<T>>(
    ar: A,
    a: Net<T>,
    b: Net<T>,
    layers: Seq<Seq<T>>,
    hs: Seq<Seq<T>>,
)
    requires
        exact::<T, A>(ar),
        same_but_kernel(a, b),
    ensures
        forward(ar, a, layers, hs) == forward(ar, b, layers, hs),
    decreases layers.len(),
{
    if layers.len() > 0 {
        law_forward_agrees(ar, a, b, layers.drop_last(), hs);
        lemma_step_agrees(ar, a, b, layers.last(), forward(ar, a, layers.drop_last(), hs));
    }
}

/// The kernels differ in rounding alone: without it, all of them take the same
/// step of gradient descent and hand back the same gradient.
pub proof fn law_backward_agrees<T, A: Arith<T>>(
    ar: A,
    a: Net<T>,
    b: Net<T>,
    layers: Seq<Seq<T>>,
    hs: Seq<Seq<T>>,
    gs: Seq<Seq<T>>,
    lr: T,
)
    requires
        exact::<T, A>(ar),
        same_but_kernel(a, b),
    ensures
        backward(ar, a, layers, hs, gs, lr) == backward(ar, b, layers, hs, gs, lr),
    decreases layers.len(),
{
    if layers.len() > 0 {
        let layer = layers.last();
        law_forward_agrees(ar, a, b, layers.drop_last(), hs);
        let before = forward(ar, a, layers.drop_last(), hs);
        lemma_layer_agrees(ar, a, b, layer, before, gs, lr);
        let ds = deltas(ar, a, layer, before, gs);
        law_backward_agrees(
            ar,
            a,
            b,
            layers.drop_last(),
            hs,
            gradients(ar, a, layer, gs, ds),
            lr,
        );
    }
}

} // verus!
