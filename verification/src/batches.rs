use crate::adjoint::law_backward_descends;
use crate::adjoint::layer_gradient;
use crate::adjoint::lemma_forward_count;
use crate::adjoint::lemma_stack_gradient_len;
use crate::adjoint::stack_gradient;
use crate::arith::descended;
use crate::arith::Arith;
use crate::backward::backward;
use crate::backward::deltas;
use crate::backward::gradient_term;
use crate::backward::gradients;
use crate::backward::parameter_gradient;
use crate::backward::sample_deltas;
use crate::backward::sample_gradients;
use crate::chunking::law_samples_are_independent;
use crate::division::lemma_minus_minus;
use crate::division::lemma_minus_zero;
use crate::division::lemma_total_negated;
use crate::division::undoes;
use crate::exact::exact;
use crate::exact::lemma_plus_zero;
use crate::exact::lemma_times_comm;
use crate::exact::lemma_times_zero;
use crate::exact::lemma_total_ext;
use crate::exact::lemma_total_times;
use crate::exact::total;
use crate::kernels::law_backward_agrees;
use crate::kernels::lemma_parameter_gradient;
use crate::kernels::same_but_kernel;
use crate::layout::layer_floats;
use crate::residual::forward;
use crate::residual::Net;
use vstd::prelude::*;

verus! {

/// The deltas and gradients of a layer for one sample are those that it has in a
/// batch.
proof fn lemma_layer_sample<T, A: Arith<T>>(
    ar: A,
    net: Net<T>,
    layer: Seq<T>,
    hs: Seq<Seq<T>>,
    gs: Seq<Seq<T>>,
    i: int,
)
    requires
        gs.len() == hs.len(),
        0 <= i < hs.len(),
    ensures
        ({
            let ds = deltas(ar, net, layer, hs, gs);
            &&& deltas(ar, net, layer, seq![hs[i]], seq![gs[i]]) == seq![ds[i]]
            &&& gradients(ar, net, layer, seq![gs[i]], seq![ds[i]]) == seq![
                gradients(ar, net, layer, gs, ds)[i],
            ]
        }),
{
    let ds = deltas(ar, net, layer, hs, gs);
    assert(deltas(ar, net, layer, seq![hs[i]], seq![gs[i]]) =~= seq![
        sample_deltas(ar, net, layer, hs[i], gs[i]),
    ]);
    assert(gradients(ar, net, layer, seq![gs[i]], seq![ds[i]]) =~= seq![
        sample_gradients(ar, net, layer, gs[i], ds[i]),
    ]);
}

/// The gradient that the backward pass hands back for a sample does not depend on
/// the rest of the batch. This holds with rounding too.
pub proof fn law_gradient_is_per_sample<T, A: Arith<T>>(
    ar: A,
    net: Net<T>,
    layers: Seq<Seq<T>>,
    hs: Seq<Seq<T>>,
    gs: Seq<Seq<T>>,
    lr: T,
    i: int,
)
    requires
        gs.len() == hs.len(),
        0 <= i < hs.len(),
    ensures
        backward(ar, net, layers, hs, gs, lr).1.len() == gs.len(),
        backward(ar, net, layers, seq![hs[i]], seq![gs[i]], lr).1 == seq![
            backward(ar, net, layers, hs, gs, lr).1[i],
        ],
    decreases layers.len(),
{
    if layers.len() > 0 {
        let rest = layers.drop_last();
        let layer = layers.last();
        let before = forward(ar, net, rest, hs);
        law_samples_are_independent(ar, net, rest, hs, i);
        lemma_layer_sample(ar, net, layer, before, gs, i);
        let ds = deltas(ar, net, layer, before, gs);
        law_gradient_is_per_sample(
            ar,
            net,
            rest,
            hs,
            gradients(ar, net, layer, gs, ds),
            lr,
            i,
        );
    } else {
        assert(seq![gs[i]] =~= seq![backward(ar, net, layers, hs, gs, lr).1[i]]);
    }
}

/// One parameter of one layer: the gradient of a batch is the sum over its
/// samples.
proof fn lemma_layer_gradient_adds<T, A: Arith<T>>(
    ar: A,
    net: Net<T>,
    hs: Seq<Seq<T>>,
    ds: Seq<Seq<T>>,
    p: int,
)
    requires
        exact::<T, A>(ar),
        ds.len() == hs.len(),
    ensures
        parameter_gradient(ar, net, hs, ds, p) == total(
            ar,
            hs.len() as int,
            |i: int| parameter_gradient(ar, net, seq![hs[i]], seq![ds[i]], p),
        ),
{
    let n = hs.len() as int;
    let w = net.w();
    lemma_parameter_gradient(ar, net, hs, ds, p);
    let terms = |i: int| gradient_term(ar, w, hs, ds, p, i);
    let singles = |i: int| parameter_gradient(ar, net, seq![hs[i]], seq![ds[i]], p);
    assert forall|i: int| 0 <= i < n implies #[trigger] terms(i) == singles(i) by {
        let one = |j: int| gradient_term(ar, w, seq![hs[i]], seq![ds[i]], p, j);
        lemma_parameter_gradient(ar, net, seq![hs[i]], seq![ds[i]], p);
        assert(total(ar, 0, one) == ar.whole(0));
        lemma_plus_zero(ar, one(0));
    }
    lemma_total_ext(ar, n, terms, singles);
}

/// Without rounding, the gradient of every parameter for a batch is the sum of its
/// gradients for the samples, taken one by one.
pub proof fn law_gradients_of_samples_add_up<T, A: Arith<T>>(
    ar: A,
    net: Net<T>,
    layers: Seq<Seq<T>>,
    hs: Seq<Seq<T>>,
    gs: Seq<Seq<T>>,
    l: int,
    p: int,
)
    requires
        exact::<T, A>(ar),
        gs.len() == hs.len(),
        0 <= l < layers.len(),
        0 <= p < layer_floats(net.w()),
    ensures
        stack_gradient(ar, net, layers, hs, gs)[l][p] == total(
            ar,
            hs.len() as int,
            |i: int| stack_gradient(ar, net, layers, seq![hs[i]], seq![gs[i]])[l][p],
        ),
    decreases layers.len(),
{
    let n = hs.len() as int;
    let rest = layers.drop_last();
    let layer = layers.last();
    let before = forward(ar, net, rest, hs);
    lemma_forward_count(ar, net, rest, hs);
    let ds = deltas(ar, net, layer, before, gs);
    let entering = gradients(ar, net, layer, gs, ds);
    lemma_stack_gradient_len(ar, net, rest, hs, entering);
    let singles = |i: int| stack_gradient(ar, net, layers, seq![hs[i]], seq![gs[i]])[l][p];
    if l == layers.len() - 1 {
        lemma_layer_gradient_adds(ar, net, before, ds, p);
        let parts = |i: int| parameter_gradient(ar, net, seq![before[i]], seq![ds[i]], p);
        assert forall|i: int| 0 <= i < n implies #[trigger] parts(i) == singles(i) by {
            law_samples_are_independent(ar, net, rest, hs, i);
            lemma_layer_sample(ar, net, layer, before, gs, i);
            lemma_stack_gradient_len(ar, net, rest, seq![hs[i]], seq![entering[i]]);
            assert(layer_gradient(ar, net, seq![before[i]], seq![ds[i]])[p] == parts(i));
        }
        lemma_total_ext(ar, n, parts, singles);
    } else {
        law_gradients_of_samples_add_up(ar, net, rest, hs, entering, l, p);
        let parts = |i: int| stack_gradient(ar, net, rest, seq![hs[i]], seq![entering[i]])[l][p];
        assert forall|i: int| 0 <= i < n implies #[trigger] parts(i) == singles(i) by {
            law_samples_are_independent(ar, net, rest, hs, i);
            lemma_layer_sample(ar, net, layer, before, gs, i);
            lemma_stack_gradient_len(ar, net, rest, seq![hs[i]], seq![entering[i]]);
        }
        lemma_total_ext(ar, n, parts, singles);
    }
}

/// Without rounding, a step on a batch changes every parameter by the sum of what
/// steps on its samples, each from the same layers, change it by. The samples may
/// be run by another kernel than the batch.
pub proof fn law_changes_of_samples_add_up<T, A: Arith<T>>(
    ar: A,
    net: Net<T>,
    one: Net<T>,
    layers: Seq<Seq<T>>,
    hs: Seq<Seq<T>>,
    gs: Seq<Seq<T>>,
    lr: T,
    l: int,
    p: int,
)
    requires
        exact::<T, A>(ar),
        undoes::<T, A>(ar),
        same_but_kernel(net, one),
        gs.len() == hs.len(),
        forall|m: int|
            0 <= m < layers.len() ==> (#[trigger] layers[m]).len() == layer_floats(net.w()),
        0 <= l < layers.len(),
        0 <= p < layer_floats(net.w()),
    ensures
        ar.minus(backward(ar, net, layers, hs, gs, lr).0[l][p], layers[l][p]) == total(
            ar,
            hs.len() as int,
            |i: int|
                ar.minus(
                    backward(ar, one, layers, seq![hs[i]], seq![gs[i]], lr).0[l][p],
                    layers[l][p],
                ),
        ),
{
    let n = hs.len() as int;
    let a = layers[l][p];
    let grads = |i: int| stack_gradient(ar, net, layers, seq![hs[i]], seq![gs[i]])[l][p];
    let steps = |i: int| ar.times(lr, grads(i));
    let down = |i: int| ar.negated(steps(i));
    let changes = |i: int|
        ar.minus(backward(ar, one, layers, seq![hs[i]], seq![gs[i]], lr).0[l][p], a);
    law_backward_descends(ar, net, layers, hs, gs, lr);
    assert(backward(ar, net, layers, hs, gs, lr).0[l] == descended(
        ar,
        layers[l],
        stack_gradient(ar, net, layers, hs, gs)[l],
        lr,
    ));
    let whole = stack_gradient(ar, net, layers, hs, gs)[l][p];
    law_gradients_of_samples_add_up(ar, net, layers, hs, gs, l, p);
    lemma_minus_minus(ar, a, ar.times(lr, whole));
    lemma_total_times(ar, n, lr, grads);
    lemma_total_negated(ar, n, steps);
    assert forall|i: int| 0 <= i < n implies #[trigger] down(i) == changes(i) by {
        law_backward_agrees(ar, net, one, layers, seq![hs[i]], seq![gs[i]], lr);
        law_backward_descends(ar, net, layers, seq![hs[i]], seq![gs[i]], lr);
        assert(backward(ar, net, layers, seq![hs[i]], seq![gs[i]], lr).0[l] == descended(
            ar,
            layers[l],
            stack_gradient(ar, net, layers, seq![hs[i]], seq![gs[i]])[l],
            lr,
        ));
        lemma_minus_minus(ar, a, steps(i));
    }
    lemma_total_ext(ar, n, down, changes);
}

/// The gradient that the backward pass hands back does not depend on the learning
/// rate: it flows through the weights as they were before the step. This holds
/// with rounding too.
pub proof fn law_gradient_ignores_the_rate<T, A: Arith<T>>(
    ar: A,
    net: Net<T>,
    layers: Seq<Seq<T>>,
    hs: Seq<Seq<T>>,
    gs: Seq<Seq<T>>,
    a: T,
    b: T,
)
    ensures
        backward(ar, net, layers, hs, gs, a).1 == backward(ar, net, layers, hs, gs, b).1,
    decreases layers.len(),
{
    if layers.len() > 0 {
        let layer = layers.last();
        let before = forward(ar, net, layers.drop_last(), hs);
        let ds = deltas(ar, net, layer, before, gs);
        law_gradient_ignores_the_rate(
            ar,
            net,
            layers.drop_last(),
            hs,
            gradients(ar, net, layer, gs, ds),
            a,
            b,
        );
    }
}

/// A rate at which no parameter moves leaves the layers as they are. This holds
/// with rounding too.
pub proof fn law_idle_rate_keeps_the_layers<T, A: Arith<T>>(
    ar: A,
    net: Net<T>,
    layers: Seq<Seq<T>>,
    hs: Seq<Seq<T>>,
    gs: Seq<Seq<T>>,
    lr: T,
)
    requires
        forall|l: int|
            0 <= l < layers.len() ==> (#[trigger] layers[l]).len() == layer_floats(net.w()),
        forall|l: int, p: int|
            0 <= l < layers.len() && 0 <= p < layer_floats(net.w()) ==> ar.minus(
                #[trigger] layers[l][p],
                ar.times(lr, stack_gradient(ar, net, layers, hs, gs)[l][p]),
            ) == layers[l][p],
    ensures
        backward(ar, net, layers, hs, gs, lr).0 == layers,
{
    law_backward_descends(ar, net, layers, hs, gs, lr);
    let grads = stack_gradient(ar, net, layers, hs, gs);
    let after = backward(ar, net, layers, hs, gs, lr).0;
    assert forall|l: int| 0 <= l < layers.len() implies #[trigger] after[l] == layers[l] by {
        assert(after[l] == descended(ar, layers[l], grads[l], lr));
        assert(after[l] =~= layers[l]);
    }
    assert(after =~= layers);
}

/// Without rounding, a learning rate of zero leaves the layers as they are.
pub proof fn law_zero_rate_keeps_the_layers<T, A: Arith<T>>(
    ar: A,
    net: Net<T>,
    layers: Seq<Seq<T>>,
    hs: Seq<Seq<T>>,
    gs: Seq<Seq<T>>,
)
    requires
        exact::<T, A>(ar),
        undoes::<T, A>(ar),
        forall|l: int|
            0 <= l < layers.len() ==> (#[trigger] layers[l]).len() == layer_floats(net.w()),
    ensures
        backward(ar, net, layers, hs, gs, ar.whole(0)).0 == layers,
{
    let grads = stack_gradient(ar, net, layers, hs, gs);
    assert forall|l: int, p: int|
        0 <= l < layers.len() && 0 <= p < layer_floats(net.w()) implies ar.minus(
        #[trigger] layers[l][p],
        ar.times(ar.whole(0), grads[l][p]),
    ) == layers[l][p] by {
        lemma_times_comm(ar, ar.whole(0), grads[l][p]);
        lemma_times_zero(ar, grads[l][p]);
        lemma_minus_zero(ar, layers[l][p]);
    }
    law_idle_rate_keeps_the_layers(ar, net, layers, hs, gs, ar.whole(0));
}

} // verus!
