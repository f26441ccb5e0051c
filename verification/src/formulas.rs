use crate::activation::activated;
use crate::activation::slope;
use crate::activation::Activation;
use crate::adjoint::activation_rate;
use crate::arith::Arith;
use crate::backward::backward;
use crate::backward::delta;
use crate::backward::deltas;
use crate::backward::gradient_term;
use crate::backward::gradients;
use crate::backward::input_gradient;
use crate::backward::lane_sum;
use crate::backward::onto_gradient;
use crate::backward::parameter_gradient;
use crate::backward::trained_layer;
use crate::division::lemma_minus_plus;
use crate::division::lemma_minus_self;
use crate::division::lemma_over_times;
use crate::division::lemma_plus_cancel;
use crate::division::lemma_times_minus;
use crate::division::undoes;
use crate::exact::exact;
use crate::exact::lemma_plus_assoc;
use crate::exact::lemma_plus_cross;
use crate::exact::lemma_plus_zero;
use crate::exact::lemma_times_assoc;
use crate::exact::lemma_times_comm;
use crate::exact::lemma_times_one;
use crate::exact::lemma_times_plus;
use crate::exact::lemma_times_zero;
use crate::exact::lemma_total_exchanged;
use crate::exact::lemma_total_ext;
use crate::exact::lemma_total_plus;
use crate::exact::summed;
use crate::exact::summed_where;
use crate::exact::total;
use crate::kernels::lemma_pre_activation;
use crate::kernels::output_terms;
use crate::layout::layer_floats;
use crate::residual::forward;
use crate::residual::lemma_matrix_index;
use crate::residual::onto_bias;
use crate::residual::pre_activation;
use crate::residual::products;
use crate::residual::step_batch;
use crate::residual::step_sample;
use crate::residual::Kernel;
use crate::residual::Net;
use vstd::prelude::*;

verus! {

/// What the activations are, and what their derivatives.
pub proof fn law_activations<T, A: Arith<T>>(ar: A, x: T, y: T)
    ensures
        activated(ar, Activation::Tanh, x) == ar.tanh_of(x),
        activated(ar, Activation::Softsign, x) == ar.over(
            x,
            ar.plus(ar.whole(1), ar.magnitude(x)),
        ),
        activated(ar, Activation::Relu, x) == ar.larger(x, ar.whole(0)),
        slope(ar, Activation::Tanh, x, y) == ar.minus(ar.whole(1), ar.times(y, y)),
        slope(ar, Activation::Softsign, x, y) == ar.over(
            ar.whole(1),
            ar.times(
                ar.plus(ar.whole(1), ar.magnitude(x)),
                ar.plus(ar.whole(1), ar.magnitude(x)),
            ),
        ),
        ar.is_above(x, ar.whole(0)) ==> slope(ar, Activation::Relu, x, y) == ar.whole(1),
        !ar.is_above(x, ar.whole(0)) ==> slope(ar, Activation::Relu, x, y) == ar.whole(0),
{
}

/// The slope of softsign is its derivative: without rounding, and for two numbers of the
/// same sign, the difference of the values times both denominators is the difference of
/// the numbers, and the slope times the square of the denominator is one. The positive
/// part changes as its argument does where it is that argument, and not at all where it
/// is zero.
pub proof fn law_slopes_are_derivatives<T, A: Arith<T>>(ar: A, x: T, y: T)
    requires
        exact::<T, A>(ar),
        undoes::<T, A>(ar),
    ensures
        ({
            let a = ar.plus(ar.whole(1), ar.magnitude(x));
            let b = ar.plus(ar.whole(1), ar.magnitude(y));
            let s = activated(ar, Activation::Softsign, x);
            let t = activated(ar, Activation::Softsign, y);
            &&& a != ar.whole(0) && b != ar.whole(0) && ar.times(x, ar.magnitude(y)) == ar.times(
                y,
                ar.magnitude(x),
            ) ==> ar.times(ar.minus(s, t), ar.times(a, b)) == ar.minus(x, y)
            &&& ar.times(a, a) != ar.whole(0) ==> ar.times(
                slope(ar, Activation::Softsign, x, s),
                ar.times(a, a),
            ) == ar.whole(1)
        }),
        ({
            let s = activated(ar, Activation::Relu, x);
            let t = activated(ar, Activation::Relu, y);
            let zero = ar.whole(0);
            &&& ar.larger(x, zero) == x && ar.larger(y, zero) == y ==> ar.minus(s, t) == ar.minus(
                x,
                y,
            )
            &&& ar.larger(x, zero) == zero && ar.larger(y, zero) == zero ==> ar.minus(s, t) == zero
        }),
{
    let one = ar.whole(1);
    let mx = ar.magnitude(x);
    let my = ar.magnitude(y);
    let a = ar.plus(one, mx);
    let b = ar.plus(one, my);
    let s = activated(ar, Activation::Softsign, x);
    let t = activated(ar, Activation::Softsign, y);
    lemma_minus_self(ar, ar.whole(0));
    if ar.times(a, a) != ar.whole(0) {
        lemma_over_times(ar, one, ar.times(a, a));
    }
    if a != ar.whole(0) && b != ar.whole(0) && ar.times(x, my) == ar.times(y, mx) {
        let ab = ar.times(a, b);
        lemma_over_times(ar, x, a);
        lemma_over_times(ar, y, b);
        // s times a times b is x times b, which is x plus x times |y|.
        lemma_times_assoc(ar, s, a, b);
        lemma_times_plus(ar, x, one, my);
        lemma_times_one(ar, x);
        // t times a times b is y times a, which is y plus y times |x|.
        lemma_times_comm(ar, a, b);
        lemma_times_assoc(ar, t, b, a);
        lemma_times_plus(ar, y, one, mx);
        lemma_times_one(ar, y);
        lemma_times_comm(ar, ar.minus(s, t), ab);
        lemma_times_minus(ar, ab, s, t);
        lemma_times_comm(ar, ab, s);
        lemma_times_comm(ar, ab, t);
        // What both have is taken away.
        let c = ar.times(x, my);
        let u = ar.plus(x, c);
        let v = ar.plus(y, c);
        lemma_minus_plus(ar, u, v);
        lemma_minus_plus(ar, x, y);
        lemma_plus_assoc(ar, ar.minus(x, y), y, c);
        lemma_plus_cancel(ar, ar.minus(u, v), ar.minus(x, y), v);
    }
}

proof fn lemma_onto_bias_sums<T, A: Arith<T>>(
    ar: A,
    layer: Seq<T>,
    w: int,
    x: Seq<T>,
    o: int,
    k: int,
)
    ensures
        onto_bias(ar, layer, w, x, o, k) == summed(
            ar,
            layer[w * w + o],
            k,
            |i: int| ar.times(x[i], layer[i * w + o]),
        ),
    decreases k,
{
    if k > 0 {
        lemma_onto_bias_sums(ar, layer, w, x, o, k - 1);
    }
}

proof fn lemma_products_sum<T, A: Arith<T>>(
    ar: A,
    layer: Seq<T>,
    w: int,
    x: Seq<T>,
    o: int,
    k: int,
)
    requires
        1 <= k,
    ensures
        products(ar, layer, w, x, o, k) == summed(
            ar,
            ar.times(x[0], layer[o]),
            k - 1,
            |i: int| ar.times(x[i + 1], layer[(i + 1) * w + o]),
        ),
    decreases k,
{
    if k > 1 {
        lemma_products_sum(ar, layer, w, x, o, k - 1);
    } else {
        assert((k - 1) * w + o == o) by (nonlinear_arith)
            requires
                k == 1,
        ;
    }
}

/// What a layer activates, for every one of its outputs: the bias and all inputs,
/// each times its weight, in the order of the kernel. This holds with rounding too.
pub proof fn law_layers_weigh_all_inputs<T, A: Arith<T>>(
    ar: A,
    net: Net<T>,
    layer: Seq<T>,
    x: Seq<T>,
    o: int,
)
    requires
        net.wf(),
        0 <= o < net.width,
    ensures
        ({
            let w = net.width as int;
            let bias = layer[w * w + o];
            pre_activation(ar, net, layer, x, o) == match net.kernel {
                Kernel::BiasFirst => summed(
                    ar,
                    bias,
                    w,
                    |k: int| ar.times(x[k], layer[k * w + o]),
                ),
                Kernel::BiasLast => ar.plus(
                    summed(
                        ar,
                        ar.times(x[0], layer[o]),
                        w - 1,
                        |k: int| ar.times(x[k + 1], layer[(k + 1) * w + o]),
                    ),
                    bias,
                ),
                Kernel::Paired => ar.plus(
                    ar.plus(
                        ar.plus(ar.times(x[0], layer[o]), ar.times(x[1], layer[4 + o])),
                        ar.plus(ar.times(x[2], layer[8 + o]), ar.times(x[3], layer[12 + o])),
                    ),
                    bias,
                ),
            }
        }),
{
    let w = net.width as int;
    match net.kernel {
        Kernel::BiasFirst => {
            lemma_onto_bias_sums(ar, layer, w, x, o, w);
        },
        Kernel::BiasLast => {
            lemma_products_sum(ar, layer, w, x, o, w);
        },
        Kernel::Paired => {
            assert(w * w == 16) by (nonlinear_arith)
                requires
                    w == 4,
            ;
        },
    }
}

/// What a layer makes of a batch: to every value of every sample it adds `alpha`
/// times an activation, and no value is left out, whatever the width. Without layers
/// a batch stays as it is. This holds with rounding too; stacks of more layers are
/// taken apart by `law_forward_splits`.
pub proof fn law_layers_change_every_value<T, A: Arith<T>>(
    ar: A,
    net: Net<T>,
    layer: Seq<T>,
    hs: Seq<Seq<T>>,
    i: int,
    o: int,
)
    requires
        0 <= i < hs.len(),
        0 <= o < net.width,
    ensures
        forward(ar, net, Seq::empty(), hs) == hs,
        forward(ar, net, seq![layer], hs).len() == hs.len(),
        forward(ar, net, seq![layer], hs)[i].len() == net.width,
        ({
            let s = pre_activation(ar, net, layer, hs[i], o);
            let y = match net.activation {
                Activation::Tanh => ar.tanh_of(s),
                Activation::Softsign => ar.over(s, ar.plus(ar.whole(1), ar.magnitude(s))),
                Activation::Relu => ar.larger(s, ar.whole(0)),
            };
            forward(ar, net, seq![layer], hs)[i][o] == ar.plus(
                hs[i][o],
                ar.times(net.alpha, y),
            )
        }),
{
    reveal_with_fuel(forward, 2);
    assert(seq![layer].drop_last() =~= Seq::<Seq<T>>::empty());
    assert(forward(ar, net, seq![layer], hs) == step_batch(ar, net, layer, hs));
    assert(step_batch(ar, net, layer, hs)[i] == step_sample(ar, net, layer, hs[i]));
}

/// A layer is `h + alpha * activation(h W + b)`: without rounding, and whatever the
/// kernel and the width, value `o` of a sample gains `alpha` times the activation of
/// the bias of `o` plus the sum of all values, each times its weight in `o`.
pub proof fn law_layer_formula<T, A: Arith<T>>(
    ar: A,
    net: Net<T>,
    layer: Seq<T>,
    hs: Seq<Seq<T>>,
    i: int,
    o: int,
)
    requires
        exact::<T, A>(ar),
        net.wf(),
        0 <= i < hs.len(),
        0 <= o < net.width,
    ensures
        ({
            let w = net.width as int;
            let s = ar.plus(
                layer[w * w + o],
                total(ar, w, |k: int| ar.times(hs[i][k], layer[k * w + o])),
            );
            let y = match net.activation {
                Activation::Tanh => ar.tanh_of(s),
                Activation::Softsign => ar.over(s, ar.plus(ar.whole(1), ar.magnitude(s))),
                Activation::Relu => ar.larger(s, ar.whole(0)),
            };
            forward(ar, net, seq![layer], hs)[i][o] == ar.plus(
                hs[i][o],
                ar.times(net.alpha, y),
            )
        }),
{
    let w = net.width as int;
    law_layers_change_every_value(ar, net, layer, hs, i, o);
    lemma_pre_activation(ar, net, layer, hs[i], o);
    lemma_total_ext(
        ar,
        w,
        output_terms(ar, layer, w, hs[i], o),
        |k: int| ar.times(hs[i][k], layer[k * w + o]),
    );
}

/// A layer that counts for nothing changes nothing: without rounding, where `alpha` is
/// zero, every value of a batch stays as it is.
pub proof fn law_idle_layers_change_nothing<T, A: Arith<T>>(
    ar: A,
    net: Net<T>,
    layer: Seq<T>,
    hs: Seq<Seq<T>>,
    i: int,
    o: int,
)
    requires
        exact::<T, A>(ar),
        net.alpha == ar.whole(0),
        0 <= i < hs.len(),
        0 <= o < net.width,
    ensures
        forward(ar, net, seq![layer], hs)[i][o] == hs[i][o],
{
    law_layers_change_every_value(ar, net, layer, hs, i, o);
    let s = pre_activation(ar, net, layer, hs[i], o);
    let y = activated(ar, net.activation, s);
    lemma_times_comm(ar, ar.whole(0), y);
    lemma_times_zero(ar, y);
    lemma_plus_zero(ar, hs[i][o]);
}

/// The values of a layer are alike: without rounding, when two of them change places, in
/// the sample and in the rows, the columns and the bias of the layer, they change places
/// in what the layer makes of the sample, and nothing else changes. `at` says which value
/// stands where.
pub proof fn law_values_are_alike<T, A: Arith<T>>(
    ar: A,
    net: Net<T>,
    layer: Seq<T>,
    other: Seq<T>,
    x: Seq<T>,
    moved: Seq<T>,
    at: spec_fn(int) -> int,
    a: int,
    b: int,
    o: int,
)
    requires
        exact::<T, A>(ar),
        net.wf(),
        0 <= a < net.width,
        0 <= b < net.width,
        a != b,
        forall|j: int|
            #[trigger] at(j) == if j == a {
                b
            } else if j == b {
                a
            } else {
                j
            },
        forall|k: int| 0 <= k < net.width ==> #[trigger] moved[k] == x[at(k)],
        forall|k: int, j: int|
            #![trigger at(k), at(j)]
            0 <= k < net.width && 0 <= j < net.width ==> other[k * net.width + j] == layer[at(k)
                * net.width + at(j)],
        forall|j: int|
            0 <= j < net.width ==> other[net.width * net.width + j] == layer[net.width * net.width
                + #[trigger] at(j)],
        0 <= o < net.width,
    ensures
        forward(ar, net, seq![other], seq![moved])[0][o] == forward(
            ar,
            net,
            seq![layer],
            seq![x],
        )[0][at(o)],
{
    let w = net.width as int;
    let p = at(o);
    law_layer_formula(ar, net, other, seq![moved], 0, o);
    law_layer_formula(ar, net, layer, seq![x], 0, p);
    let f = |k: int| ar.times(x[k], layer[k * w + p]);
    let g = |k: int| ar.times(moved[k], other[k * w + o]);
    assert forall|k: int| 0 <= k < w implies #[trigger] g(k) == f(at(k)) by {
        assert(moved[k] == x[at(k)]);
        assert(other[k * w + o] == layer[at(k) * w + at(o)]);
    }
    assert(at(a) == b && at(b) == a);
    assert(g(a) == f(b) && g(b) == f(a));
    assert forall|k: int| 0 <= k < w && k != a && k != b implies #[trigger] g(k) == f(k) by {
        assert(at(k) == k);
    }
    lemma_total_exchanged(ar, w, a, b, f, g);
    assert(seq![moved][0] == moved && seq![x][0] == x);
    lemma_total_ext(ar, w, |k: int| ar.times(seq![moved][0][k], other[k * w + o]), g);
    lemma_total_ext(ar, w, |k: int| ar.times(seq![x][0][k], layer[k * w + p]), f);
    assert(moved[o] == x[at(o)]);
}

/// How what a layer activates changes, without rounding: when the parameters change by
/// `dlayer` and the values by `dx`, it changes by the change of the bias, plus for every
/// value its change times its weight and the value times the change of its weight, which
/// is its rate of change, plus the products of the two changes.
pub proof fn law_layers_change_at_their_rate<T, A: Arith<T>>(
    ar: A,
    net: Net<T>,
    layer: Seq<T>,
    dlayer: Seq<T>,
    x: Seq<T>,
    dx: Seq<T>,
    o: int,
)
    requires
        exact::<T, A>(ar),
        net.wf(),
        layer.len() == layer_floats(net.w()),
        dlayer.len() == layer.len(),
        x.len() == net.width,
        dx.len() == net.width,
        0 <= o < net.width,
    ensures
        ({
            let w = net.width as int;
            let moved = Seq::new(layer.len(), |p: int| ar.plus(layer[p], dlayer[p]));
            let mx = Seq::new(x.len(), |k: int| ar.plus(x[k], dx[k]));
            &&& activation_rate(ar, w, layer, dlayer, x, dx, o) == ar.plus(
                dlayer[w * w + o],
                total(
                    ar,
                    w,
                    |k: int|
                        ar.plus(
                            ar.times(dx[k], layer[k * w + o]),
                            ar.times(x[k], dlayer[k * w + o]),
                        ),
                ),
            )
            &&& pre_activation(ar, net, moved, mx, o) == ar.plus(
                ar.plus(
                    pre_activation(ar, net, layer, x, o),
                    activation_rate(ar, w, layer, dlayer, x, dx, o),
                ),
                total(ar, w, |k: int| ar.times(dx[k], dlayer[k * w + o])),
            )
        }),
{
    let w = net.width as int;
    let moved = Seq::new(layer.len(), |p: int| ar.plus(layer[p], dlayer[p]));
    let mx = Seq::new(x.len(), |k: int| ar.plus(x[k], dx[k]));
    lemma_pre_activation(ar, net, layer, x, o);
    lemma_pre_activation(ar, net, moved, mx, o);
    lemma_matrix_index(w, 0, o);
    let now = output_terms(ar, moved, w, mx, o);
    let before = output_terms(ar, layer, w, x, o);
    let rate = |k: int|
        ar.plus(ar.times(dx[k], layer[k * w + o]), ar.times(x[k], dlayer[k * w + o]));
    let second = |k: int| ar.times(dx[k], dlayer[k * w + o]);
    let first = |k: int| ar.plus(before(k), rate(k));
    assert forall|k: int| 0 <= k < w implies #[trigger] now(k) == ar.plus(
        first(k),
        second(k),
    ) by {
        lemma_matrix_index(w, k, o);
        lemma_product_of_sums(ar, x[k], dx[k], layer[k * w + o], dlayer[k * w + o]);
    }
    lemma_total_ext(ar, w, now, |k: int| ar.plus(first(k), second(k)));
    lemma_total_plus(ar, w, first, second);
    lemma_total_plus(ar, w, before, rate);
    let b = layer[w * w + o];
    let db = dlayer[w * w + o];
    let p = total(ar, w, before);
    let r = total(ar, w, rate);
    let s = total(ar, w, second);
    // (b + db) + ((p + r) + s) is ((b + p) + (db + r)) + s.
    lemma_plus_assoc(ar, ar.plus(b, db), ar.plus(p, r), s);
    lemma_plus_cross(ar, b, db, p, r);
}

/// The product of two sums of two.
proof fn lemma_product_of_sums<T, A: Arith<T>>(ar: A, x: T, dx: T, l: T, dl: T)
    requires
        exact::<T, A>(ar),
    ensures
        ar.times(ar.plus(x, dx), ar.plus(l, dl)) == ar.plus(
            ar.plus(ar.times(x, l), ar.plus(ar.times(dx, l), ar.times(x, dl))),
            ar.times(dx, dl),
        ),
{
    let m = ar.plus(x, dx);
    lemma_times_plus(ar, m, l, dl);
    lemma_times_comm(ar, m, l);
    lemma_times_plus(ar, l, x, dx);
    lemma_times_comm(ar, l, x);
    lemma_times_comm(ar, l, dx);
    lemma_times_comm(ar, m, dl);
    lemma_times_plus(ar, dl, x, dx);
    lemma_times_comm(ar, dl, x);
    lemma_times_comm(ar, dl, dx);
    let a = ar.times(x, l);
    let b = ar.times(dx, l);
    let c = ar.times(x, dl);
    let d = ar.times(dx, dl);
    // (a + b) + (c + d) is (a + (b + c)) + d.
    lemma_plus_assoc(ar, a, b, ar.plus(c, d));
    lemma_plus_assoc(ar, b, c, d);
    lemma_plus_assoc(ar, a, ar.plus(b, c), d);
}

/// How the loss changes with what output `o` of a layer activates: by its change with
/// the output, times `alpha`, times the derivative of the activation.
pub proof fn law_deltas<T, A: Arith<T>>(
    ar: A,
    net: Net<T>,
    layer: Seq<T>,
    hs: Seq<Seq<T>>,
    gs: Seq<Seq<T>>,
    i: int,
    o: int,
)
    requires
        0 <= i < hs.len(),
        0 <= o < net.width,
    ensures
        ({
            let s = pre_activation(ar, net, layer, hs[i], o);
            deltas(ar, net, layer, hs, gs)[i][o] == ar.times(
                ar.times(gs[i][o], net.alpha),
                slope(ar, net.activation, s, activated(ar, net.activation, s)),
            )
        }),
{
    assert(deltas(ar, net, layer, hs, gs)[i][o] == delta(ar, net, layer, hs[i], gs[i], o));
}

proof fn lemma_onto_gradient_sums<T, A: Arith<T>>(
    ar: A,
    layer: Seq<T>,
    w: int,
    d: Seq<T>,
    start: T,
    j: int,
    k: int,
)
    ensures
        onto_gradient(ar, layer, w, d, start, j, k) == summed(
            ar,
            start,
            k,
            |o: int| ar.times(d[o], layer[j * w + o]),
        ),
    decreases k,
{
    if k > 0 {
        lemma_onto_gradient_sums(ar, layer, w, d, start, j, k - 1);
    }
}

/// What a layer hands back for every value of every sample that entered it: its
/// gradient on the way past the layer, and the deltas of all outputs, each times the
/// weight of the value in that output. This holds with rounding too; stacks of more
/// layers are taken apart by `law_backward_splits`.
pub proof fn law_layers_hand_back_every_gradient<T, A: Arith<T>>(
    ar: A,
    net: Net<T>,
    layer: Seq<T>,
    hs: Seq<Seq<T>>,
    gs: Seq<Seq<T>>,
    lr: T,
    i: int,
    j: int,
)
    requires
        net.wf(),
        gs.len() == hs.len(),
        0 <= i < hs.len(),
        0 <= j < net.width,
    ensures
        backward(ar, net, Seq::empty(), hs, gs, lr) == (Seq::<Seq<T>>::empty(), gs),
        backward(ar, net, seq![layer], hs, gs, lr).1.len() == hs.len(),
        backward(ar, net, seq![layer], hs, gs, lr).1[i].len() == net.width,
        ({
            let w = net.width as int;
            let d = deltas(ar, net, layer, hs, gs)[i];
            backward(ar, net, seq![layer], hs, gs, lr).1[i][j] == if net.kernel == Kernel::Paired {
                ar.plus(
                    ar.plus(
                        ar.plus(
                            ar.times(d[0], layer[4 * j]),
                            ar.times(d[1], layer[4 * j + 1]),
                        ),
                        ar.plus(
                            ar.times(d[2], layer[4 * j + 2]),
                            ar.times(d[3], layer[4 * j + 3]),
                        ),
                    ),
                    gs[i][j],
                )
            } else {
                summed(ar, gs[i][j], w, |o: int| ar.times(d[o], layer[j * w + o]))
            }
        }),
{
    let w = net.width as int;
    reveal_with_fuel(forward, 2);
    reveal_with_fuel(backward, 2);
    assert(seq![layer].drop_last() =~= Seq::<Seq<T>>::empty());
    let ds = deltas(ar, net, layer, hs, gs);
    let d = ds[i];
    assert(backward(ar, net, seq![layer], hs, gs, lr).1 == gradients(ar, net, layer, gs, ds));
    assert(gradients(ar, net, layer, gs, ds)[i][j] == input_gradient(ar, net, layer, gs[i], d, j));
    lemma_onto_gradient_sums(ar, layer, w, d, gs[i][j], j, w);
}

proof fn lemma_lane_sums<T, A: Arith<T>>(
    ar: A,
    w: int,
    hs: Seq<Seq<T>>,
    ds: Seq<Seq<T>>,
    p: int,
    lane: int,
    lanes: int,
    n: int,
    keep: spec_fn(int) -> bool,
    f: spec_fn(int) -> T,
)
    requires
        forall|i: int| 0 <= i < n ==> #[trigger] keep(i) == (i % lanes == lane),
        forall|i: int| 0 <= i < n ==> #[trigger] f(i) == gradient_term(ar, w, hs, ds, p, i),
    ensures
        lane_sum(ar, w, hs, ds, p, lane, lanes, n) == summed_where(ar, ar.whole(0), n, keep, f),
    decreases n,
{
    if n > 0 {
        lemma_lane_sums(ar, w, hs, ds, p, lane, lanes, n - 1, keep, f);
        assert(keep(n - 1) == ((n - 1) % lanes == lane));
        assert(f(n - 1) == gradient_term(ar, w, hs, ds, p, n - 1));
    }
}

proof fn lemma_one_lane<T, A: Arith<T>>(
    ar: A,
    w: int,
    hs: Seq<Seq<T>>,
    ds: Seq<Seq<T>>,
    p: int,
    n: int,
    f: spec_fn(int) -> T,
)
    requires
        forall|i: int| 0 <= i < n ==> #[trigger] f(i) == gradient_term(ar, w, hs, ds, p, i),
    ensures
        lane_sum(ar, w, hs, ds, p, 0, 1, n) == summed(ar, ar.whole(0), n, f),
    decreases n,
{
    if n > 0 {
        lemma_one_lane(ar, w, hs, ds, p, n - 1, f);
        assert(f(n - 1) == gradient_term(ar, w, hs, ds, p, n - 1));
    }
}

/// What a step makes of every parameter of a layer, whatever the learning rate: it
/// takes from it `lr` times the sum of what all samples of the batch add to its
/// gradient. A weight gets from a sample the value that it weighs times the delta of
/// its output, a bias gets the delta. This holds with rounding too: the paired kernel
/// adds up eight lanes of samples on their own, the others add sample by sample.
pub proof fn law_layers_move_every_parameter<T, A: Arith<T>>(
    ar: A,
    net: Net<T>,
    layer: Seq<T>,
    hs: Seq<Seq<T>>,
    gs: Seq<Seq<T>>,
    lr: T,
    p: int,
)
    requires
        net.wf(),
        gs.len() == hs.len(),
        layer.len() == layer_floats(net.w()),
        0 <= p < layer.len(),
    ensures
        backward(ar, net, seq![layer], hs, gs, lr).0.len() == 1,
        backward(ar, net, seq![layer], hs, gs, lr).0[0].len() == layer.len(),
        ({
            let w = net.width as int;
            let n = hs.len() as int;
            let ds = deltas(ar, net, layer, hs, gs);
            let term = |i: int|
                if p < w * w {
                    ar.times(hs[i][p / w], ds[i][p % w])
                } else {
                    ds[i][p - w * w]
                };
            let lane = |l: int|
                summed_where(ar, ar.whole(0), n, |i: int| i % 8 == l, term);
            backward(ar, net, seq![layer], hs, gs, lr).0[0][p] == ar.minus(
                layer[p],
                ar.times(
                    lr,
                    if net.kernel == Kernel::Paired {
                        ar.plus(
                            ar.plus(ar.plus(lane(0), lane(1)), ar.plus(lane(2), lane(3))),
                            ar.plus(ar.plus(lane(4), lane(5)), ar.plus(lane(6), lane(7))),
                        )
                    } else {
                        summed(ar, ar.whole(0), n, term)
                    },
                ),
            )
        }),
{
    let w = net.width as int;
    let n = hs.len() as int;
    reveal_with_fuel(forward, 2);
    reveal_with_fuel(backward, 2);
    assert(seq![layer].drop_last() =~= Seq::<Seq<T>>::empty());
    let ds = deltas(ar, net, layer, hs, gs);
    let term = |i: int|
        if p < w * w {
            ar.times(hs[i][p / w], ds[i][p % w])
        } else {
            ds[i][p - w * w]
        };
    let lane = |l: int| summed_where(ar, ar.whole(0), n, |i: int| i % 8 == l, term);
    assert(backward(ar, net, seq![layer], hs, gs, lr).0[0] == trained_layer(
        ar,
        net,
        layer,
        hs,
        ds,
        lr,
    ));
    assert(trained_layer(ar, net, layer, hs, ds, lr)[p] == ar.minus(
        layer[p],
        ar.times(lr, parameter_gradient(ar, net, hs, ds, p)),
    ));
    if net.kernel == Kernel::Paired {
        assert forall|l: int| lane_sum(ar, w, hs, ds, p, l, 8, n) == #[trigger] lane(l) by {
            lemma_lane_sums(ar, w, hs, ds, p, l, 8, n, |i: int| i % 8 == l, term);
        }
        assert(lane(0) == lane_sum(ar, w, hs, ds, p, 0, 8, n));
        assert(lane(1) == lane_sum(ar, w, hs, ds, p, 1, 8, n));
        assert(lane(2) == lane_sum(ar, w, hs, ds, p, 2, 8, n));
        assert(lane(3) == lane_sum(ar, w, hs, ds, p, 3, 8, n));
        assert(lane(4) == lane_sum(ar, w, hs, ds, p, 4, 8, n));
        assert(lane(5) == lane_sum(ar, w, hs, ds, p, 5, 8, n));
        assert(lane(6) == lane_sum(ar, w, hs, ds, p, 6, 8, n));
        assert(lane(7) == lane_sum(ar, w, hs, ds, p, 7, 8, n));
    } else {
        lemma_one_lane(ar, w, hs, ds, p, n, term);
    }
}

} // verus!
