use crate::activation::activate;
use crate::activation::activate_derivative;
use crate::activation::activated;
use crate::activation::slope;
use crate::arith::descended;
use crate::arith::faithful;
use crate::arith::filled;
use crate::arith::Arith;
use crate::layout::dense_layer_floats;
use crate::layout::layer_floats;
use crate::residual::forward;
use crate::residual::forward_layer;
use crate::residual::lemma_matrix_index;
use crate::residual::paired;
use crate::residual::pre_activate;
use crate::residual::pre_activation;
use crate::residual::Kernel;
use crate::residual::Net;
use crate::rows::copied;
use crate::rows::row;
use crate::rows::rows;
use crate::rows::set_row;
use vstd::arithmetic::div_mod::lemma_fundamental_div_mod;
use vstd::prelude::*;
use vstd::slice::slice_to_vec;

verus! {

/// How the loss changes with what output `o` of a layer activates, where `g`
/// is how it changes with the outputs.
pub open spec fn delta<T, A: Arith<T>>(
    ar: A,
    net: Net<T>,
    layer: Seq<T>,
    x: Seq<T>,
    g: Seq<T>,
    o: int,
) -> T {
    let s = pre_activation(ar, net, layer, x, o);
    ar.times(
        ar.times(g[o], net.alpha),
        slope(ar, net.activation, s, activated(ar, net.activation, s)),
    )
}

/// The deltas of one sample.
pub open spec fn sample_deltas<T, A: Arith<T>>(
    ar: A,
    net: Net<T>,
    layer: Seq<T>,
    x: Seq<T>,
    g: Seq<T>,
) -> Seq<T> {
    Seq::new(net.width as nat, |o: int| delta(ar, net, layer, x, g, o))
}

/// The deltas of a batch.
pub open spec fn deltas<T, A: Arith<T>>(
    ar: A,
    net: Net<T>,
    layer: Seq<T>,
    hs: Seq<Seq<T>>,
    gs: Seq<Seq<T>>,
) -> Seq<Seq<T>> {
    Seq::new(hs.len(), |i: int| sample_deltas(ar, net, layer, hs[i], gs[i]))
}

/// `start` plus the first `k` deltas times the weights of input `j`, in order.
pub open spec fn onto_gradient<T, A: Arith<T>>(
    ar: A,
    layer: Seq<T>,
    w: int,
    d: Seq<T>,
    start: T,
    j: int,
    k: int,
) -> T
    decreases k,
{
    if k <= 0 {
        start
    } else {
        ar.plus(
            onto_gradient(ar, layer, w, d, start, j, k - 1),
            ar.times(d[k - 1], layer[j * w + (k - 1)]),
        )
    }
}

/// How the loss changes with input `j` of a layer.
pub open spec fn input_gradient<T, A: Arith<T>>(
    ar: A,
    net: Net<T>,
    layer: Seq<T>,
    g: Seq<T>,
    d: Seq<T>,
    j: int,
) -> T {
    match net.kernel {
        Kernel::Paired => paired(
            ar,
            d,
            seq![layer[4 * j], layer[4 * j + 1], layer[4 * j + 2], layer[4 * j + 3]],
            g[j],
        ),
        _ => onto_gradient(ar, layer, net.w(), d, g[j], j, net.w()),
    }
}

/// How the loss changes with the inputs of a layer, for one sample.
pub open spec fn sample_gradients<T, A: Arith<T>>(
    ar: A,
    net: Net<T>,
    layer: Seq<T>,
    g: Seq<T>,
    d: Seq<T>,
) -> Seq<T> {
    Seq::new(net.width as nat, |j: int| input_gradient(ar, net, layer, g, d, j))
}

/// How the loss changes with the inputs of a layer, for a batch.
pub open spec fn gradients<T, A: Arith<T>>(
    ar: A,
    net: Net<T>,
    layer: Seq<T>,
    gs: Seq<Seq<T>>,
    ds: Seq<Seq<T>>,
) -> Seq<Seq<T>> {
    Seq::new(gs.len(), |i: int| sample_gradients(ar, net, layer, gs[i], ds[i]))
}

/// What sample `i` adds to the gradient of parameter `p`.
pub open spec fn gradient_term<T, A: Arith<T>>(
    ar: A,
    w: int,
    hs: Seq<Seq<T>>,
    ds: Seq<Seq<T>>,
    p: int,
    i: int,
) -> T {
    if p < w * w {
        ar.times(hs[i][p / w], ds[i][p % w])
    } else {
        ds[i][p - w * w]
    }
}

/// What the first `n` samples add to lane `lane` of the gradient of parameter
/// `p`, in order.
pub open spec fn lane_sum<T, A: Arith<T>>(
    ar: A,
    w: int,
    hs: Seq<Seq<T>>,
    ds: Seq<Seq<T>>,
    p: int,
    lane: int,
    lanes: int,
    n: int,
) -> T
    decreases n,
{
    if n <= 0 {
        ar.whole(0)
    } else {
        let before = lane_sum(ar, w, hs, ds, p, lane, lanes, n - 1);
        if (n - 1) % lanes == lane {
            ar.plus(before, gradient_term(ar, w, hs, ds, p, n - 1))
        } else {
            before
        }
    }
}

/// How the loss changes with parameter `p` of a layer.
pub open spec fn parameter_gradient<T, A: Arith<T>>(
    ar: A,
    net: Net<T>,
    hs: Seq<Seq<T>>,
    ds: Seq<Seq<T>>,
    p: int,
) -> T {
    let n = hs.len() as int;
    let w = net.w();
    match net.kernel {
        Kernel::Paired => ar.plus(
            ar.plus(
                ar.plus(
                    lane_sum(ar, w, hs, ds, p, 0, 8, n),
                    lane_sum(ar, w, hs, ds, p, 1, 8, n),
                ),
                ar.plus(
                    lane_sum(ar, w, hs, ds, p, 2, 8, n),
                    lane_sum(ar, w, hs, ds, p, 3, 8, n),
                ),
            ),
            ar.plus(
                ar.plus(
                    lane_sum(ar, w, hs, ds, p, 4, 8, n),
                    lane_sum(ar, w, hs, ds, p, 5, 8, n),
                ),
                ar.plus(
                    lane_sum(ar, w, hs, ds, p, 6, 8, n),
                    lane_sum(ar, w, hs, ds, p, 7, 8, n),
                ),
            ),
        ),
        _ => lane_sum(ar, w, hs, ds, p, 0, 1, n),
    }
}

/// A layer after one step of gradient descent.
pub open spec fn trained_layer<T, A: Arith<T>>(
    ar: A,
    net: Net<T>,
    layer: Seq<T>,
    hs: Seq<Seq<T>>,
    ds: Seq<Seq<T>>,
    lr: T,
) -> Seq<T> {
    descended(
        ar,
        layer,
        Seq::new(layer.len(), |p: int| parameter_gradient(ar, net, hs, ds, p)),
        lr,
    )
}

/// One step of gradient descent on a stack of layers. `hs` enters the first
/// layer, and `gs` is how the loss changes with what leaves the last. Returns
/// the layers after the step and how the loss changed with `hs` before it.
pub open spec fn backward<T, A: Arith<T>>(
    ar: A,
    net: Net<T>,
    layers: Seq<Seq<T>>,
    hs: Seq<Seq<T>>,
    gs: Seq<Seq<T>>,
    lr: T,
) -> (Seq<Seq<T>>, Seq<Seq<T>>)
    decreases layers.len(),
{
    if layers.len() == 0 {
        (layers, gs)
    } else {
        let layer = layers.last();
        let before = forward(ar, net, layers.drop_last(), hs);
        let ds = deltas(ar, net, layer, before, gs);
        let (rest, g) = backward(
            ar,
            net,
            layers.drop_last(),
            hs,
            gradients(ar, net, layer, gs, ds),
            lr,
        );
        (rest.push(trained_layer(ar, net, layer, before, ds, lr)), g)
    }
}

/// The deltas of one sample.
fn delta_row<T: Copy, A: Arith<T>>(ar: &A, net: &Net<T>, layer: &[T], x: &[T], g: &[T]) -> (d: Vec<
    T,
>)
    requires
        net.wf(),
        layer@.len() == layer_floats(net.w()),
        x@.len() == net.width,
        g@.len() == net.width,
    ensures
        d@.len() == net.width,
        faithful::<T, A>(*ar) ==> d@ == sample_deltas(*ar, *net, layer@, x@, g@),
{
    let mut d: Vec<T> = Vec::with_capacity(net.width);
    let mut o: usize = 0;
    while o < net.width
        invariant
            o <= net.width,
            net.wf(),
            layer@.len() == layer_floats(net.w()),
            x@.len() == net.width,
            g@.len() == net.width,
            d@.len() == o,
            faithful::<T, A>(*ar) ==> forall|k: int|
                0 <= k < o ==> d@[k] == sample_deltas(*ar, *net, layer@, x@, g@)[k],
        decreases net.width - o,
    {
        let s = pre_activate(ar, net, layer, x, o);
        let y = activate(ar, s, net.activation);
        let scaled = ar.mul(g[o], net.alpha);
        d.push(ar.mul(scaled, activate_derivative(ar, s, y, net.activation)));
        o += 1;
    }
    proof {
        if faithful::<T, A>(*ar) {
            assert(d@ =~= sample_deltas(*ar, *net, layer@, x@, g@));
        }
    }
    d
}

/// How the loss changes with the inputs of a layer, for one sample.
fn gradient_row<T: Copy, A: Arith<T>>(
    ar: &A,
    net: &Net<T>,
    layer: &[T],
    g: &[T],
    d: &[T],
) -> (r: Vec<T>)
    requires
        net.wf(),
        layer@.len() == layer_floats(net.w()),
        g@.len() == net.width,
        d@.len() == net.width,
    ensures
        r@.len() == net.width,
        faithful::<T, A>(*ar) ==> r@ == sample_gradients(*ar, *net, layer@, g@, d@),
{
    let w: usize = net.width;
    let mut r: Vec<T> = Vec::with_capacity(w);
    let mut j: usize = 0;
    while j < w
        invariant
            j <= w,
            w == net.width,
            net.wf(),
            layer@.len() == layer_floats(net.w()),
            g@.len() == w,
            d@.len() == w,
            r@.len() == j,
            faithful::<T, A>(*ar) ==> forall|k: int|
                0 <= k < j ==> r@[k] == sample_gradients(*ar, *net, layer@, g@, d@)[k],
        decreases w - j,
    {
        proof {
            lemma_matrix_index(w as int, j as int, 0);
        }
        let value = if let Kernel::Paired = net.kernel {
            proof {
                assert(w * w == 16) by (nonlinear_arith)
                    requires
                        w == 4,
                ;
            }
            let p = ar.add(ar.mul(d[0], layer[4 * j]), ar.mul(d[1], layer[4 * j + 1]));
            let q = ar.add(ar.mul(d[2], layer[4 * j + 2]), ar.mul(d[3], layer[4 * j + 3]));
            ar.add(ar.add(p, q), g[j])
        } else {
            let mut sum = g[j];
            let mut k: usize = 0;
            while k < w
                invariant
                    k <= w,
                    j < w,
                    w == net.width,
                    net.wf(),
                    layer@.len() == layer_floats(net.w()),
                    d@.len() == w,
                    g@.len() == w,
                    faithful::<T, A>(*ar) ==> sum == onto_gradient(
                        *ar,
                        layer@,
                        w as int,
                        d@,
                        g@[j as int],
                        j as int,
                        k as int,
                    ),
                decreases w - k,
            {
                proof {
                    lemma_matrix_index(w as int, j as int, k as int);
                    lemma_matrix_index(w as int, j as int, 0);
                }
                sum = ar.add(sum, ar.mul(d[k], layer[j * w + k]));
                k += 1;
            }
            sum
        };
        r.push(value);
        j += 1;
    }
    proof {
        if faithful::<T, A>(*ar) {
            assert(r@ =~= sample_gradients(*ar, *net, layer@, g@, d@));
        }
    }
    r
}

/// Input and output of position `p` of the matrix.
proof fn lemma_matrix_position(w: int, p: int)
    requires
        0 < w,
        0 <= p < w * w,
    ensures
        0 <= p / w < w,
        0 <= p % w < w,
{
    lemma_fundamental_div_mod(p, w);
    assert(0 <= p / w < w && 0 <= p % w < w) by (nonlinear_arith)
        requires
            p == w * (p / w) + p % w,
            0 < w,
            0 <= p < w * w,
    ;
}

/// One lane of the gradient of parameter `p`.
fn sum_lane<T: Copy, A: Arith<T>>(
    ar: &A,
    net: &Net<T>,
    h: &[T],
    d: &[T],
    p: usize,
    lane: usize,
    count: usize,
) -> (sum: T)
    requires
        net.wf(),
        p < layer_floats(net.w()),
        rows(h@, net.w()).len() == rows(d@, net.w()).len(),
        0 < count,
    ensures
        faithful::<T, A>(*ar) ==> sum == lane_sum(
            *ar,
            net.w(),
            rows(h@, net.w()),
            rows(d@, net.w()),
            p as int,
            lane as int,
            count as int,
            rows(h@, net.w()).len() as int,
        ),
{
    let w: usize = net.width;
    let batch: usize = h.len() / w;
    let ghost hs = rows(h@, w as int);
    let ghost ds = rows(d@, w as int);
    proof {
        lemma_matrix_index(w as int, 0, 0);
    }
    let square: usize = w * w;
    let mut sum = ar.from_u64(0);
    let mut i: usize = 0;
    while i < batch
        invariant
            i <= batch,
            batch == hs.len() == ds.len(),
            hs == rows(h@, w as int),
            ds == rows(d@, w as int),
            w == net.width,
            net.wf(),
            square == w * w,
            p < layer_floats(w as int),
            0 < count,
            faithful::<T, A>(*ar) ==> sum == lane_sum(
                *ar,
                w as int,
                hs,
                ds,
                p as int,
                lane as int,
                count as int,
                i as int,
            ),
        decreases batch - i,
    {
        if i % count == lane {
            let d_row = row(d, w, i);
            let term = if p < square {
                proof {
                    lemma_matrix_position(w as int, p as int);
                }
                let h_row = row(h, w, i);
                ar.mul(h_row[p / w], d_row[p % w])
            } else {
                d_row[p - square]
            };
            sum = ar.add(sum, term);
        }
        i += 1;
    }
    sum
}

/// How the loss changes with parameter `p` of a layer.
fn sum_gradient<T: Copy, A: Arith<T>>(ar: &A, net: &Net<T>, h: &[T], d: &[T], p: usize) -> (sum: T)
    requires
        net.wf(),
        p < layer_floats(net.w()),
        rows(h@, net.w()).len() == rows(d@, net.w()).len(),
    ensures
        faithful::<T, A>(*ar) ==> sum == parameter_gradient(
            *ar,
            *net,
            rows(h@, net.w()),
            rows(d@, net.w()),
            p as int,
        ),
{
    if let Kernel::Paired = net.kernel {
        let s0 = ar.add(sum_lane(ar, net, h, d, p, 0, 8), sum_lane(ar, net, h, d, p, 1, 8));
        let s1 = ar.add(sum_lane(ar, net, h, d, p, 2, 8), sum_lane(ar, net, h, d, p, 3, 8));
        let s2 = ar.add(sum_lane(ar, net, h, d, p, 4, 8), sum_lane(ar, net, h, d, p, 5, 8));
        let s3 = ar.add(sum_lane(ar, net, h, d, p, 6, 8), sum_lane(ar, net, h, d, p, 7, 8));
        ar.add(ar.add(s0, s1), ar.add(s2, s3))
    } else {
        sum_lane(ar, net, h, d, p, 0, 1)
    }
}

/// One step of gradient descent on layer `k` of `params`. Returns how the loss
/// changes with the inputs of the layer.
pub fn backward_layer<T: Copy, A: Arith<T>>(
    ar: &A,
    net: &Net<T>,
    params: &mut Vec<T>,
    k: usize,
    h: &[T],
    grad: &[T],
    lr: T,
) -> (before: Vec<T>)
    requires
        net.wf(),
        k < rows(old(params)@, layer_floats(net.w())).len(),
        h@.len() == grad@.len(),
    ensures
        final(params)@.len() == old(params)@.len(),
        before@.len() == grad@.len(),
        forall|p: int|
            rows(old(params)@, layer_floats(net.w())).len() * layer_floats(net.w()) <= p < old(
                params,
            )@.len() ==> final(params)@[p] == old(params)@[p],
        ({
            let hs = rows(h@, net.w());
            let gs = rows(grad@, net.w());
            let layers = rows(old(params)@, layer_floats(net.w()));
            let ds = deltas(*ar, *net, layers[k as int], hs, gs);
            let after = rows(final(params)@, layer_floats(net.w()));
            &&& after == layers.update(k as int, after[k as int])
            &&& faithful::<T, A>(*ar) ==> after[k as int] == trained_layer(
                *ar,
                *net,
                layers[k as int],
                hs,
                ds,
                lr,
            )
            &&& faithful::<T, A>(*ar) ==> rows(before@, net.w()) == gradients(
                *ar,
                *net,
                layers[k as int],
                gs,
                ds,
            )
        }),
{
    let w: usize = net.width;
    let size: usize = dense_layer_floats(w);
    proof {
        lemma_matrix_index(w as int, 0, 0);
    }
    let layer: Vec<T> = slice_to_vec(row(params.as_slice(), size, k));
    let batch: usize = h.len() / w;
    let zero = ar.from_u64(0);
    let mut d: Vec<T> = filled(h.len(), zero);
    let mut before: Vec<T> = filled(h.len(), zero);
    let ghost hs = rows(h@, w as int);
    let ghost gs = rows(grad@, w as int);
    let ghost ds = deltas(*ar, *net, layer@, hs, gs);
    let ghost in_gs = gradients(*ar, *net, layer@, gs, ds);
    let mut i: usize = 0;
    while i < batch
        invariant
            i <= batch,
            batch == hs.len() == gs.len(),
            hs == rows(h@, w as int),
            gs == rows(grad@, w as int),
            ds == deltas(*ar, *net, layer@, hs, gs),
            in_gs == gradients(*ar, *net, layer@, gs, ds),
            w == net.width,
            net.wf(),
            layer@.len() == layer_floats(w as int),
            h@.len() == grad@.len() == d@.len() == before@.len(),
            rows(d@, w as int).len() == batch,
            rows(before@, w as int).len() == batch,
            faithful::<T, A>(*ar) ==> forall|m: int|
                0 <= m < i ==> rows(d@, w as int)[m] == ds[m],
            faithful::<T, A>(*ar) ==> forall|m: int|
                0 <= m < i ==> rows(before@, w as int)[m] == in_gs[m],
        decreases batch - i,
    {
        let g_row = row(grad, w, i);
        let d_row = delta_row(ar, net, layer.as_slice(), row(h, w, i), g_row);
        let b_row = gradient_row(ar, net, layer.as_slice(), g_row, d_row.as_slice());
        set_row(&mut d, w, i, &d_row);
        set_row(&mut before, w, i, &b_row);
        i += 1;
    }
    proof {
        if faithful::<T, A>(*ar) {
            assert(rows(d@, w as int) =~= ds);
            assert(rows(before@, w as int) =~= in_gs);
        }
    }
    let ghost wanted = trained_layer(*ar, *net, layer@, hs, ds, lr);
    let mut trained: Vec<T> = Vec::with_capacity(size);
    let mut p: usize = 0;
    while p < size
        invariant
            p <= size,
            size == layer_floats(w as int),
            w == net.width,
            net.wf(),
            layer@.len() == size,
            trained@.len() == p,
            hs == rows(h@, w as int),
            rows(d@, w as int).len() == hs.len(),
            wanted == trained_layer(*ar, *net, layer@, hs, ds, lr),
            faithful::<T, A>(*ar) ==> rows(d@, w as int) == ds,
            faithful::<T, A>(*ar) ==> forall|m: int| 0 <= m < p ==> trained@[m] == wanted[m],
        decreases size - p,
    {
        let sum = sum_gradient(ar, net, h, d.as_slice(), p);
        trained.push(ar.sub(layer[p], ar.mul(lr, sum)));
        p += 1;
    }
    proof {
        if faithful::<T, A>(*ar) {
            assert(trained@ =~= wanted);
        }
    }
    set_row(params, size, k, &trained);
    before
}

/// Training the first `k + 1` layers, before `done`, is training layer `k` and
/// then the `k` layers before it.
proof fn lemma_one_layer_back<T, A: Arith<T>>(
    ar: A,
    net: Net<T>,
    part: Seq<Seq<T>>,
    hs: Seq<Seq<T>>,
    gs: Seq<Seq<T>>,
    lr: T,
    k: int,
    done: Seq<Seq<T>>,
)
    requires
        0 <= k < part.len(),
    ensures
        ({
            let before = forward(ar, net, part.take(k), hs);
            let ds = deltas(ar, net, part[k], before, gs);
            let all = backward(ar, net, part.take(k + 1), hs, gs, lr);
            let rest = backward(
                ar,
                net,
                part.take(k),
                hs,
                gradients(ar, net, part[k], gs, ds),
                lr,
            );
            let trained = trained_layer(ar, net, part[k], before, ds, lr);
            &&& all.0 + done == rest.0 + (seq![trained] + done)
            &&& all.1 == rest.1
        }),
{
    let before = forward(ar, net, part.take(k), hs);
    let ds = deltas(ar, net, part[k], before, gs);
    assert(part.take(k + 1).drop_last() =~= part.take(k));
    assert(part.take(k + 1).last() == part[k]);
    let rest = backward(ar, net, part.take(k), hs, gradients(ar, net, part[k], gs, ds), lr);
    let trained = trained_layer(ar, net, part[k], before, ds, lr);
    assert(rest.0.push(trained) + done =~= rest.0 + (seq![trained] + done));
}

/// One step of gradient descent on the `count` layers of `params` from layer
/// `first` on. `start_h` enters the first of them, and `end_grad` is how the
/// loss changes with what leaves the last. Returns how it changes with
/// `start_h`.
pub fn backward_layers<T: Copy, A: Arith<T>>(
    ar: &A,
    net: &Net<T>,
    params: &mut Vec<T>,
    first: usize,
    count: usize,
    start_h: &[T],
    end_grad: &[T],
    lr: T,
) -> (grad: Vec<T>)
    requires
        net.wf(),
        first + count <= rows(old(params)@, layer_floats(net.w())).len(),
        start_h@.len() == end_grad@.len(),
    ensures
        final(params)@.len() == old(params)@.len(),
        grad@.len() == end_grad@.len(),
        forall|p: int|
            rows(old(params)@, layer_floats(net.w())).len() * layer_floats(net.w()) <= p < old(
                params,
            )@.len() ==> final(params)@[p] == old(params)@[p],
        ({
            let layers = rows(old(params)@, layer_floats(net.w()));
            let part = layers.subrange(first as int, first + count);
            let after = rows(final(params)@, layer_floats(net.w()));
            let (trained, g) = backward(
                *ar,
                *net,
                part,
                rows(start_h@, net.w()),
                rows(end_grad@, net.w()),
                lr,
            );
            &&& after.len() == layers.len()
            &&& forall|k: int|
                0 <= k < layers.len() && !(first <= k < first + count) ==> after[k] == layers[k]
            &&& faithful::<T, A>(*ar) ==> after.subrange(first as int, first + count) == trained
            &&& faithful::<T, A>(*ar) ==> rows(grad@, net.w()) == g
        }),
{
    let w: usize = net.width;
    let size: usize = dense_layer_floats(w);
    proof {
        lemma_matrix_index(w as int, 0, 0);
    }
    let total: usize = params.len() / size;
    let ghost layers = rows(params@, size as int);
    let ghost part = layers.subrange(first as int, first + count);
    let ghost hs = rows(start_h@, w as int);
    let ghost end_gs = rows(end_grad@, w as int);
    let ghost all = params@;

    let mut h: Vec<T> = slice_to_vec(start_h);
    let mut acts: Vec<Vec<T>> = Vec::with_capacity(count);
    let mut k: usize = 0;
    assert(part.take(0) =~= Seq::<Seq<T>>::empty());
    while k < count
        invariant
            k <= count,
            first + count <= layers.len() == total,
            layers == rows(params@, size as int),
            part == layers.subrange(first as int, first + count),
            w == net.width,
            net.wf(),
            0 < size,
            size == layer_floats(w as int),
            hs == rows(start_h@, w as int),
            h@.len() == start_h@.len(),
            acts@.len() == k,
            forall|m: int| 0 <= m < k ==> (#[trigger] acts@[m])@.len() == start_h@.len(),
            faithful::<T, A>(*ar) ==> rows(h@, w as int) == forward(
                *ar,
                *net,
                part.take(k as int),
                hs,
            ),
            faithful::<T, A>(*ar) ==> forall|m: int|
                0 <= m < k ==> rows((#[trigger] acts@[m])@, w as int) == forward(
                    *ar,
                    *net,
                    part.take(m),
                    hs,
                ),
        decreases count - k,
    {
        acts.push(copied(&h));
        forward_layer(ar, net, row(params.as_slice(), size, first + k), &mut h);
        proof {
            assert(part.take(k + 1).drop_last() =~= part.take(k as int));
            assert(part.take(k + 1).last() == layers[first + k]);
        }
        k += 1;
    }

    let mut grad: Vec<T> = slice_to_vec(end_grad);
    let ghost done: Seq<Seq<T>> = Seq::empty();
    proof {
        assert(part.take(count as int) =~= part);
        let r = backward(*ar, *net, part, hs, end_gs, lr);
        assert(r.0 =~= r.0 + done);
    }
    while k > 0
        invariant
            k <= count,
            first + count <= layers.len() == total,
            layers == rows(all, size as int),
            part == layers.subrange(first as int, first + count),
            w == net.width,
            net.wf(),
            0 < size,
            size == layer_floats(w as int),
            hs == rows(start_h@, w as int),
            end_gs == rows(end_grad@, w as int),
            params@.len() == all.len(),
            rows(params@, size as int).len() == layers.len(),
            forall|p: int|
                layers.len() * (size as int) <= p < all.len() ==> params@[p] == all[p],
            forall|m: int|
                0 <= m < layers.len() && !(first + k <= m < first + count) ==> rows(
                    params@,
                    size as int,
                )[m] == layers[m],
            done == rows(params@, size as int).subrange(first + k, first + count),
            grad@.len() == end_grad@.len() == start_h@.len(),
            acts@.len() == count,
            forall|m: int| 0 <= m < count ==> (#[trigger] acts@[m])@.len() == start_h@.len(),
            faithful::<T, A>(*ar) ==> forall|m: int|
                0 <= m < count ==> rows((#[trigger] acts@[m])@, w as int) == forward(
                    *ar,
                    *net,
                    part.take(m),
                    hs,
                ),
            faithful::<T, A>(*ar) ==> {
                let r = backward(*ar, *net, part, hs, end_gs, lr);
                let rest = backward(
                    *ar,
                    *net,
                    part.take(k as int),
                    hs,
                    rows(grad@, w as int),
                    lr,
                );
                r.0 == rest.0 + done && r.1 == rest.1
            },
        decreases k,
    {
        let ghost now = rows(params@, size as int);
        let ghost gs = rows(grad@, w as int);
        k -= 1;
        grad = backward_layer(
            ar,
            net,
            params,
            first + k,
            acts[k].as_slice(),
            grad.as_slice(),
            lr,
        );
        proof {
            let after = rows(params@, size as int);
            let next_done = after.subrange(first + k, first + count);
            assert(next_done =~= seq![after[first + k]] + done);
            if faithful::<T, A>(*ar) {
                lemma_one_layer_back(*ar, *net, part, hs, gs, lr, k as int, done);
            }
            done = next_done;
        }
    }
    proof {
        assert(part.take(0) =~= Seq::<Seq<T>>::empty());
        assert(part.take(0) + done =~= done);
    }
    grad
}

/// One step of gradient descent on the complete layers of `params`.
pub fn backward_chunk<T: Copy, A: Arith<T>>(
    ar: &A,
    net: &Net<T>,
    params: &mut Vec<T>,
    start_h: &[T],
    end_grad: &[T],
    lr: T,
) -> (grad: Vec<T>)
    requires
        net.wf(),
        start_h@.len() == end_grad@.len(),
    ensures
        final(params)@.len() == old(params)@.len(),
        grad@.len() == end_grad@.len(),
        forall|p: int|
            rows(old(params)@, layer_floats(net.w())).len() * layer_floats(net.w()) <= p < old(
                params,
            )@.len() ==> final(params)@[p] == old(params)@[p],
        faithful::<T, A>(*ar) ==> (rows(final(params)@, layer_floats(net.w())), rows(grad@, net.w()))
            == backward(
            *ar,
            *net,
            rows(old(params)@, layer_floats(net.w())),
            rows(start_h@, net.w()),
            rows(end_grad@, net.w()),
            lr,
        ),
{
    proof {
        lemma_matrix_index(net.w(), 0, 0);
    }
    let count: usize = params.len() / dense_layer_floats(net.width);
    let ghost layers = rows(params@, layer_floats(net.w()));
    let grad = backward_layers(ar, net, params, 0, count, start_h, end_grad, lr);
    proof {
        let after = rows(params@, layer_floats(net.w()));
        assert(layers.subrange(0, count as int) =~= layers);
        assert(after.subrange(0, count as int) =~= after);
    }
    grad
}

} // verus!
