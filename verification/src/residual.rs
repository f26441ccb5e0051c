use crate::activation::activate;
use crate::activation::activated;
use crate::activation::Activation;
use crate::arith::faithful;
use crate::arith::Arith;
use crate::layout::dense_layer_floats;
use crate::layout::layer_floats;
use crate::rows::lemma_row_bounds;
use crate::rows::row;
use crate::rows::rows;
use crate::rows::set_row;
use vstd::prelude::*;

verus! {

/// The order in which a layer adds its terms. Rounding makes the order part of
/// the result.
#[derive(Clone, Copy, Debug, PartialEq, Eq, Structural)]
pub enum Kernel {
    /// The bias first, then the products one after the other.
    BiasFirst,
    /// The products one after the other, then the bias.
    BiasLast,
    /// The four products in pairs, then the bias. Gradients of eight
    /// neighbouring samples are added in lanes.
    Paired,
}

/// A stack of residual layers, without its parameters. One layer maps `h` to
/// `h + alpha * activation(h W + b)`. Its parameters are stored as the square
/// matrix, one input after the other, followed by the bias.
pub struct Net<T> {
    pub kernel: Kernel,
    pub width: usize,
    pub alpha: T,
    pub activation: Activation,
}

impl<T> Net<T> {
    /// The layers can be counted, and the kernel suits the width.
    pub open spec fn wf(self) -> bool {
        &&& 0 < self.width
        &&& layer_floats(self.width as int) <= usize::MAX
        &&& self.kernel == Kernel::Paired ==> self.width == 4
    }

    /// The width of a layer.
    pub open spec fn w(self) -> int {
        self.width as int
    }
}

/// The kernel of a dense stack of width `width` on a batch of `batch` samples.
/// `wide` says whether samples may be taken eight at a time.
pub fn dense_kernel(width: usize, activation: Activation, batch: usize, wide: bool) -> (kernel:
    Kernel)
    ensures
        kernel == dense_kernel_of(width, activation, batch, wide),
        kernel == Kernel::BiasFirst <==> width != 4,
        kernel == Kernel::Paired <==> width == 4 && activation == Activation::Softsign && batch % 8
            == 0 && wide,
{
    if width != 4 {
        Kernel::BiasFirst
    } else if activation == Activation::Softsign && batch % 8 == 0 && wide {
        Kernel::Paired
    } else {
        Kernel::BiasLast
    }
}

/// The kernel that [`dense_kernel`] picks.
pub open spec fn dense_kernel_of(
    width: usize,
    activation: Activation,
    batch: usize,
    wide: bool,
) -> Kernel {
    if width != 4 {
        Kernel::BiasFirst
    } else if activation == Activation::Softsign && batch % 8 == 0 && wide {
        Kernel::Paired
    } else {
        Kernel::BiasLast
    }
}

/// The bias of output `o` plus the first `k` products, in order.
pub open spec fn onto_bias<T, A: Arith<T>>(
    ar: A,
    layer: Seq<T>,
    w: int,
    x: Seq<T>,
    o: int,
    k: int,
) -> T
    decreases k,
{
    if k <= 0 {
        layer[w * w + o]
    } else {
        ar.plus(onto_bias(ar, layer, w, x, o, k - 1), ar.times(x[k - 1], layer[(k - 1) * w + o]))
    }
}

/// The sum of the first `k` products of output `o`, in order.
pub open spec fn products<T, A: Arith<T>>(
    ar: A,
    layer: Seq<T>,
    w: int,
    x: Seq<T>,
    o: int,
    k: int,
) -> T
    decreases k,
{
    let term = ar.times(x[k - 1], layer[(k - 1) * w + o]);
    if k <= 1 {
        term
    } else {
        ar.plus(products(ar, layer, w, x, o, k - 1), term)
    }
}

/// Four products added in pairs, then `rest`.
pub open spec fn paired<T, A: Arith<T>>(ar: A, x: Seq<T>, y: Seq<T>, rest: T) -> T {
    ar.plus(
        ar.plus(
            ar.plus(ar.times(x[0], y[0]), ar.times(x[1], y[1])),
            ar.plus(ar.times(x[2], y[2]), ar.times(x[3], y[3])),
        ),
        rest,
    )
}

/// What output `o` of a layer activates.
pub open spec fn pre_activation<T, A: Arith<T>>(
    ar: A,
    net: Net<T>,
    layer: Seq<T>,
    x: Seq<T>,
    o: int,
) -> T {
    let w = net.w();
    match net.kernel {
        Kernel::BiasFirst => onto_bias(ar, layer, w, x, o, w),
        Kernel::BiasLast => ar.plus(products(ar, layer, w, x, o, w), layer[w * w + o]),
        Kernel::Paired => paired(
            ar,
            x,
            seq![layer[o], layer[4 + o], layer[8 + o], layer[12 + o]],
            layer[16 + o],
        ),
    }
}

/// What one layer makes of one sample.
pub open spec fn step_sample<T, A: Arith<T>>(
    ar: A,
    net: Net<T>,
    layer: Seq<T>,
    x: Seq<T>,
) -> Seq<T> {
    Seq::new(
        net.width as nat,
        |o: int|
            ar.plus(
                x[o],
                ar.times(
                    net.alpha,
                    activated(ar, net.activation, pre_activation(ar, net, layer, x, o)),
                ),
            ),
    )
}

/// What one layer makes of a batch.
pub open spec fn step_batch<T, A: Arith<T>>(
    ar: A,
    net: Net<T>,
    layer: Seq<T>,
    hs: Seq<Seq<T>>,
) -> Seq<Seq<T>> {
    Seq::new(hs.len(), |i: int| step_sample(ar, net, layer, hs[i]))
}

/// What a stack of layers, first to last, makes of a batch.
pub open spec fn forward<T, A: Arith<T>>(
    ar: A,
    net: Net<T>,
    layers: Seq<Seq<T>>,
    hs: Seq<Seq<T>>,
) -> Seq<Seq<T>>
    decreases layers.len(),
{
    if layers.len() == 0 {
        hs
    } else {
        step_batch(ar, net, layers.last(), forward(ar, net, layers.drop_last(), hs))
    }
}

/// Positions of the matrix lie before the bias.
pub proof fn lemma_matrix_index(w: int, k: int, o: int)
    requires
        0 <= k < w,
        0 <= o < w,
    ensures
        0 <= k * w + o < w * w,
        w * w + o < layer_floats(w),
{
    lemma_row_bounds(w, w, k, o);
}

/// What output `o` of a layer activates.
pub fn pre_activate<T: Copy, A: Arith<T>>(
    ar: &A,
    net: &Net<T>,
    layer: &[T],
    x: &[T],
    o: usize,
) -> (s: T)
    requires
        net.wf(),
        layer@.len() == layer_floats(net.w()),
        x@.len() == net.width,
        o < net.width,
    ensures
        faithful::<T, A>(*ar) ==> s == pre_activation(*ar, *net, layer@, x@, o as int),
{
    let w: usize = net.width;
    proof {
        lemma_matrix_index(w as int, 0, o as int);
    }
    match net.kernel {
        Kernel::BiasFirst => {
            let mut sum = layer[w * w + o];
            let mut k: usize = 0;
            while k < w
                invariant
                    k <= w,
                    w == net.width,
                    net.wf(),
                    o < w,
                    layer@.len() == layer_floats(w as int),
                    x@.len() == w,
                    faithful::<T, A>(*ar) ==> sum == onto_bias(
                        *ar,
                        layer@,
                        w as int,
                        x@,
                        o as int,
                        k as int,
                    ),
                decreases w - k,
            {
                proof {
                    lemma_matrix_index(w as int, k as int, o as int);
                }
                sum = ar.add(sum, ar.mul(x[k], layer[k * w + o]));
                k += 1;
            }
            sum
        },
        Kernel::BiasLast => {
            assert(0 * (w as int) + o == o) by (nonlinear_arith);
            let mut sum = ar.mul(x[0], layer[o]);
            let mut k: usize = 1;
            while k < w
                invariant
                    1 <= k <= w,
                    w == net.width,
                    net.wf(),
                    o < w,
                    layer@.len() == layer_floats(w as int),
                    x@.len() == w,
                    faithful::<T, A>(*ar) ==> sum == products(
                        *ar,
                        layer@,
                        w as int,
                        x@,
                        o as int,
                        k as int,
                    ),
                decreases w - k,
            {
                proof {
                    lemma_matrix_index(w as int, k as int, o as int);
                }
                sum = ar.add(sum, ar.mul(x[k], layer[k * w + o]));
                k += 1;
            }
            ar.add(sum, layer[w * w + o])
        },
        Kernel::Paired => {
            assert(w * w == 16) by (nonlinear_arith)
                requires
                    w == 4,
            ;
            let p = ar.add(ar.mul(x[0], layer[o]), ar.mul(x[1], layer[4 + o]));
            let q = ar.add(ar.mul(x[2], layer[8 + o]), ar.mul(x[3], layer[12 + o]));
            ar.add(ar.add(p, q), layer[16 + o])
        },
    }
}

/// What one layer makes of one sample.
fn step_row<T: Copy, A: Arith<T>>(ar: &A, net: &Net<T>, layer: &[T], x: &[T]) -> (next: Vec<T>)
    requires
        net.wf(),
        layer@.len() == layer_floats(net.w()),
        x@.len() == net.width,
    ensures
        next@.len() == net.width,
        faithful::<T, A>(*ar) ==> next@ == step_sample(*ar, *net, layer@, x@),
{
    let mut next: Vec<T> = Vec::with_capacity(net.width);
    let mut o: usize = 0;
    while o < net.width
        invariant
            o <= net.width,
            net.wf(),
            layer@.len() == layer_floats(net.w()),
            x@.len() == net.width,
            next@.len() == o,
            faithful::<T, A>(*ar) ==> forall|k: int|
                0 <= k < o ==> next@[k] == step_sample(*ar, *net, layer@, x@)[k],
        decreases net.width - o,
    {
        let s = pre_activate(ar, net, layer, x, o);
        let y = activate(ar, s, net.activation);
        next.push(ar.add(x[o], ar.mul(net.alpha, y)));
        o += 1;
    }
    proof {
        if faithful::<T, A>(*ar) {
            assert(next@ =~= step_sample(*ar, *net, layer@, x@));
        }
    }
    next
}

/// Runs a batch through one layer.
pub fn forward_layer<T: Copy, A: Arith<T>>(ar: &A, net: &Net<T>, layer: &[T], h: &mut Vec<T>)
    requires
        net.wf(),
        layer@.len() == layer_floats(net.w()),
    ensures
        final(h)@.len() == old(h)@.len(),
        faithful::<T, A>(*ar) ==> rows(final(h)@, net.w()) == step_batch(
            *ar,
            *net,
            layer@,
            rows(old(h)@, net.w()),
        ),
        forall|p: int|
            rows(old(h)@, net.w()).len() * net.width <= p < old(h)@.len() ==> final(h)@[p] == old(
                h,
            )@[p],
{
    let batch: usize = h.len() / net.width;
    let ghost hs = rows(h@, net.w());
    let ghost start = h@;
    let mut i: usize = 0;
    while i < batch
        invariant
            i <= batch,
            batch == hs.len(),
            net.wf(),
            layer@.len() == layer_floats(net.w()),
            h@.len() == start.len(),
            hs == rows(start, net.w()),
            rows(h@, net.w()).len() == batch,
            forall|k: int| i <= k < batch ==> rows(h@, net.w())[k] == hs[k],
            faithful::<T, A>(*ar) ==> forall|k: int|
                0 <= k < i ==> rows(h@, net.w())[k] == step_sample(*ar, *net, layer@, hs[k]),
            forall|p: int| hs.len() * net.width <= p < start.len() ==> h@[p] == start[p],
        decreases batch - i,
    {
        let next = step_row(ar, net, layer, row(h.as_slice(), net.width, i));
        set_row(h, net.width, i, &next);
        i += 1;
    }
    proof {
        if faithful::<T, A>(*ar) {
            assert(rows(h@, net.w()) =~= step_batch(*ar, *net, layer@, hs));
        }
    }
}

/// Runs a batch through the complete layers of `params`, first to last.
pub fn forward_chunk<T: Copy, A: Arith<T>>(ar: &A, net: &Net<T>, params: &[T], h: &mut Vec<T>)
    requires
        net.wf(),
    ensures
        final(h)@.len() == old(h)@.len(),
        faithful::<T, A>(*ar) ==> rows(final(h)@, net.w()) == forward(
            *ar,
            *net,
            rows(params@, layer_floats(net.w())),
            rows(old(h)@, net.w()),
        ),
        forall|p: int|
            rows(old(h)@, net.w()).len() * net.width <= p < old(h)@.len() ==> final(h)@[p] == old(
                h,
            )@[p],
{
    let size: usize = dense_layer_floats(net.width);
    proof {
        lemma_matrix_index(net.w(), 0, 0);
    }
    let count: usize = params.len() / size;
    let ghost layers = rows(params@, size as int);
    let ghost hs = rows(h@, net.w());
    let ghost start = h@;
    let mut k: usize = 0;
    assert(layers.take(0) =~= Seq::<Seq<T>>::empty());
    while k < count
        invariant
            k <= count,
            count == layers.len(),
            layers == rows(params@, size as int),
            net.wf(),
            size == layer_floats(net.w()),
            0 < size,
            h@.len() == start.len(),
            hs == rows(start, net.w()),
            faithful::<T, A>(*ar) ==> rows(h@, net.w()) == forward(
                *ar,
                *net,
                layers.take(k as int),
                hs,
            ),
            forall|p: int| hs.len() * net.width <= p < start.len() ==> h@[p] == start[p],
        decreases count - k,
    {
        forward_layer(ar, net, row(params, size, k), h);
        proof {
            assert(layers.take(k + 1).drop_last() =~= layers.take(k as int));
            assert(rows(h@, net.w()).len() == hs.len());
        }
        k += 1;
    }
    proof {
        assert(layers.take(count as int) =~= layers);
    }
}

} // verus!
