use crate::activation::Activation;
use crate::arith::faithful;
use crate::arith::filled;
use crate::arith::Arith;
use crate::head::Head;
use crate::layout::layer_floats;
use crate::layout::CLASSES;
use crate::layout::INPUTS;
use crate::layout::WIDTH;
use crate::residual::dense_kernel;
use crate::residual::dense_kernel_of;
use crate::residual::Kernel;
use crate::residual::Net;
use crate::rows::lemma_row_bounds;
use crate::rows::lemma_rows_concat;
use crate::rows::lemma_rows_len;
use crate::rows::lemma_rows_push;
use crate::rows::rows;
use vstd::prelude::*;

verus! {

/// The weight of a layer's change when none is asked for: it shrinks with the
/// depth of the network.
pub open spec fn alpha_of<T, A: Arith<T>>(ar: A, layers: u64) -> T {
    ar.over(ar.whole(1), ar.sqrt_of(ar.whole(layers)))
}

/// The weight of a layer's change when none is asked for.
pub fn default_alpha<T: Copy, A: Arith<T>>(ar: &A, layers: u64) -> (alpha: T)
    ensures
        faithful::<T, A>(*ar) ==> alpha == alpha_of(*ar, layers),
        faithful::<T, A>(*ar) ==> alpha == ar.over(ar.whole(1), ar.sqrt_of(ar.whole(layers))),
{
    ar.div(ar.from_u64(1), ar.sqrt(ar.from_u64(layers)))
}

/// The narrow network.
pub fn narrow_net<T: Copy>(alpha: T) -> (net: Net<T>)
    ensures
        net.wf(),
        net == (Net {
            kernel: Kernel::BiasLast,
            width: WIDTH,
            alpha,
            activation: Activation::Tanh,
        }),
{
    Net { kernel: Kernel::BiasLast, width: WIDTH, alpha, activation: Activation::Tanh }
}

/// A dense network, as it computes on a batch of `batch` samples. `wide` says
/// whether samples may be taken eight at a time.
pub fn dense_net<T: Copy>(
    width: usize,
    alpha: T,
    activation: Activation,
    batch: usize,
    wide: bool,
) -> (net: Net<T>)
    requires
        0 < width,
        layer_floats(width as int) <= usize::MAX,
    ensures
        net.wf(),
        net == (Net {
            kernel: dense_kernel_of(width, activation, batch, wide),
            width,
            alpha,
            activation,
        }),
{
    Net { kernel: dense_kernel(width, activation, batch, wide), width, alpha, activation }
}

/// The bound of the weights of a new head, by the number of values that such a
/// weight stands between.
pub open spec fn weight_bound<T, A: Arith<T>>(ar: A, between: u64) -> T {
    ar.sqrt_of(ar.over(ar.whole(6), ar.whole(between)))
}

/// The bounds between which the input and the output weights of a new dense
/// head or perceptron are drawn.
pub fn head_bounds<T: Copy, A: Arith<T>>(ar: &A, width: usize) -> (r: (T, T))
    requires
        width + INPUTS <= usize::MAX,
    ensures
        faithful::<T, A>(*ar) ==> r == (
            weight_bound(*ar, (INPUTS + width) as u64),
            weight_bound(*ar, (width + CLASSES) as u64),
        ),
        faithful::<T, A>(*ar) ==> r == (
            ar.sqrt_of(ar.over(ar.whole(6), ar.whole((784 + width) as u64))),
            ar.sqrt_of(ar.over(ar.whole(6), ar.whole((width + 10) as u64))),
        ),
{
    let input = ar.sqrt(ar.div(ar.from_u64(6), ar.from_u64((INPUTS + width) as u64)));
    let output = ar.sqrt(ar.div(ar.from_u64(6), ar.from_u64((width + CLASSES) as u64)));
    (input, output)
}

/// `v` times `scale`, value by value.
pub open spec fn scaled<T, A: Arith<T>>(ar: A, v: Seq<T>, scale: T) -> Seq<T> {
    Seq::new(v.len(), |i: int| ar.times(v[i], scale))
}

/// Multiplies every value by `scale`.
fn rescale<T: Copy, A: Arith<T>>(ar: &A, v: &mut Vec<T>, scale: T)
    ensures
        final(v)@.len() == old(v)@.len(),
        faithful::<T, A>(*ar) ==> final(v)@ == scaled(*ar, old(v)@, scale),
{
    let n: usize = v.len();
    let mut i: usize = 0;
    while i < n
        invariant
            i <= n,
            n == v@.len() == old(v)@.len(),
            forall|k: int| i <= k < n ==> v@[k] == old(v)@[k],
            faithful::<T, A>(*ar) ==> forall|k: int|
                0 <= k < i ==> v@[k] == ar.times(old(v)@[k], scale),
        decreases n - i,
    {
        v[i] = ar.mul(v[i], scale);
        i += 1;
    }
}

impl<T: Copy> Head<T> {
    /// A new head with the given weights and no bias.
    pub fn from_draws<A: Arith<T>>(
        ar: &A,
        width: usize,
        input_w: Vec<T>,
        output_w: Vec<T>,
    ) -> (head: Head<T>)
        requires
            0 < width,
            input_w@.len() == INPUTS * width,
            output_w@.len() == width * CLASSES,
        ensures
            head.wf(),
            head.width == width,
            head.input_w == input_w,
            head.output_w == output_w,
            faithful::<T, A>(*ar) ==> {
                &&& head.input_b@ == Seq::new(width as nat, |i: int| ar.whole(0))
                &&& head.output_b@ == Seq::new(CLASSES as nat, |i: int| ar.whole(0))
            },
    {
        let zero = ar.from_u64(0);
        Head {
            width,
            input_w,
            input_b: filled(width, zero),
            output_w,
            output_b: filled(CLASSES, zero),
        }
    }

    /// Multiplies the weights by `scale`, unless it is one.
    pub fn scale_weights<A: Arith<T>>(&mut self, ar: &A, scale: T)
        requires
            old(self).wf(),
        ensures
            final(self).wf(),
            final(self).width == old(self).width,
            final(self).input_b == old(self).input_b,
            final(self).output_b == old(self).output_b,
            faithful::<T, A>(*ar) ==> if ar.is_same(scale, ar.whole(1)) {
                *final(self) == *old(self)
            } else {
                &&& final(self).input_w@ == scaled(*ar, old(self).input_w@, scale)
                &&& final(self).output_w@ == scaled(*ar, old(self).output_w@, scale)
                &&& forall|i: int|
                    0 <= i < old(self).input_w@.len() ==> #[trigger] final(self).input_w@[i]
                        == ar.times(old(self).input_w@[i], scale)
                &&& forall|i: int|
                    0 <= i < old(self).output_w@.len() ==> #[trigger] final(self).output_w@[i]
                        == ar.times(old(self).output_w@[i], scale)
            },
    {
        if !ar.same(scale, ar.from_u64(1)) {
            rescale(ar, &mut self.input_w, scale);
            rescale(ar, &mut self.output_w, scale);
        }
    }
}

/// New dense layers: layer `k` has the `k`th square of drawn numbers for its
/// matrix, and no bias.
pub open spec fn drawn_layers<T, A: Arith<T>>(ar: A, width: int, drawn: Seq<T>) -> Seq<Seq<T>> {
    Seq::new(
        rows(drawn, width * width).len(),
        |k: int| rows(drawn, width * width)[k] + Seq::new(width as nat, |j: int| ar.whole(0)),
    )
}

/// The parameters of `count` new dense layers with the given matrices.
pub fn initial_layers<T: Copy, A: Arith<T>>(ar: &A, width: usize, count: usize, drawn: &[T]) -> (
params: Vec<T>)
    requires
        0 < width,
        count * layer_floats(width as int) <= usize::MAX,
        drawn@.len() == count * (width * width),
    ensures
        params@.len() == count * layer_floats(width as int),
        faithful::<T, A>(*ar) ==> rows(params@, layer_floats(width as int)) == drawn_layers(
            *ar,
            width as int,
            drawn@,
        ),
{
    let zero = ar.from_u64(0);
    let ghost w = width as int;
    let ghost wanted = drawn_layers(*ar, w, drawn@);
    let mut params: Vec<T> = Vec::new();
    proof {
        assert(w * w > 0) by (nonlinear_arith)
            requires
                w > 0,
        ;
        lemma_rows_len(drawn@, w * w, count as int);
        lemma_rows_len(params@, layer_floats(w), 0);
        assert(rows(params@, layer_floats(w)) =~= wanted.take(0));
    }
    let total: usize = drawn.len();
    let mut k: usize = 0;
    while k < count
        invariant
            k <= count,
            0 < width == w,
            0 < w * w,
            count * layer_floats(w) <= usize::MAX,
            total == drawn@.len() == count * (w * w),
            wanted == drawn_layers(*ar, w, drawn@),
            wanted.len() == count,
            params@.len() == k * layer_floats(w),
            faithful::<T, A>(*ar) ==> zero == ar.whole(0),
            faithful::<T, A>(*ar) ==> rows(params@, layer_floats(w)) == wanted.take(k as int),
        decreases count - k,
    {
        let ghost before = params@;
        proof {
            lemma_row_bounds(count as int, w * w, k as int, 0);
            lemma_row_bounds(count as int, layer_floats(w), k as int, 0);
        }
        let square: usize = width * width;
        let start: usize = k * square;
        let mut j: usize = 0;
        while j < square
            invariant
                j <= square,
                start + square <= total,
                total == drawn@.len(),
                params@ == before + drawn@.subrange(start as int, start + j),
            decreases square - j,
        {
            params.push(drawn[start + j]);
            assert(params@ =~= before + drawn@.subrange(start as int, start + j + 1));
            j += 1;
        }
        let ghost matrix = drawn@.subrange(start as int, start + square);
        let mut j: usize = 0;
        while j < width
            invariant
                j <= width,
                params@ == before + (matrix + Seq::new(j as nat, |i: int| zero)),
            decreases width - j,
        {
            params.push(zero);
            assert(params@ =~= before + (matrix + Seq::new((j + 1) as nat, |i: int| zero)));
            j += 1;
        }
        proof {
            let layer = matrix + Seq::new(width as nat, |i: int| zero);
            lemma_rows_push(before, layer, layer_floats(w), k as int);
            assert((k + 1) * layer_floats(w) == k * layer_floats(w) + layer_floats(w))
                by (nonlinear_arith);
            if faithful::<T, A>(*ar) {
                assert(layer =~= wanted[k as int]);
                assert(wanted.take(k as int).push(layer) =~= wanted.take(k + 1));
            }
        }
        k += 1;
    }
    assert(wanted.take(count as int) =~= wanted);
    params
}

/// Layer `k` of new layers has the numbers drawn `k`th for its matrix, in the order
/// drawn, and zeros for its bias.
pub proof fn law_new_layers_hold_the_draws<T, A: Arith<T>>(
    ar: A,
    width: int,
    n: int,
    drawn: Seq<T>,
    k: int,
    p: int,
)
    requires
        0 < width,
        drawn.len() == n * (width * width),
        0 <= k < n,
        0 <= p < width * width + width,
    ensures
        drawn_layers(ar, width, drawn).len() == n,
        drawn_layers(ar, width, drawn)[k].len() == width * width + width,
        p < width * width ==> drawn_layers(ar, width, drawn)[k][p] == drawn[k * (width * width) + p],
        p >= width * width ==> drawn_layers(ar, width, drawn)[k][p] == ar.whole(0),
{
    assert(width * width > 0) by (nonlinear_arith)
        requires
            0 < width,
    ;
    lemma_rows_len(drawn, width * width, n);
    lemma_row_bounds(n, width * width, k, 0);
    if p < width * width {
        crate::rows::lemma_row_index(drawn, width * width, n, k, p);
    }
}

/// New layers do not depend on how they are cut into chunks: the layers of
/// numbers that are drawn in two parts are the layers of each part.
pub proof fn law_new_layers_split<T, A: Arith<T>>(
    ar: A,
    width: int,
    n: int,
    m: int,
    first: Seq<T>,
    second: Seq<T>,
)
    requires
        0 < width,
        0 <= n,
        0 <= m,
        first.len() == n * (width * width),
        second.len() == m * (width * width),
    ensures
        drawn_layers(ar, width, first + second) == drawn_layers(ar, width, first) + drawn_layers(
            ar,
            width,
            second,
        ),
{
    assert(width * width > 0) by (nonlinear_arith)
        requires
            0 < width,
    ;
    lemma_rows_concat(first, second, width * width, n, m);
    assert(drawn_layers(ar, width, first + second) =~= drawn_layers(ar, width, first)
        + drawn_layers(ar, width, second));
}

} // verus!
