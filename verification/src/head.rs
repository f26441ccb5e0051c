use crate::arith::faithful;
use crate::arith::Arith;
use crate::layout::CLASSES;
use crate::layout::INPUTS;
use crate::rows::lemma_row_bounds;
use crate::rows::lemma_row_update;
use crate::rows::lemma_rows_fit;
use crate::rows::lemma_rows_len;
use crate::rows::rows;
use vstd::prelude::*;

verus! {

/// What stands before and after the layers of a network: a map from the pixels
/// of an image to `width` values, and one from `width` values to the classes.
/// Matrices are stored one input after the other.
pub struct Head<T> {
    pub width: usize,
    pub input_w: Vec<T>,
    pub input_b: Vec<T>,
    pub output_w: Vec<T>,
    pub output_b: Vec<T>,
}

/// A head by the rows of its matrices.
#[verifier::ext_equal]
pub struct HeadView<T> {
    pub width: int,
    /// For each pixel, its weight in each value.
    pub input_w: Seq<Seq<T>>,
    pub input_b: Seq<T>,
    /// For each value, its weight in each class.
    pub output_w: Seq<Seq<T>>,
    pub output_b: Seq<T>,
}

impl<T> View for Head<T> {
    type V = HeadView<T>;

    open spec fn view(&self) -> HeadView<T> {
        HeadView {
            width: self.width as int,
            input_w: rows(self.input_w@, self.width as int),
            input_b: self.input_b@,
            output_w: rows(self.output_w@, CLASSES as int),
            output_b: self.output_b@,
        }
    }
}

impl<T> Head<T> {
    /// Every part has the size that the width asks for.
    pub open spec fn wf(self) -> bool {
        &&& 0 < self.width
        &&& self.input_w@.len() == INPUTS * self.width
        &&& self.input_b@.len() == self.width
        &&& self.output_w@.len() == self.width * CLASSES
        &&& self.output_b@.len() == CLASSES
    }

    /// Row `k` of a matrix holds the weights of input `k`, one after the other: the
    /// weight of pixel `p` in unit `j` stands at position `p * width + j`, that of unit
    /// `j` in class `c` at position `10 * j + c`.
    pub proof fn law_view(self, p: int, j: int, c: int)
        requires
            self.wf(),
            0 <= p < 784,
            0 <= j < self.width,
            0 <= c < 10,
        ensures
            self@.width == self.width,
            self@.input_w.len() == 784,
            self@.input_w[p].len() == self.width,
            self@.input_w[p][j] == self.input_w@[p * self.width + j],
            self@.input_b == self.input_b@,
            self@.input_b.len() == self.width,
            self@.output_w.len() == self.width,
            self@.output_w[j].len() == 10,
            self@.output_w[j][c] == self.output_w@[10 * j + c],
            self@.output_b == self.output_b@,
            self@.output_b.len() == 10,
    {
        self.lemma_view();
        crate::rows::lemma_row_index(self.input_w@, self.width as int, 784, p, j);
        crate::rows::lemma_row_index(self.output_w@, 10, self.width as int, j, c);
    }

    /// The rows of a head are those of its matrices.
    pub proof fn lemma_view(self)
        requires
            self.wf(),
        ensures
            self@.input_w.len() == INPUTS,
            self@.output_w.len() == self.width,
            forall|k: int| 0 <= k < INPUTS ==> (#[trigger] self@.input_w[k]).len() == self.width,
            forall|k: int| 0 <= k < self.width ==> (#[trigger] self@.output_w[k]).len() == CLASSES,
    {
        lemma_rows_len(self.input_w@, self.width as int, INPUTS as int);
        lemma_rows_len(self.output_w@, CLASSES as int, self.width as int);
        assert forall|k: int| 0 <= k < INPUTS implies (#[trigger] self@.input_w[k]).len()
            == self.width by {
            lemma_row_bounds(INPUTS as int, self.width as int, k, 0);
        }
        assert forall|k: int| 0 <= k < self.width implies (#[trigger] self@.output_w[k]).len()
            == CLASSES by {
            lemma_row_bounds(self.width as int, CLASSES as int, k, 0);
        }
    }
}

/// Which network a head belongs to.
#[derive(Clone, Copy, Debug, PartialEq, Eq, Structural)]
pub enum Style {
    /// The narrow network: tanh on the way in, and no term is left out.
    Narrow,
    /// A dense network: tanh on the way in, and black pixels are left out.
    Dense,
    /// A perceptron with one hidden layer: the positive part on the way in, and
    /// black pixels and idle units are left out.
    Mlp,
}

/// `acc` plus `x` times `v`, value by value.
pub open spec fn plus_scaled<T, A: Arith<T>>(ar: A, acc: Seq<T>, x: T, v: Seq<T>) -> Seq<T> {
    Seq::new(acc.len(), |j: int| ar.plus(acc[j], ar.times(x, v[j])))
}

/// `acc` plus `v`, value by value.
pub open spec fn plus_each<T, A: Arith<T>>(ar: A, acc: Seq<T>, v: Seq<T>) -> Seq<T> {
    Seq::new(acc.len(), |j: int| ar.plus(acc[j], v[j]))
}

/// Adds `x` times `v`.
pub fn add_scaled<T: Copy, A: Arith<T>>(ar: &A, acc: &mut Vec<T>, x: T, v: &[T])
    requires
        old(acc)@.len() == v@.len(),
    ensures
        final(acc)@.len() == old(acc)@.len(),
        faithful::<T, A>(*ar) ==> final(acc)@ == plus_scaled(*ar, old(acc)@, x, v@),
        faithful::<T, A>(*ar) ==> forall|j: int|
            0 <= j < old(acc)@.len() ==> #[trigger] final(acc)@[j] == ar.plus(
                old(acc)@[j],
                ar.times(x, v@[j]),
            ),
{
    let n: usize = v.len();
    let mut j: usize = 0;
    while j < n
        invariant
            j <= n,
            n == v@.len() == acc@.len() == old(acc)@.len(),
            forall|k: int| j <= k < n ==> acc@[k] == old(acc)@[k],
            faithful::<T, A>(*ar) ==> forall|k: int|
                0 <= k < j ==> acc@[k] == ar.plus(old(acc)@[k], ar.times(x, v@[k])),
        decreases n - j,
    {
        let term = ar.mul(x, v[j]);
        acc[j] = ar.add(acc[j], term);
        j += 1;
    }
    proof {
        if faithful::<T, A>(*ar) {
            assert(acc@ =~= plus_scaled(*ar, old(acc)@, x, v@));
        }
    }
}

/// Adds `v`.
pub fn add_each<T: Copy, A: Arith<T>>(ar: &A, acc: &mut Vec<T>, v: &[T])
    requires
        old(acc)@.len() == v@.len(),
    ensures
        final(acc)@.len() == old(acc)@.len(),
        faithful::<T, A>(*ar) ==> final(acc)@ == plus_each(*ar, old(acc)@, v@),
        faithful::<T, A>(*ar) ==> forall|j: int|
            0 <= j < old(acc)@.len() ==> #[trigger] final(acc)@[j] == ar.plus(
                old(acc)@[j],
                v@[j],
            ),
{
    let n: usize = v.len();
    let mut j: usize = 0;
    while j < n
        invariant
            j <= n,
            n == v@.len() == acc@.len() == old(acc)@.len(),
            forall|k: int| j <= k < n ==> acc@[k] == old(acc)@[k],
            faithful::<T, A>(*ar) ==> forall|k: int|
                0 <= k < j ==> acc@[k] == ar.plus(old(acc)@[k], v@[k]),
        decreases n - j,
    {
        acc[j] = ar.add(acc[j], v[j]);
        j += 1;
    }
    proof {
        if faithful::<T, A>(*ar) {
            assert(acc@ =~= plus_each(*ar, old(acc)@, v@));
        }
    }
}

/// Adds `x` times `v` to row `i` of a flat buffer.
pub fn add_scaled_row<T: Copy, A: Arith<T>>(ar: &A, s: &mut Vec<T>, w: usize, i: usize, x: T, v: &[T])
    requires
        0 < w,
        v@.len() == w,
        i < rows(old(s)@, w as int).len(),
    ensures
        final(s)@.len() == old(s)@.len(),
        rows(final(s)@, w as int).len() == rows(old(s)@, w as int).len(),
        rows(final(s)@, w as int) == rows(old(s)@, w as int).update(
            i as int,
            rows(final(s)@, w as int)[i as int],
        ),
        faithful::<T, A>(*ar) ==> rows(final(s)@, w as int)[i as int] == plus_scaled(
            *ar,
            rows(old(s)@, w as int)[i as int],
            x,
            v@,
        ),
{
    let total: usize = s.len();
    let ghost n = rows(s@, w as int).len() as int;
    let ghost before = rows(s@, w as int);
    proof {
        lemma_rows_fit(s@, w as int);
        lemma_row_bounds(n, w as int, i as int, 0);
        assert(before.update(i as int, before[i as int]) =~= before);
    }
    let start: usize = i * w;
    let mut j: usize = 0;
    while j < w
        invariant
            0 < w,
            j <= w,
            0 <= i < n,
            start == i * w,
            v@.len() == w,
            start + w <= s@.len(),
            n * w <= s@.len(),
            total == s@.len() == old(s)@.len(),
            before == rows(old(s)@, w as int),
            n == before.len(),
            before[i as int].len() == w,
            rows(s@, w as int) == before.update(i as int, rows(s@, w as int)[i as int]),
            rows(s@, w as int)[i as int].len() == w,
            forall|k: int| j <= k < w ==> rows(s@, w as int)[i as int][k] == before[i as int][k],
            faithful::<T, A>(*ar) ==> forall|k: int|
                0 <= k < j ==> rows(s@, w as int)[i as int][k] == ar.plus(
                    before[i as int][k],
                    ar.times(x, v@[k]),
                ),
        decreases w - j,
    {
        let term = ar.mul(x, v[j]);
        let sum = ar.add(s[start + j], term);
        proof {
            crate::rows::lemma_row_index(s@, w as int, n, i as int, j as int);
            lemma_row_update(s@, w as int, n, i as int, j as int, sum);
            let now = rows(s@, w as int);
            let next = now[i as int].update(j as int, sum);
            assert(now.update(i as int, next) =~= before.update(i as int, next));
        }
        s[start + j] = sum;
        j += 1;
    }
    proof {
        if faithful::<T, A>(*ar) {
            assert(rows(s@, w as int)[i as int] =~= plus_scaled(*ar, before[i as int], x, v@));
        }
    }
}

} // verus!
