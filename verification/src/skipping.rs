use crate::arith::Arith;
use crate::exact::exact;
use crate::exact::lemma_plus_zero;
use crate::exact::lemma_times_comm;
use crate::exact::lemma_times_zero;
use crate::head::plus_scaled;
use crate::head::HeadView;
use crate::head::Style;
use crate::passes::input_sums;
use crate::passes::logits;
use vstd::prelude::*;

verus! {

/// What compares equal to zero is zero.
pub open spec fn one_zero<T, A: Arith<T>>(ar: A) -> bool {
    forall|x: T| #[trigger] ar.is_same(x, ar.whole(0)) ==> x == ar.whole(0)
}

/// Without rounding, a zero times anything adds nothing.
proof fn lemma_zero_adds_nothing<T, A: Arith<T>>(ar: A, acc: Seq<T>, v: Seq<T>)
    requires
        exact::<T, A>(ar),
    ensures
        plus_scaled(ar, acc, ar.whole(0), v) == acc,
{
    assert forall|j: int| 0 <= j < acc.len() implies plus_scaled(ar, acc, ar.whole(0), v)[j]
        == acc[j] by {
        lemma_times_comm(ar, ar.whole(0), v[j]);
        lemma_times_zero(ar, v[j]);
        lemma_plus_zero(ar, acc[j]);
    }
    assert(plus_scaled(ar, acc, ar.whole(0), v) =~= acc);
}

/// Leaving out black pixels saves time and changes nothing: without rounding, a
/// head sums up an image alike in all styles.
pub proof fn law_skipped_pixels_add_nothing<T, A: Arith<T>>(
    ar: A,
    a: Style,
    b: Style,
    head: HeadView<T>,
    image: Seq<T>,
    k: int,
)
    requires
        exact::<T, A>(ar),
        one_zero::<T, A>(ar),
    ensures
        input_sums(ar, a, head, image, k) == input_sums(ar, b, head, image, k),
    decreases k,
{
    if k > 0 {
        law_skipped_pixels_add_nothing(ar, a, b, head, image, k - 1);
        let before = input_sums(ar, a, head, image, k - 1);
        lemma_zero_adds_nothing(ar, before, head.input_w[k - 1]);
    }
}

/// Leaving out idle units saves time and changes nothing: without rounding, a
/// head rates what leaves the layers alike in all styles.
pub proof fn law_skipped_units_add_nothing<T, A: Arith<T>>(
    ar: A,
    a: Style,
    b: Style,
    head: HeadView<T>,
    h: Seq<T>,
    k: int,
)
    requires
        exact::<T, A>(ar),
        one_zero::<T, A>(ar),
    ensures
        logits(ar, a, head, h, k) == logits(ar, b, head, h, k),
    decreases k,
{
    if k > 0 {
        law_skipped_units_add_nothing(ar, a, b, head, h, k - 1);
        let before = logits(ar, a, head, h, k - 1);
        lemma_zero_adds_nothing(ar, before, head.output_w[k - 1]);
    }
}

} // verus!
