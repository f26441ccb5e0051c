use crate::arith::descend;
use crate::arith::descended;
use crate::arith::faithful;
use crate::arith::filled;
use crate::arith::Arith;
use crate::head::add_each;
use crate::head::add_scaled;
use crate::head::add_scaled_row;
use crate::head::plus_each;
use crate::head::plus_scaled;
use crate::head::Head;
use crate::head::HeadView;
use crate::head::Style;
use crate::layout::CLASSES;
use crate::layout::INPUTS;
use crate::rows::copied;
use crate::rows::lemma_row_bounds;
use crate::rows::lemma_rows_len;
use crate::rows::row;
use crate::rows::rows;
use crate::rows::set_row;
use crate::softmax::log_prob;
use crate::softmax::log_probability;
use crate::softmax::logit_gradients;
use crate::softmax::predict;
use crate::softmax::prediction;
use crate::softmax::probabilities;
use crate::softmax::sample_loss;
use crate::softmax::softmax;
use crate::softmax::softmax_gradient;
use vstd::prelude::*;

verus! {

/// The loss of a batch, and how many of its samples were classified correctly.
pub struct StepStats<T> {
    pub loss: T,
    pub correct: usize,
}

/// Whether a term with factor `x` on the way in is left out.
pub open spec fn skips_pixel<T, A: Arith<T>>(ar: A, style: Style, x: T) -> bool {
    style != Style::Narrow && ar.is_same(x, ar.whole(0))
}

/// Whether a term with factor `h` on the way out is left out.
pub open spec fn skips_unit<T, A: Arith<T>>(ar: A, style: Style, h: T) -> bool {
    style == Style::Mlp && ar.is_same(h, ar.whole(0))
}

/// The input bias plus the weighted first `k` pixels of an image, in order.
pub open spec fn input_sums<T, A: Arith<T>>(
    ar: A,
    style: Style,
    head: HeadView<T>,
    image: Seq<T>,
    k: int,
) -> Seq<T>
    decreases k,
{
    if k <= 0 {
        head.input_b
    } else {
        let before = input_sums(ar, style, head, image, k - 1);
        if skips_pixel(ar, style, image[k - 1]) {
            before
        } else {
            plus_scaled(ar, before, image[k - 1], head.input_w[k - 1])
        }
    }
}

/// What enters the layers for one image.
pub open spec fn input_sample<T, A: Arith<T>>(
    ar: A,
    style: Style,
    head: HeadView<T>,
    image: Seq<T>,
) -> Seq<T> {
    let sums = input_sums(ar, style, head, image, INPUTS as int);
    Seq::new(
        sums.len(),
        |j: int|
            if style == Style::Mlp {
                ar.larger(sums[j], ar.whole(0))
            } else {
                ar.tanh_of(sums[j])
            },
    )
}

/// The images that a batch of indices picks.
pub open spec fn picked_images<T>(images: Seq<T>, indices: Seq<usize>) -> Seq<Seq<T>> {
    Seq::new(indices.len(), |i: int| rows(images, INPUTS as int)[indices[i] as int])
}

/// The labels that a batch of indices picks.
pub open spec fn picked_labels(labels: Seq<u8>, indices: Seq<usize>) -> Seq<int> {
    Seq::new(indices.len(), |i: int| labels[indices[i] as int] as int)
}

/// What enters the layers for a batch of images.
pub open spec fn input_batch<T, A: Arith<T>>(
    ar: A,
    style: Style,
    head: HeadView<T>,
    images: Seq<Seq<T>>,
) -> Seq<Seq<T>> {
    Seq::new(images.len(), |i: int| input_sample(ar, style, head, images[i]))
}

/// Every index picks an image.
pub open spec fn indices_pick_images<T>(images: Seq<T>, indices: Seq<usize>) -> bool {
    forall|i: int|
        0 <= i < indices.len() ==> (#[trigger] indices[i]) < rows(images, INPUTS as int).len()
}

/// Every index picks a label.
pub open spec fn indices_pick_labels(labels: Seq<u8>, indices: Seq<usize>) -> bool {
    forall|i: int| 0 <= i < indices.len() ==> (#[trigger] indices[i]) < labels.len()
}

/// Sums of an image keep the length of the bias.
pub proof fn lemma_input_sums_len<T, A: Arith<T>>(
    ar: A,
    style: Style,
    head: HeadView<T>,
    image: Seq<T>,
    k: int,
)
    ensures
        input_sums(ar, style, head, image, k).len() == head.input_b.len(),
    decreases k,
{
    if k > 0 {
        lemma_input_sums_len(ar, style, head, image, k - 1);
    }
}

/// What enters the layers for one image.
fn input_row<T: Copy, A: Arith<T>>(ar: &A, style: Style, head: &Head<T>, image: &[T]) -> (h: Vec<T>)
    requires
        head.wf(),
        image@.len() == INPUTS,
    ensures
        h@.len() == head.width,
        faithful::<T, A>(*ar) ==> h@ == input_sample(*ar, style, head@, image@),
{
    let w: usize = head.width;
    proof {
        head.lemma_view();
    }
    let zero = ar.from_u64(0);
    let mut sums: Vec<T> = copied(&head.input_b);
    let mut k: usize = 0;
    while k < INPUTS
        invariant
            k <= INPUTS,
            w == head.width,
            head.wf(),
            head@.input_w.len() == INPUTS,
            image@.len() == INPUTS,
            sums@.len() == w,
            faithful::<T, A>(*ar) ==> zero == ar.whole(0),
            faithful::<T, A>(*ar) ==> sums@ == input_sums(*ar, style, head@, image@, k as int),
        decreases INPUTS - k,
    {
        let skipped = if let Style::Narrow = style {
            false
        } else {
            ar.same(image[k], zero)
        };
        if !skipped {
            add_scaled(ar, &mut sums, image[k], row(head.input_w.as_slice(), w, k));
        }
        k += 1;
    }
    let mut h: Vec<T> = Vec::with_capacity(w);
    let mut j: usize = 0;
    while j < w
        invariant
            j <= w,
            sums@.len() == w,
            h@.len() == j,
            faithful::<T, A>(*ar) ==> zero == ar.whole(0),
            faithful::<T, A>(*ar) ==> sums@ == input_sums(*ar, style, head@, image@, INPUTS as int),
            faithful::<T, A>(*ar) ==> forall|m: int|
                0 <= m < j ==> h@[m] == input_sample(*ar, style, head@, image@)[m],
        decreases w - j,
    {
        let value = if let Style::Mlp = style {
            ar.max(sums[j], zero)
        } else {
            ar.tanh(sums[j])
        };
        h.push(value);
        j += 1;
    }
    proof {
        if faithful::<T, A>(*ar) {
            assert(h@ =~= input_sample(*ar, style, head@, image@));
        }
    }
    h
}

/// What enters the layers for the images that `indices` picks.
pub fn input_forward<T: Copy, A: Arith<T>>(
    ar: &A,
    style: Style,
    head: &Head<T>,
    images: &[T],
    indices: &[usize],
) -> (h: Vec<T>)
    requires
        head.wf(),
        indices_pick_images(images@, indices@),
        indices@.len() * head.width <= usize::MAX,
    ensures
        h@.len() == indices@.len() * head.width,
        faithful::<T, A>(*ar) ==> rows(h@, head.width as int) == input_batch(
            *ar,
            style,
            head@,
            picked_images(images@, indices@),
        ),
{
    let w: usize = head.width;
    let batch: usize = indices.len();
    let ghost wanted = input_batch(*ar, style, head@, picked_images(images@, indices@));
    let mut h: Vec<T> = filled(batch * w, ar.from_u64(0));
    proof {
        lemma_rows_len(h@, w as int, batch as int);
    }
    let mut i: usize = 0;
    while i < batch
        invariant
            i <= batch,
            batch == indices@.len(),
            w == head.width,
            head.wf(),
            indices_pick_images(images@, indices@),
            wanted == input_batch(*ar, style, head@, picked_images(images@, indices@)),
            h@.len() == batch * w,
            rows(h@, w as int).len() == batch,
            faithful::<T, A>(*ar) ==> forall|m: int|
                0 <= m < i ==> rows(h@, w as int)[m] == wanted[m],
        decreases batch - i,
    {
        let values = input_row(ar, style, head, row(images, INPUTS, indices[i]));
        set_row(&mut h, w, i, &values);
        i += 1;
    }
    proof {
        if faithful::<T, A>(*ar) {
            assert(rows(h@, w as int) =~= wanted);
        }
    }
    h
}

/// The output bias plus the weighted first `k` values of a sample, in order.
pub open spec fn logits<T, A: Arith<T>>(
    ar: A,
    style: Style,
    head: HeadView<T>,
    h: Seq<T>,
    k: int,
) -> Seq<T>
    decreases k,
{
    if k <= 0 {
        head.output_b
    } else {
        let before = logits(ar, style, head, h, k - 1);
        if skips_unit(ar, style, h[k - 1]) {
            before
        } else {
            plus_scaled(ar, before, h[k - 1], head.output_w[k - 1])
        }
    }
}

/// Logits keep the length of the bias.
pub proof fn lemma_logits_len<T, A: Arith<T>>(
    ar: A,
    style: Style,
    head: HeadView<T>,
    h: Seq<T>,
    k: int,
)
    ensures
        logits(ar, style, head, h, k).len() == head.output_b.len(),
    decreases k,
{
    if k > 0 {
        lemma_logits_len(ar, style, head, h, k - 1);
    }
}

/// The probability of each class for each sample of a batch.
pub open spec fn batch_probabilities<T, A: Arith<T>>(
    ar: A,
    style: Style,
    head: HeadView<T>,
    hs: Seq<Seq<T>>,
) -> Seq<Seq<T>> {
    Seq::new(hs.len(), |i: int| probabilities(ar, logits(ar, style, head, hs[i], head.width)))
}

/// The loss of the first `k` samples, in order.
pub open spec fn total_loss<T, A: Arith<T>>(
    ar: A,
    style: Style,
    probs: Seq<Seq<T>>,
    labels: Seq<int>,
    k: int,
) -> T
    decreases k,
{
    if k <= 0 {
        ar.whole(0)
    } else {
        let before = total_loss(ar, style, probs, labels, k - 1);
        if style != Style::Narrow {
            ar.plus(before, sample_loss(ar, probs[k - 1], labels[k - 1]))
        } else if 0 <= labels[k - 1] < probs[k - 1].len() {
            ar.minus(before, log_probability(ar, probs[k - 1][labels[k - 1]]))
        } else {
            before
        }
    }
}

/// How many of the first `k` samples are predicted as labelled.
pub open spec fn correct_count<T, A: Arith<T>>(
    ar: A,
    probs: Seq<Seq<T>>,
    labels: Seq<int>,
    k: int,
) -> int
    decreases k,
{
    if k <= 0 {
        0
    } else {
        correct_count(ar, probs, labels, k - 1) + if prediction(ar, probs[k - 1]) == labels[k - 1] {
            1int
        } else {
            0int
        }
    }
}

/// How the mean loss of a batch changes with the logits of each sample.
pub open spec fn batch_logit_gradients<T, A: Arith<T>>(
    ar: A,
    probs: Seq<Seq<T>>,
    labels: Seq<int>,
    scale: T,
) -> Seq<Seq<T>> {
    Seq::new(probs.len(), |i: int| logit_gradients(ar, probs[i], labels[i], scale))
}

/// A matrix of zeros.
pub open spec fn zeros<T, A: Arith<T>>(ar: A, n: int, m: int) -> Seq<Seq<T>> {
    Seq::new(n as nat, |k: int| Seq::new(m as nat, |j: int| ar.whole(0)))
}

/// How the loss of the first `n` samples changes with the output weights.
pub open spec fn output_gradient<T, A: Arith<T>>(
    ar: A,
    width: int,
    hs: Seq<Seq<T>>,
    gs: Seq<Seq<T>>,
    n: int,
) -> Seq<Seq<T>>
    decreases n,
{
    if n <= 0 {
        zeros(ar, width, CLASSES as int)
    } else {
        let before = output_gradient(ar, width, hs, gs, n - 1);
        Seq::new(width as nat, |k: int| plus_scaled(ar, before[k], hs[n - 1][k], gs[n - 1]))
    }
}

/// The sum of the first `n` rows of `gs`, each of `m` values.
pub open spec fn bias_gradient<T, A: Arith<T>>(ar: A, m: int, gs: Seq<Seq<T>>, n: int) -> Seq<T>
    decreases n,
{
    if n <= 0 {
        Seq::new(m as nat, |j: int| ar.whole(0))
    } else {
        plus_each(ar, bias_gradient(ar, m, gs, n - 1), gs[n - 1])
    }
}

/// The sum of the first `c` class gradients, each times the weight of its
/// class.
pub open spec fn class_sum<T, A: Arith<T>>(
    ar: A,
    style: Style,
    weights: Seq<T>,
    g: Seq<T>,
    c: int,
) -> T
    decreases c,
{
    if c <= 0 {
        ar.whole(0)
    } else {
        ar.plus(
            class_sum(ar, style, weights, g, c - 1),
            if style == Style::Narrow {
                ar.times(g[c - 1], weights[c - 1])
            } else {
                ar.times(weights[c - 1], g[c - 1])
            },
        )
    }
}

/// How the loss changes with what leaves the layers, for one sample.
pub open spec fn leaving_gradient<T, A: Arith<T>>(
    ar: A,
    style: Style,
    head: HeadView<T>,
    g: Seq<T>,
) -> Seq<T> {
    Seq::new(
        head.width as nat,
        |k: int| class_sum(ar, style, head.output_w[k], g, CLASSES as int),
    )
}

/// A matrix after one step of gradient descent.
pub open spec fn trained_rows<T, A: Arith<T>>(
    ar: A,
    w: Seq<Seq<T>>,
    grad: Seq<Seq<T>>,
    lr: T,
) -> Seq<Seq<T>> {
    Seq::new(w.len(), |k: int| descended(ar, w[k], grad[k], lr))
}

/// What the output part of one training step gives.
pub struct OutputStep<T> {
    pub loss: T,
    pub correct: int,
    pub head: HeadView<T>,
    /// How the loss changes with what leaves the layers.
    pub grads: Seq<Seq<T>>,
}

/// The output part of one training step on a batch: its loss, and one step of
/// gradient descent on the output weights and bias.
pub open spec fn output_step<T, A: Arith<T>>(
    ar: A,
    style: Style,
    head: HeadView<T>,
    hs: Seq<Seq<T>>,
    labels: Seq<int>,
    lr: T,
) -> OutputStep<T> {
    let n = hs.len() as int;
    let scale = ar.over(ar.whole(1), ar.whole(n as u64));
    let probs = batch_probabilities(ar, style, head, hs);
    let gs = batch_logit_gradients(ar, probs, labels, scale);
    OutputStep {
        loss: ar.times(total_loss(ar, style, probs, labels, n), scale),
        correct: correct_count(ar, probs, labels, n),
        head: HeadView {
            output_w: trained_rows(
                ar,
                head.output_w,
                output_gradient(ar, head.width, hs, gs, n),
                lr,
            ),
            output_b: descended(ar, head.output_b, bias_gradient(ar, CLASSES as int, gs, n), lr),
            ..head
        },
        grads: Seq::new(hs.len(), |i: int| leaving_gradient(ar, style, head, gs[i])),
    }
}

/// Descent on a flat matrix is descent on its rows.
proof fn lemma_descended_rows<T, A: Arith<T>>(
    ar: A,
    w: Seq<T>,
    grad: Seq<T>,
    lr: T,
    m: int,
    n: int,
)
    requires
        0 < m,
        0 <= n,
        w.len() == n * m,
        grad.len() == n * m,
    ensures
        rows(descended(ar, w, grad, lr), m) == trained_rows(ar, rows(w, m), rows(grad, m), lr),
{
    let t = descended(ar, w, grad, lr);
    lemma_rows_len(w, m, n);
    lemma_rows_len(grad, m, n);
    lemma_rows_len(t, m, n);
    let wanted = trained_rows(ar, rows(w, m), rows(grad, m), lr);
    assert forall|k: int| 0 <= k < n implies rows(t, m)[k] == wanted[k] by {
        lemma_row_bounds(n, m, k, 0);
        assert(rows(t, m)[k] =~= wanted[k]);
    }
    assert(rows(t, m) =~= wanted);
}

/// The logits of one sample.
fn logit_row<T: Copy, A: Arith<T>>(ar: &A, style: Style, head: &Head<T>, h: &[T]) -> (r: Vec<T>)
    requires
        head.wf(),
        h@.len() == head.width,
    ensures
        r@.len() == CLASSES,
        faithful::<T, A>(*ar) ==> r@ == logits(*ar, style, head@, h@, head.width as int),
{
    let w: usize = head.width;
    proof {
        head.lemma_view();
    }
    let zero = ar.from_u64(0);
    let mut r: Vec<T> = copied(&head.output_b);
    let mut k: usize = 0;
    while k < w
        invariant
            k <= w,
            w == head.width,
            head.wf(),
            head@.output_w.len() == w,
            h@.len() == w,
            r@.len() == CLASSES,
            faithful::<T, A>(*ar) ==> zero == ar.whole(0),
            faithful::<T, A>(*ar) ==> r@ == logits(*ar, style, head@, h@, k as int),
        decreases w - k,
    {
        let skipped = if let Style::Mlp = style {
            ar.same(h[k], zero)
        } else {
            false
        };
        if !skipped {
            add_scaled(ar, &mut r, h[k], row(head.output_w.as_slice(), CLASSES, k));
        }
        k += 1;
    }
    r
}

/// Adds the loss of one sample to `total`.
fn add_loss<T: Copy, A: Arith<T>>(
    ar: &A,
    style: Style,
    total: T,
    probs: &[T],
    label: usize,
) -> (r: T)
    ensures
        faithful::<T, A>(*ar) ==> r == (if style != Style::Narrow {
            ar.plus(total, sample_loss(*ar, probs@, label as int))
        } else if label < probs@.len() {
            ar.minus(total, log_probability(*ar, probs@[label as int]))
        } else {
            total
        }),
{
    if let Style::Narrow = style {
        if label < probs.len() {
            ar.sub(total, log_prob(ar, probs[label]))
        } else {
            total
        }
    } else {
        let loss = if label < probs.len() {
            ar.neg(log_prob(ar, probs[label]))
        } else {
            ar.from_u64(0)
        };
        ar.add(total, loss)
    }
}

/// How the loss changes with what leaves the layers, for one sample.
fn leaving_row<T: Copy, A: Arith<T>>(ar: &A, style: Style, head: &Head<T>, g: &[T]) -> (r: Vec<T>)
    requires
        head.wf(),
        g@.len() == CLASSES,
    ensures
        r@.len() == head.width,
        faithful::<T, A>(*ar) ==> r@ == leaving_gradient(*ar, style, head@, g@),
{
    let w: usize = head.width;
    proof {
        head.lemma_view();
    }
    let mut r: Vec<T> = Vec::with_capacity(w);
    let mut k: usize = 0;
    while k < w
        invariant
            k <= w,
            w == head.width,
            head.wf(),
            head@.output_w.len() == w,
            g@.len() == CLASSES,
            r@.len() == k,
            faithful::<T, A>(*ar) ==> forall|m: int|
                0 <= m < k ==> r@[m] == leaving_gradient(*ar, style, head@, g@)[m],
        decreases w - k,
    {
        let weights = row(head.output_w.as_slice(), CLASSES, k);
        let mut sum = ar.from_u64(0);
        let mut c: usize = 0;
        while c < CLASSES
            invariant
                c <= CLASSES,
                g@.len() == CLASSES,
                weights@.len() == CLASSES,
                faithful::<T, A>(*ar) ==> sum == class_sum(*ar, style, weights@, g@, c as int),
            decreases CLASSES - c,
        {
            let term = if let Style::Narrow = style {
                ar.mul(g[c], weights[c])
            } else {
                ar.mul(weights[c], g[c])
            };
            sum = ar.add(sum, term);
            c += 1;
        }
        r.push(sum);
        k += 1;
    }
    proof {
        if faithful::<T, A>(*ar) {
            assert(r@ =~= leaving_gradient(*ar, style, head@, g@));
        }
    }
    r
}

/// Adds what one sample adds to the gradient of the output weights.
fn add_output_gradient<T: Copy, A: Arith<T>>(
    ar: &A,
    grad_w: &mut Vec<T>,
    width: usize,
    h: &[T],
    g: &[T],
)
    requires
        old(grad_w)@.len() == width * CLASSES,
        h@.len() == width,
        g@.len() == CLASSES,
    ensures
        final(grad_w)@.len() == old(grad_w)@.len(),
        faithful::<T, A>(*ar) ==> rows(final(grad_w)@, CLASSES as int) == Seq::new(
            width as nat,
            |k: int| plus_scaled(*ar, rows(old(grad_w)@, CLASSES as int)[k], h@[k], g@),
        ),
{
    let ghost before = rows(grad_w@, CLASSES as int);
    let ghost wanted = Seq::new(width as nat, |k: int| plus_scaled(*ar, before[k], h@[k], g@));
    proof {
        lemma_rows_len(grad_w@, CLASSES as int, width as int);
    }
    let mut k: usize = 0;
    while k < width
        invariant
            k <= width,
            grad_w@.len() == width * CLASSES,
            h@.len() == width,
            g@.len() == CLASSES,
            before.len() == width,
            wanted == Seq::new(width as nat, |k: int| plus_scaled(*ar, before[k], h@[k], g@)),
            rows(grad_w@, CLASSES as int).len() == width,
            forall|m: int| k <= m < width ==> rows(grad_w@, CLASSES as int)[m] == before[m],
            faithful::<T, A>(*ar) ==> forall|m: int|
                0 <= m < k ==> rows(grad_w@, CLASSES as int)[m] == wanted[m],
        decreases width - k,
    {
        add_scaled_row(ar, grad_w, CLASSES, k, h[k], g);
        k += 1;
    }
    proof {
        if faithful::<T, A>(*ar) {
            assert(rows(grad_w@, CLASSES as int) =~= wanted);
        }
    }
}

/// A zeroed flat matrix has rows of zeros.
proof fn lemma_zero_rows<T, A: Arith<T>>(ar: A, s: Seq<T>, n: int, m: int)
    requires
        0 < m,
        0 <= n,
        s == Seq::new((n * m) as nat, |i: int| ar.whole(0)),
        s.len() == n * m,
    ensures
        rows(s, m) == zeros(ar, n, m),
{
    lemma_rows_len(s, m, n);
    assert forall|k: int| 0 <= k < n implies rows(s, m)[k] == zeros(ar, n, m)[k] by {
        lemma_row_bounds(n, m, k, 0);
        assert(rows(s, m)[k] =~= zeros(ar, n, m)[k]);
    }
    assert(rows(s, m) =~= zeros(ar, n, m));
}

/// The loss of a batch, and one step of gradient descent on the output weights
/// and bias. Also returns how the loss changes with what leaves the layers.
pub fn output_loss_backward_update<T: Copy, A: Arith<T>>(
    ar: &A,
    style: Style,
    head: &mut Head<T>,
    final_h: &[T],
    labels: &[u8],
    indices: &[usize],
    lr: T,
) -> (r: (StepStats<T>, Vec<T>))
    requires
        old(head).wf(),
        final_h@.len() == indices@.len() * old(head).width,
        indices_pick_labels(labels@, indices@),
    ensures
        final(head).wf(),
        final(head).width == old(head).width,
        final(head).input_w == old(head).input_w,
        final(head).input_b == old(head).input_b,
        r.0.correct <= indices@.len(),
        r.1@.len() == final_h@.len(),
        faithful::<T, A>(*ar) ==> ({
            let step = output_step(
                *ar,
                style,
                old(head)@,
                rows(final_h@, old(head).width as int),
                picked_labels(labels@, indices@),
                lr,
            );
            &&& r.0.loss == step.loss
            &&& r.0.correct == step.correct
            &&& final(head)@ == step.head
            &&& rows(r.1@, old(head).width as int) == step.grads
        }),
{
    let w: usize = head.width;
    let batch: usize = indices.len();
    let ghost hs = rows(final_h@, w as int);
    let ghost chosen = picked_labels(labels@, indices@);
    let ghost hv = head@;
    let ghost step = output_step(*ar, style, hv, hs, chosen, lr);
    let scale = ar.div(ar.from_u64(1), ar.from_u64(batch as u64));
    let ghost probs = batch_probabilities(*ar, style, hv, hs);
    let ghost gs = batch_logit_gradients(
        *ar,
        probs,
        chosen,
        ar.over(ar.whole(1), ar.whole(batch as u64)),
    );
    proof {
        head.lemma_view();
        lemma_rows_len(final_h@, w as int, batch as int);
    }
    let zero = ar.from_u64(0);
    let mut grad_h: Vec<T> = filled(final_h.len(), zero);
    let mut grad_w: Vec<T> = filled(head.output_w.len(), zero);
    let mut grad_b: Vec<T> = filled(CLASSES, zero);
    let mut total = ar.from_u64(0);
    let mut correct: usize = 0;
    proof {
        if faithful::<T, A>(*ar) {
            lemma_zero_rows(*ar, grad_w@, w as int, CLASSES as int);
            assert(grad_b@ =~= bias_gradient(*ar, CLASSES as int, gs, 0));
        }
    }
    let mut i: usize = 0;
    while i < batch
        invariant
            i <= batch,
            batch == indices@.len() == hs.len() == chosen.len(),
            w == head.width,
            head.wf(),
            *head == *old(head),
            hv == head@,
            hs == rows(final_h@, w as int),
            chosen == picked_labels(labels@, indices@),
            probs == batch_probabilities(*ar, style, hv, hs),
            gs == batch_logit_gradients(
                *ar,
                probs,
                chosen,
                ar.over(ar.whole(1), ar.whole(batch as u64)),
            ),
            step == output_step(*ar, style, hv, hs, chosen, lr),
            indices_pick_labels(labels@, indices@),
            grad_h@.len() == final_h@.len(),
            rows(grad_h@, w as int).len() == batch,
            grad_w@.len() == w * CLASSES,
            grad_b@.len() == CLASSES,
            correct <= i,
            faithful::<T, A>(*ar) ==> scale == ar.over(ar.whole(1), ar.whole(batch as u64)),
            faithful::<T, A>(*ar) ==> total == total_loss(*ar, style, probs, chosen, i as int),
            faithful::<T, A>(*ar) ==> correct == correct_count(*ar, probs, chosen, i as int),
            faithful::<T, A>(*ar) ==> rows(grad_w@, CLASSES as int) == output_gradient(
                *ar,
                w as int,
                hs,
                gs,
                i as int,
            ),
            faithful::<T, A>(*ar) ==> grad_b@ == bias_gradient(*ar, CLASSES as int, gs, i as int),
            faithful::<T, A>(*ar) ==> forall|m: int|
                0 <= m < i ==> rows(grad_h@, w as int)[m] == step.grads[m],
        decreases batch - i,
    {
        let h = row(final_h, w, i);
        let sample = softmax(ar, logit_row(ar, style, head, h).as_slice());
        let label: usize = labels[indices[i]] as usize;
        total = add_loss(ar, style, total, sample.as_slice(), label);
        if predict(ar, sample.as_slice()) == label {
            correct += 1;
        }
        let g = softmax_gradient(ar, sample.as_slice(), label, scale);
        add_each(ar, &mut grad_b, g.as_slice());
        add_output_gradient(ar, &mut grad_w, w, h, g.as_slice());
        let values = leaving_row(ar, style, head, g.as_slice());
        set_row(&mut grad_h, w, i, &values);
        i += 1;
    }
    proof {
        if faithful::<T, A>(*ar) {
            assert(rows(grad_h@, w as int) =~= step.grads);
            lemma_descended_rows(*ar, head.output_w@, grad_w@, lr, CLASSES as int, w as int);
        }
    }
    descend(ar, &mut head.output_w, &grad_w, lr);
    descend(ar, &mut head.output_b, &grad_b, lr);
    (StepStats { loss: ar.mul(total, scale), correct }, grad_h)
}

/// The mean loss of a batch that leaves the layers as `hs`, and how many of its
/// samples are classified correctly.
pub open spec fn evaluated<T, A: Arith<T>>(
    ar: A,
    style: Style,
    head: HeadView<T>,
    hs: Seq<Seq<T>>,
    labels: Seq<int>,
) -> (T, int) {
    let n = hs.len() as int;
    let probs = batch_probabilities(ar, style, head, hs);
    (
        ar.over(total_loss(ar, style, probs, labels, n), ar.whole(n as u64)),
        correct_count(ar, probs, labels, n),
    )
}

/// The mean loss of a batch, and how many of its samples are classified
/// correctly.
pub fn eval_output<T: Copy, A: Arith<T>>(
    ar: &A,
    style: Style,
    head: &Head<T>,
    final_h: &[T],
    labels: &[u8],
    indices: &[usize],
) -> (r: StepStats<T>)
    requires
        head.wf(),
        final_h@.len() == indices@.len() * head.width,
        indices_pick_labels(labels@, indices@),
    ensures
        r.correct <= indices@.len(),
        faithful::<T, A>(*ar) ==> (r.loss, r.correct as int) == evaluated(
            *ar,
            style,
            head@,
            rows(final_h@, head.width as int),
            picked_labels(labels@, indices@),
        ),
{
    let w: usize = head.width;
    let batch: usize = indices.len();
    let ghost hs = rows(final_h@, w as int);
    let ghost chosen = picked_labels(labels@, indices@);
    let ghost probs = batch_probabilities(*ar, style, head@, hs);
    proof {
        lemma_rows_len(final_h@, w as int, batch as int);
    }
    let mut total = ar.from_u64(0);
    let mut correct: usize = 0;
    let mut i: usize = 0;
    while i < batch
        invariant
            i <= batch,
            batch == indices@.len() == hs.len() == chosen.len(),
            w == head.width,
            head.wf(),
            hs == rows(final_h@, w as int),
            chosen == picked_labels(labels@, indices@),
            probs == batch_probabilities(*ar, style, head@, hs),
            indices_pick_labels(labels@, indices@),
            correct <= i,
            faithful::<T, A>(*ar) ==> total == total_loss(*ar, style, probs, chosen, i as int),
            faithful::<T, A>(*ar) ==> correct == correct_count(*ar, probs, chosen, i as int),
        decreases batch - i,
    {
        let sample = softmax(ar, logit_row(ar, style, head, row(final_h, w, i)).as_slice());
        let label: usize = labels[indices[i]] as usize;
        total = add_loss(ar, style, total, sample.as_slice(), label);
        if predict(ar, sample.as_slice()) == label {
            correct += 1;
        }
        i += 1;
    }
    StepStats { loss: ar.div(total, ar.from_u64(batch as u64)), correct }
}

/// How the loss changes with the sums of one image, where `h` is what they
/// became and `g` how it changes with that.
pub open spec fn entering_delta<T, A: Arith<T>>(
    ar: A,
    style: Style,
    h: Seq<T>,
    g: Seq<T>,
) -> Seq<T> {
    Seq::new(
        h.len(),
        |j: int|
            if style != Style::Mlp {
                ar.times(g[j], ar.minus(ar.whole(1), ar.times(h[j], h[j])))
            } else if ar.is_at_most(h[j], ar.whole(0)) {
                ar.whole(0)
            } else {
                g[j]
            },
    )
}

/// How the loss changes with the sums of each image of a batch.
pub open spec fn entering_deltas<T, A: Arith<T>>(
    ar: A,
    style: Style,
    hs: Seq<Seq<T>>,
    gs: Seq<Seq<T>>,
) -> Seq<Seq<T>> {
    Seq::new(hs.len(), |i: int| entering_delta(ar, style, hs[i], gs[i]))
}

/// What one image adds to the gradient of the input weights.
pub open spec fn plus_image<T, A: Arith<T>>(
    ar: A,
    style: Style,
    before: Seq<Seq<T>>,
    image: Seq<T>,
    d: Seq<T>,
) -> Seq<Seq<T>> {
    Seq::new(
        before.len(),
        |k: int|
            if skips_pixel(ar, style, image[k]) {
                before[k]
            } else {
                plus_scaled(ar, before[k], image[k], d)
            },
    )
}

/// How the loss of the first `n` samples changes with the input weights.
pub open spec fn input_gradient<T, A: Arith<T>>(
    ar: A,
    style: Style,
    width: int,
    images: Seq<Seq<T>>,
    ds: Seq<Seq<T>>,
    n: int,
) -> Seq<Seq<T>>
    decreases n,
{
    if n <= 0 {
        zeros(ar, INPUTS as int, width)
    } else {
        plus_image(
            ar,
            style,
            input_gradient(ar, style, width, images, ds, n - 1),
            images[n - 1],
            ds[n - 1],
        )
    }
}

/// One step of gradient descent on the input weights and bias.
pub open spec fn input_step<T, A: Arith<T>>(
    ar: A,
    style: Style,
    head: HeadView<T>,
    images: Seq<Seq<T>>,
    hs: Seq<Seq<T>>,
    gs: Seq<Seq<T>>,
    lr: T,
) -> HeadView<T> {
    let n = images.len() as int;
    let ds = entering_deltas(ar, style, hs, gs);
    HeadView {
        input_w: trained_rows(
            ar,
            head.input_w,
            input_gradient(ar, style, head.width, images, ds, n),
            lr,
        ),
        input_b: descended(ar, head.input_b, bias_gradient(ar, head.width, ds, n), lr),
        ..head
    }
}

/// How the loss changes with the sums of one image.
fn entering_row<T: Copy, A: Arith<T>>(ar: &A, style: Style, h: &[T], g: &[T]) -> (d: Vec<T>)
    requires
        h@.len() == g@.len(),
    ensures
        d@.len() == h@.len(),
        faithful::<T, A>(*ar) ==> d@ == entering_delta(*ar, style, h@, g@),
{
    let w: usize = h.len();
    let zero = ar.from_u64(0);
    let mut d: Vec<T> = Vec::with_capacity(w);
    let mut j: usize = 0;
    while j < w
        invariant
            j <= w,
            w == h@.len() == g@.len(),
            d@.len() == j,
            faithful::<T, A>(*ar) ==> zero == ar.whole(0),
            faithful::<T, A>(*ar) ==> forall|m: int|
                0 <= m < j ==> d@[m] == entering_delta(*ar, style, h@, g@)[m],
        decreases w - j,
    {
        let value = if let Style::Mlp = style {
            if ar.at_most(h[j], zero) {
                zero
            } else {
                g[j]
            }
        } else {
            ar.mul(g[j], ar.sub(ar.from_u64(1), ar.mul(h[j], h[j])))
        };
        d.push(value);
        j += 1;
    }
    proof {
        if faithful::<T, A>(*ar) {
            assert(d@ =~= entering_delta(*ar, style, h@, g@));
        }
    }
    d
}

/// Adds what one image adds to the gradient of the input weights.
fn add_image<T: Copy, A: Arith<T>>(
    ar: &A,
    style: Style,
    grad_w: &mut Vec<T>,
    width: usize,
    image: &[T],
    d: &[T],
)
    requires
        0 < width,
        old(grad_w)@.len() == INPUTS * width,
        image@.len() == INPUTS,
        d@.len() == width,
    ensures
        final(grad_w)@.len() == old(grad_w)@.len(),
        faithful::<T, A>(*ar) ==> rows(final(grad_w)@, width as int) == plus_image(
            *ar,
            style,
            rows(old(grad_w)@, width as int),
            image@,
            d@,
        ),
{
    let ghost before = rows(grad_w@, width as int);
    let ghost wanted = plus_image(*ar, style, before, image@, d@);
    proof {
        lemma_rows_len(grad_w@, width as int, INPUTS as int);
    }
    let zero = ar.from_u64(0);
    let mut k: usize = 0;
    while k < INPUTS
        invariant
            k <= INPUTS,
            0 < width,
            grad_w@.len() == INPUTS * width,
            image@.len() == INPUTS,
            d@.len() == width,
            before.len() == INPUTS,
            wanted == plus_image(*ar, style, before, image@, d@),
            rows(grad_w@, width as int).len() == INPUTS,
            faithful::<T, A>(*ar) ==> zero == ar.whole(0),
            forall|m: int| k <= m < INPUTS ==> rows(grad_w@, width as int)[m] == before[m],
            faithful::<T, A>(*ar) ==> forall|m: int|
                0 <= m < k ==> rows(grad_w@, width as int)[m] == wanted[m],
        decreases INPUTS - k,
    {
        let skipped = if let Style::Narrow = style {
            false
        } else {
            ar.same(image[k], zero)
        };
        if !skipped {
            add_scaled_row(ar, grad_w, width, k, image[k], d);
        }
        k += 1;
    }
    proof {
        if faithful::<T, A>(*ar) {
            assert(rows(grad_w@, width as int) =~= wanted);
        }
    }
}

/// One step of gradient descent on the input weights and bias. `input_h` is
/// what entered the layers, and `grad_h` how the loss changes with it.
pub fn input_backward_update<T: Copy, A: Arith<T>>(
    ar: &A,
    style: Style,
    head: &mut Head<T>,
    images: &[T],
    indices: &[usize],
    input_h: &[T],
    grad_h: &[T],
    lr: T,
)
    requires
        old(head).wf(),
        indices_pick_images(images@, indices@),
        input_h@.len() == indices@.len() * old(head).width,
        grad_h@.len() == indices@.len() * old(head).width,
    ensures
        final(head).wf(),
        final(head).width == old(head).width,
        final(head).output_w == old(head).output_w,
        final(head).output_b == old(head).output_b,
        faithful::<T, A>(*ar) ==> final(head)@ == input_step(
            *ar,
            style,
            old(head)@,
            picked_images(images@, indices@),
            rows(input_h@, old(head).width as int),
            rows(grad_h@, old(head).width as int),
            lr,
        ),
{
    let w: usize = head.width;
    let batch: usize = indices.len();
    let ghost hs = rows(input_h@, w as int);
    let ghost gs = rows(grad_h@, w as int);
    let ghost chosen = picked_images(images@, indices@);
    let ghost ds = entering_deltas(*ar, style, hs, gs);
    proof {
        head.lemma_view();
        lemma_rows_len(input_h@, w as int, batch as int);
        lemma_rows_len(grad_h@, w as int, batch as int);
    }
    let zero = ar.from_u64(0);
    let mut grad_w: Vec<T> = filled(head.input_w.len(), zero);
    let mut grad_b: Vec<T> = filled(w, zero);
    proof {
        if faithful::<T, A>(*ar) {
            lemma_zero_rows(*ar, grad_w@, INPUTS as int, w as int);
            assert(grad_b@ =~= bias_gradient(*ar, w as int, ds, 0));
        }
    }
    let mut i: usize = 0;
    while i < batch
        invariant
            i <= batch,
            batch == indices@.len() == hs.len() == gs.len() == chosen.len(),
            0 < w,
            hs == rows(input_h@, w as int),
            gs == rows(grad_h@, w as int),
            chosen == picked_images(images@, indices@),
            ds == entering_deltas(*ar, style, hs, gs),
            indices_pick_images(images@, indices@),
            grad_w@.len() == INPUTS * w,
            grad_b@.len() == w,
            faithful::<T, A>(*ar) ==> rows(grad_w@, w as int) == input_gradient(
                *ar,
                style,
                w as int,
                chosen,
                ds,
                i as int,
            ),
            faithful::<T, A>(*ar) ==> grad_b@ == bias_gradient(*ar, w as int, ds, i as int),
        decreases batch - i,
    {
        let d = entering_row(ar, style, row(input_h, w, i), row(grad_h, w, i));
        add_each(ar, &mut grad_b, d.as_slice());
        add_image(ar, style, &mut grad_w, w, row(images, INPUTS, indices[i]), d.as_slice());
        i += 1;
    }
    proof {
        if faithful::<T, A>(*ar) {
            lemma_descended_rows(*ar, head.input_w@, grad_w@, lr, w as int, INPUTS as int);
        }
    }
    descend(ar, &mut head.input_w, &grad_w, lr);
    descend(ar, &mut head.input_b, &grad_b, lr);
}

} // verus!
