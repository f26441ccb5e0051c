use crate::head::Style;
use crate::layout::validate_width;
use crate::layout::WidthError;
use crate::layout::MAX_WIDTH;
use crate::sampler::after_draws;
use crate::sampler::draws;
use crate::sampler::law_batches_continue;
use crate::sampler::Sampler;
use vstd::prelude::*;

verus! {

/// Why the options of a run are refused.
#[derive(Clone, Copy, Debug, PartialEq, Eq, Structural)]
pub enum OptionError {
    Width(WidthError),
    /// A perceptron has no hidden units.
    NoHidden,
    /// A batch has no samples.
    NoBatch,
    /// A chunk has no layers.
    NoChunkLayers,
}

/// The verdict on the two options of every run through a weight file.
pub open spec fn stream_verdict(batch: usize, chunk_layers: usize) -> Result<(), OptionError> {
    if batch == 0 {
        Err(OptionError::NoBatch)
    } else if chunk_layers == 0 {
        Err(OptionError::NoChunkLayers)
    } else {
        Ok(())
    }
}

/// The verdict on a width, then on whatever follows it.
pub open spec fn width_verdict(width: usize, rest: Result<(), OptionError>) -> Result<
    (),
    OptionError,
> {
    if width == 0 {
        Err(OptionError::Width(WidthError::Zero))
    } else if width > MAX_WIDTH {
        Err(OptionError::Width(WidthError::TooLarge))
    } else {
        rest
    }
}

/// Checks the options of a run of the narrow network.
pub fn check_narrow(batch: usize, chunk_layers: usize) -> (r: Result<(), OptionError>)
    ensures
        r == stream_verdict(batch, chunk_layers),
        batch == 0 ==> r == Err::<(), OptionError>(OptionError::NoBatch),
        batch > 0 && chunk_layers == 0 ==> r == Err::<(), OptionError>(OptionError::NoChunkLayers),
        batch > 0 && chunk_layers > 0 ==> r == Ok::<(), OptionError>(()),
{
    if batch == 0 {
        return Err(OptionError::NoBatch);
    }
    if chunk_layers == 0 {
        return Err(OptionError::NoChunkLayers);
    }
    Ok(())
}

/// Checks the options of a run of a dense network.
pub fn check_dense(width: usize, batch: usize, chunk_layers: usize) -> (r: Result<(), OptionError>)
    ensures
        r == width_verdict(width, stream_verdict(batch, chunk_layers)),
        width == 0 ==> r == Err::<(), OptionError>(OptionError::Width(WidthError::Zero)),
        width > 512 ==> r == Err::<(), OptionError>(OptionError::Width(WidthError::TooLarge)),
        0 < width <= 512 && batch == 0 ==> r == Err::<(), OptionError>(OptionError::NoBatch),
        0 < width <= 512 && batch > 0 && chunk_layers == 0 ==> r == Err::<(), OptionError>(
            OptionError::NoChunkLayers,
        ),
        r is Ok <==> 0 < width <= 512 && batch > 0 && chunk_layers > 0,
{
    match validate_width(width) {
        Ok(()) => check_narrow(batch, chunk_layers),
        Err(e) => Err(OptionError::Width(e)),
    }
}

/// Checks the options of a run of a perceptron.
pub fn check_mlp(hidden: usize, batch: usize) -> (r: Result<(), OptionError>)
    ensures
        r == (if hidden == 0 {
            Err::<(), OptionError>(OptionError::NoHidden)
        } else if batch == 0 {
            Err::<(), OptionError>(OptionError::NoBatch)
        } else {
            Ok::<(), OptionError>(())
        }),
{
    if hidden == 0 {
        return Err(OptionError::NoHidden);
    }
    if batch == 0 {
        return Err(OptionError::NoBatch);
    }
    Ok(())
}

/// Checks the options under which a narrow weight file is created.
pub fn check_init(chunk_layers: usize) -> (r: Result<(), OptionError>)
    ensures
        r == (if chunk_layers == 0 {
            Err::<(), OptionError>(OptionError::NoChunkLayers)
        } else {
            Ok::<(), OptionError>(())
        }),
{
    if chunk_layers == 0 {
        return Err(OptionError::NoChunkLayers);
    }
    Ok(())
}

/// Checks the options under which a dense weight file is created.
pub fn check_init_dense(width: usize, chunk_layers: usize) -> (r: Result<(), OptionError>)
    ensures
        r == width_verdict(
            width,
            if chunk_layers == 0 {
                Err::<(), OptionError>(OptionError::NoChunkLayers)
            } else {
                Ok::<(), OptionError>(())
            },
        ),
        width == 0 ==> r == Err::<(), OptionError>(OptionError::Width(WidthError::Zero)),
        width > 512 ==> r == Err::<(), OptionError>(OptionError::Width(WidthError::TooLarge)),
        0 < width <= 512 && chunk_layers == 0 ==> r == Err::<(), OptionError>(
            OptionError::NoChunkLayers,
        ),
        r is Ok <==> 0 < width <= 512 && chunk_layers > 0,
{
    match validate_width(width) {
        Ok(()) => check_init(chunk_layers),
        Err(e) => Err(OptionError::Width(e)),
    }
}

/// What to do about the weight file before training.
#[derive(Clone, Copy, Debug, PartialEq, Eq, Structural)]
pub enum WeightsPlan {
    /// Train on the file that is there.
    Use,
    /// Create the file first.
    Create,
    /// Give up: there is no file.
    Missing,
}

/// Decides about the weight file.
pub fn weights_plan(exists: bool, init_if_missing: bool) -> (plan: WeightsPlan)
    ensures
        plan == WeightsPlan::Use <==> exists,
        plan == WeightsPlan::Create <==> !exists && init_if_missing,
        plan == WeightsPlan::Missing <==> !exists && !init_if_missing,
{
    if exists {
        WeightsPlan::Use
    } else if init_if_missing {
        WeightsPlan::Create
    } else {
        WeightsPlan::Missing
    }
}

/// How many samples are used: as many as asked for, if there are so many.
pub fn select(asked: usize, available: usize) -> (n: usize)
    ensures
        n <= asked,
        n <= available,
        n == asked || n == available,
{
    if asked < available {
        asked
    } else {
        available
    }
}

/// How many samples are used, if any.
pub fn select_some(asked: usize, available: usize) -> (r: Option<usize>)
    ensures
        r is None <==> asked == 0 || available == 0,
        r matches Some(n) ==> n > 0 && n <= asked && n <= available && (n == asked || n
            == available),
{
    let n: usize = select(asked, available);
    if n == 0 {
        None
    } else {
        Some(n)
    }
}

/// The bits in which the seed of a new head differs from the seed of its run.
pub open spec fn head_salt(style: Style) -> u64 {
    match style {
        Style::Narrow => 0xBAD5EED,
        Style::Dense => 0xD15EA5E,
        Style::Mlp => 0x51DECAFE,
    }
}

/// The seed of a new head in a run with seed `seed`.
pub fn head_seed(style: Style, seed: u64) -> (r: u64)
    ensures
        r == seed ^ head_salt(style),
        style == Style::Narrow ==> r == seed ^ 0xBAD5EED,
        style == Style::Dense ==> r == seed ^ 0xD15EA5E,
        style == Style::Mlp ==> r == seed ^ 0x51DECAFE,
{
    match style {
        Style::Narrow => seed ^ 0xBAD5EED,
        Style::Dense => seed ^ 0xD15EA5E,
        Style::Mlp => seed ^ 0x51DECAFE,
    }
}

/// A head is never drawn with the seed that picks the samples of its run, and
/// networks of two styles never draw their heads with the same seed. Every
/// seed is the head seed of some run.
pub proof fn law_head_seeds(a: Style, b: Style, seed: u64)
    ensures
        seed ^ head_salt(a) != seed,
        a != b ==> seed ^ head_salt(a) != seed ^ head_salt(b),
        (seed ^ head_salt(a)) ^ head_salt(a) == seed,
{
    let x = head_salt(a);
    let y = head_salt(b);
    assert(seed ^ x != seed) by (bit_vector)
        requires
            x != 0,
    ;
    assert(x != y ==> seed ^ x != seed ^ y) by (bit_vector);
    assert((seed ^ x) ^ x == seed) by (bit_vector);
}

/// Whether step `step`, counted from one, of `steps` is reported.
pub open spec fn is_reported(step: int, steps: int, report_every: int) -> bool {
    ||| step == 1
    ||| step == steps
    ||| report_every != 0 && step % report_every == 0
}

/// A training run: batches of `batch` of the first `train_len` samples are
/// drawn for `steps` steps.
#[derive(Clone, Copy, Debug, PartialEq, Eq, Structural)]
pub struct TrainRun {
    pub sampler: Sampler,
    pub train_len: usize,
    pub batch: usize,
    pub steps: usize,
    pub report_every: usize,
    /// How many steps were begun.
    pub step: usize,
}

impl TrainRun {
    /// The generator before the first step.
    pub open spec fn origin(self) -> Sampler {
        Sampler { seed: self.sampler.seed, word_pos: 0 }
    }

    /// There are samples to draw from, and the generator stands where the
    /// batches begun so far leave it.
    pub open spec fn wf(self) -> bool {
        &&& 0 < self.train_len
        &&& self.step <= self.steps
        &&& self.sampler == after_draws(
            self.origin(),
            self.train_len as u64,
            self.step * self.batch,
        )
    }

    /// A run of which no step is begun.
    pub fn new(
        seed: u64,
        train_len: usize,
        batch: usize,
        steps: usize,
        report_every: usize,
    ) -> (run: TrainRun)
        requires
            0 < train_len,
        ensures
            run.wf(),
            run == (TrainRun {
                sampler: Sampler { seed, word_pos: 0 },
                train_len,
                batch,
                steps,
                report_every,
                step: 0,
            }),
    {
        TrainRun { sampler: Sampler::new(seed), train_len, batch, steps, report_every, step: 0 }
    }

    /// Begins the next step, if one is left: the samples of its batch. The
    /// batches follow each other in one stream of draws.
    pub fn next(&mut self) -> (r: Option<Vec<usize>>)
        requires
            old(self).wf(),
        ensures
            final(self).wf(),
            final(self).sampler.seed == old(self).sampler.seed,
            final(self).train_len == old(self).train_len,
            final(self).batch == old(self).batch,
            final(self).steps == old(self).steps,
            final(self).report_every == old(self).report_every,
            match r {
                None => old(self).step == old(self).steps && *final(self) == *old(self),
                Some(indices) => {
                    &&& old(self).step < old(self).steps
                    &&& final(self).step == old(self).step + 1
                    &&& indices@.len() == old(self).batch
                    &&& forall|i: int|
                        0 <= i < indices@.len() ==> (#[trigger] indices@[i]) < old(self).train_len
                    &&& forall|i: int|
                        0 <= i < indices@.len() ==> (#[trigger] indices@[i]) == draws(
                            old(self).origin(),
                            old(self).train_len as u64,
                            (old(self).step + 1) * old(self).batch,
                        ).0[old(self).step * old(self).batch + i]
                },
            },
    {
        if self.step >= self.steps {
            return None;
        }
        let ghost origin = self.origin();
        let ghost bound = self.train_len as u64;
        let ghost done = self.step as int;
        let ghost b = self.batch as int;
        let ghost begun = done * b;
        let indices = self.sampler.batch(self.batch, self.train_len);
        self.step += 1;
        proof {
            assert(done * b >= 0 && (done + 1) * b == done * b + b) by (nonlinear_arith)
                requires
                    done >= 0,
                    b >= 0,
            ;
            law_batches_continue(origin, bound, begun, b);
            lemma_draws_len(origin, bound, begun);
            lemma_draws_len(old(self).sampler, bound, b);
            assert forall|i: int| 0 <= i < indices@.len() implies (#[trigger] indices@[i]) == draws(
                origin,
                bound,
                begun + b,
            ).0[begun + i] by {
                assert(indices@[i] == draws(old(self).sampler, bound, b).0[i]);
            }
        }
        Some(indices)
    }

    /// Whether the step begun last is reported: the first, the last, and every
    /// `report_every`th one.
    pub fn reports(&self) -> (r: bool)
        ensures
            r == is_reported(self.step as int, self.steps as int, self.report_every as int),
            r <==> self.step == 1 || self.step == self.steps || (self.report_every != 0 && self.step
                % self.report_every == 0),
    {
        self.step == 1 || self.step == self.steps || (self.report_every != 0 && self.step
            % self.report_every == 0)
    }
}

/// As many numbers are drawn as asked for.
proof fn lemma_draws_len(s: Sampler, bound: u64, n: int)
    requires
        0 <= n,
    ensures
        draws(s, bound, n).0.len() == n,
    decreases n,
{
    if n > 0 {
        lemma_draws_len(s, bound, n - 1);
    }
}

/// Whatever the interval, the first and the last step of a run are reported,
/// and with an interval of one every step is.
pub proof fn law_ends_are_reported(step: int, steps: int, report_every: int)
    requires
        1 <= step <= steps,
    ensures
        is_reported(1, steps, report_every),
        is_reported(steps, steps, report_every),
        is_reported(step, steps, 1),
{
}

/// Whether chunk `chunk_idx` of `chunks` is reported while a weight file is
/// created: the first, the last, and every tenth.
pub fn reports_chunk(chunk_idx: usize, chunks: usize) -> (r: bool)
    requires
        chunk_idx < chunks,
    ensures
        r == is_reported(chunk_idx + 1, chunks as int, 10),
        r <==> chunk_idx == 0 || chunk_idx + 1 == chunks || (chunk_idx + 1) % 10 == 0,
{
    chunk_idx == 0 || chunk_idx + 1 == chunks || (chunk_idx + 1) % 10 == 0
}

} // verus!
