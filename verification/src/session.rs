use crate::arith::faithful;
use crate::arith::Arith;
use crate::chunking::chunk;
use crate::filestep::begin_pass;
use crate::filestep::finish_step;
use crate::filestep::turn_step;
use crate::filestep::Returning;
use crate::head::Head;
use crate::head::HeadView;
use crate::head::Style;
use crate::layout::INPUTS;
use crate::passes::input_batch;
use crate::passes::picked_images;
use crate::passes::picked_labels;
use crate::passes::StepStats;
use crate::residual::Net;
use crate::rows::lemma_rows_len;
use crate::rows::rows;
use crate::run::TrainRun;
use crate::sampler::draws;
use crate::sampler::Sampler;
use crate::stream::Span;
use crate::stream::Stream;
use crate::streaming::with_chunk;
use crate::streaming::ForwardPass;
use crate::train::memory_verdict;
use crate::train::train_step_mem;
use crate::train::training_step;
use vstd::prelude::*;

verus! {

/// What stays the same during a training run.
pub struct Setup<T> {
    pub style: Style,
    pub net: Net<T>,
    pub stream: Stream,
    pub layer_lr: T,
    pub head_lr: T,
}

/// Where a training run stands.
pub enum Phase<T> {
    /// Between two steps on the weight file.
    Resting,
    /// On the way through the file.
    Forward { pass: ForwardPass<T>, indices: Vec<usize> },
    /// On the way back.
    Back { step: Returning<T>, indices: Vec<usize> },
    /// On the way back, with a trained chunk that is not written yet.
    Writing { step: Returning<T>, indices: Vec<usize>, params: Vec<T> },
    /// Between two steps in memory.
    Memory { weights: Vec<T> },
    /// After a step, before the head is saved. The weights, if in memory.
    Saving { stats: StepStats<T>, kept: Option<Vec<T>> },
    /// The weights are written back from memory.
    Over,
}

/// What is to be done next.
#[derive(Clone, Copy, Debug, PartialEq, Eq, Structural)]
pub enum Action {
    /// Call `start_step`.
    StartStep,
    /// Read this part of the file and call `feed` with it.
    Feed(Span),
    /// Call `turn`.
    Turn,
    /// Read this part of the file and call `train_chunk` with it.
    TrainChunk(Span),
    /// Write `outgoing` to this part of the file and call `written`.
    Write(Span),
    /// Call `finish`.
    Finish,
    /// Save the head and call `saved`.
    Save,
    /// Call `step_in_memory`.
    StepInMemory,
    /// Write `outgoing` over the whole file and call `written_all`.
    WriteAll,
    /// Nothing is left to do.
    Done,
}

/// A training run, step by step. It decides what is read and written and when the
/// head is saved; whoever runs it does so.
pub struct Session<T> {
    pub setup: Setup<T>,
    pub run: TrainRun,
    pub head: Head<T>,
    pub phase: Phase<T>,
}

/// What a training run starts from: the data, the head and the layers.
pub struct Origin<T> {
    pub images: Seq<T>,
    pub labels: Seq<u8>,
    pub head: HeadView<T>,
    pub layers: Seq<Seq<T>>,
}

/// The samples of batch `k` of a run that draws `batch` at a time.
pub open spec fn drawn_batch(s: Sampler, bound: u64, batch: int, k: int) -> Seq<usize> {
    Seq::new(
        batch as nat,
        |i: int| draws(s, bound, (k + 1) * batch).0[k * batch + i] as usize,
    )
}

/// The head and the layers after `k` steps of a training run: `training_step` on
/// the whole network, once for each batch.
pub open spec fn trained_after<T, A: Arith<T>>(
    ar: A,
    setup: Setup<T>,
    from: Origin<T>,
    sampler: Sampler,
    bound: u64,
    batch: int,
    k: int,
) -> (HeadView<T>, Seq<Seq<T>>)
    decreases k,
{
    if k <= 0 {
        (from.head, from.layers)
    } else {
        let (head, layers) = trained_after(ar, setup, from, sampler, bound, batch, k - 1);
        let indices = drawn_batch(sampler, bound, batch, k - 1);
        let t = training_step(
            ar,
            setup.style,
            setup.net,
            head,
            layers,
            picked_images(from.images, indices),
            picked_labels(from.labels, indices),
            setup.layer_lr,
            setup.head_lr,
        );
        (t.head, t.layers)
    }
}

/// The data hold all samples that a run draws.
pub open spec fn data_fit<T>(images: Seq<T>, labels: Seq<u8>, train_len: usize) -> bool {
    &&& train_len <= labels.len()
    &&& images.len() == labels.len() * INPUTS
}

impl<T> Setup<T> {
    /// The parts fit each other.
    pub open spec fn wf(self) -> bool {
        &&& self.net.wf()
        &&& self.stream.wf()
        &&& self.net.width == self.stream.width
    }
}

impl<T> Session<T> {
    /// The indices of a batch are samples of the run.
    pub open spec fn indices_fit(self, indices: Seq<usize>) -> bool {
        &&& indices.len() == self.run.batch
        &&& self.run.step > 0
        &&& forall|i: int| 0 <= i < indices.len() ==> (#[trigger] indices[i]) < self.run.train_len
    }

    /// A pass back is one of this run.
    pub open spec fn step_fits(self, step: Returning<T>) -> bool {
        &&& step.back.wf()
        &&& step.back.stream == self.setup.stream
        &&& step.back.net == self.setup.net
        &&& step.back.grad@.len() == self.run.batch * self.setup.net.width
        &&& step.entry@.len() == self.run.batch * self.setup.net.width
        &&& step.stats.correct <= self.run.batch
    }

    /// The weights in memory are those of the whole file.
    pub open spec fn weights_fit(self, weights: Seq<T>) -> bool {
        weights.len() == self.setup.stream.layers * self.setup.stream.size()
    }

    /// The parts of the run fit each other.
    pub open spec fn wf(self) -> bool {
        &&& self.setup.wf()
        &&& self.run.wf()
        &&& self.head.wf()
        &&& self.head.width == self.setup.net.width
        &&& self.run.batch * self.setup.net.width <= usize::MAX
        &&& match self.phase {
            Phase::Resting => true,
            Phase::Forward { pass, indices } => {
                &&& self.indices_fit(indices@)
                &&& pass.wf()
                &&& pass.stream == self.setup.stream
                &&& pass.net == self.setup.net
                &&& pass.keep
                &&& pass.h@.len() == self.run.batch * self.setup.net.width
            },
            Phase::Back { step, indices } => {
                &&& self.indices_fit(indices@)
                &&& self.step_fits(step)
            },
            Phase::Writing { step, indices, params } => {
                &&& self.indices_fit(indices@)
                &&& self.step_fits(step)
                &&& step.back.left < self.setup.stream.chunks()
                &&& params@.len() == self.setup.stream.span_of(step.back.left as int).floats
            },
            Phase::Memory { weights } => self.weights_fit(weights@),
            Phase::Saving { stats, kept } => {
                &&& self.run.step > 0
                &&& stats.correct <= self.run.batch
                &&& kept matches Some(w) ==> self.weights_fit(w@)
            },
            Phase::Over => self.run.step == self.run.steps,
        }
    }

    /// The head and the layers after `k` steps of this run.
    pub open spec fn after<A: Arith<T>>(self, ar: A, from: Origin<T>, k: int) -> (
        HeadView<T>,
        Seq<Seq<T>>,
    ) {
        trained_after(
            ar,
            self.setup,
            from,
            self.run.origin(),
            self.run.train_len as u64,
            self.run.batch as int,
            k,
        )
    }

    /// The loss and the correct samples of step `k`, counted from one.
    pub open spec fn reported<A: Arith<T>>(self, ar: A, from: Origin<T>, k: int) -> (T, int) {
        let (head, layers) = self.after(ar, from, k - 1);
        let indices = drawn_batch(
            self.run.origin(),
            self.run.train_len as u64,
            self.run.batch as int,
            k - 1,
        );
        let t = training_step(
            ar,
            self.setup.style,
            self.setup.net,
            head,
            layers,
            picked_images(from.images, indices),
            picked_labels(from.labels, indices),
            self.setup.layer_lr,
            self.setup.head_lr,
        );
        (t.loss, t.correct)
    }

    /// A step that began with `before` is on track on its way back, where the file
    /// is to hold `now`.
    pub open spec fn step_follows<A: Arith<T>>(
        self,
        ar: A,
        from: Origin<T>,
        step: Returning<T>,
        indices: Seq<usize>,
        now: Seq<Seq<T>>,
    ) -> bool {
        let before = self.after(ar, from, self.run.step - 1);
        step.follows(
            ar,
            self.setup.style,
            before.0,
            self.head@,
            before.1,
            input_batch(ar, self.setup.style, before.0, picked_images(from.images, indices)),
            picked_labels(from.labels, indices),
            self.setup.layer_lr,
            self.setup.head_lr,
            now,
        )
    }

    /// The indices are those of the step begun last.
    pub open spec fn drew(self, indices: Seq<usize>) -> bool {
        indices == drawn_batch(
            self.run.origin(),
            self.run.train_len as u64,
            self.run.batch as int,
            self.run.step - 1,
        )
    }

    /// The run is on track: it started from `from`, and the weight file holds the
    /// layers `now`.
    pub open spec fn follows<A: Arith<T>>(
        self,
        ar: A,
        from: Origin<T>,
        now: Seq<Seq<T>>,
    ) -> bool {
        &&& from.layers.len() == self.setup.stream.layers
        &&& now.len() == from.layers.len()
        &&& match self.phase {
            Phase::Resting => (self.head@, now) == self.after(ar, from, self.run.step as int),
            Phase::Forward { pass, indices } => {
                &&& self.drew(indices@)
                &&& (self.head@, now) == self.after(ar, from, self.run.step - 1)
                &&& pass.follows(
                    ar,
                    now,
                    input_batch(
                        ar,
                        self.setup.style,
                        self.head@,
                        picked_images(from.images, indices@),
                    ),
                )
            },
            Phase::Back { step, indices } => {
                &&& self.drew(indices@)
                &&& self.step_follows(ar, from, step, indices@, now)
            },
            Phase::Writing { step, indices, params } => {
                &&& self.drew(indices@)
                &&& self.step_follows(
                    ar,
                    from,
                    step,
                    indices@,
                    with_chunk(
                        now,
                        self.setup.stream.chunk_layers as int,
                        step.back.left as int,
                        rows(params@, self.setup.stream.size()),
                    ),
                )
            },
            Phase::Memory { weights } => {
                &&& now == from.layers
                &&& (self.head@, rows(weights@, self.setup.stream.size())) == self.after(
                    ar,
                    from,
                    self.run.step as int,
                )
            },
            Phase::Saving { stats, kept } => {
                &&& (stats.loss, stats.correct as int) == self.reported(
                    ar,
                    from,
                    self.run.step as int,
                )
                &&& match kept {
                    None => (self.head@, now) == self.after(ar, from, self.run.step as int),
                    Some(w) => {
                        &&& now == from.layers
                        &&& (self.head@, rows(w@, self.setup.stream.size())) == self.after(
                            ar,
                            from,
                            self.run.step as int,
                        )
                    },
                }
            },
            Phase::Over => (self.head@, now) == self.after(ar, from, self.run.step as int),
        }
    }

    /// What is to be done next.
    pub open spec fn asks(self) -> Action {
        match self.phase {
            Phase::Resting => if self.run.step < self.run.steps {
                Action::StartStep
            } else {
                Action::Done
            },
            Phase::Forward { pass, indices } => if pass.done < self.setup.stream.chunks() {
                Action::Feed(self.setup.stream.span_of(pass.done as int))
            } else {
                Action::Turn
            },
            Phase::Back { step, indices } => if step.back.left > 0 {
                Action::TrainChunk(self.setup.stream.span_of(step.back.left - 1))
            } else {
                Action::Finish
            },
            Phase::Writing { step, indices, params } => Action::Write(
                self.setup.stream.span_of(step.back.left as int),
            ),
            Phase::Memory { weights } => if self.run.step < self.run.steps {
                Action::StepInMemory
            } else {
                Action::WriteAll
            },
            Phase::Saving { stats, kept } => Action::Save,
            Phase::Over => Action::Done,
        }
    }

    /// The run works in memory: the weight file is not touched before the end.
    pub open spec fn in_memory(self) -> bool {
        match self.phase {
            Phase::Memory { weights } => true,
            Phase::Saving { stats, kept } => kept is Some,
            Phase::Over => true,
            _ => false,
        }
    }

    /// What was set up is what was set up before.
    pub open spec fn continues(self, before: Session<T>) -> bool {
        &&& self.setup == before.setup
        &&& self.run.origin() == before.run.origin()
        &&& self.run.train_len == before.run.train_len
        &&& self.run.batch == before.run.batch
        &&& self.run.steps == before.run.steps
        &&& self.run.report_every == before.run.report_every
        &&& self.in_memory() == before.in_memory()
    }
}

/// A copy of a net.
fn same_net<T: Copy>(net: &Net<T>) -> (r: Net<T>)
    ensures
        r == *net,
{
    Net { kernel: net.kernel, width: net.width, alpha: net.alpha, activation: net.activation }
}

impl<T: Copy> Session<T> {
    /// A run on the weight file of which no step is begun.
    pub fn on_file(setup: Setup<T>, run: TrainRun, head: Head<T>) -> (r: Session<T>)
        requires
            setup.wf(),
            run.wf(),
            run.step == 0,
            head.wf(),
            head.width == setup.net.width,
            run.batch * setup.net.width <= usize::MAX,
        ensures
            r.wf(),
            r == (Session { setup, run, head, phase: Phase::Resting }),
    {
        Session { setup, run, head, phase: Phase::Resting }
    }

    /// A run in memory of which no step is begun. `weights` is what the whole file
    /// holds.
    pub fn in_ram(setup: Setup<T>, run: TrainRun, head: Head<T>, weights: Vec<T>) -> (r: Session<T>)
        requires
            setup.wf(),
            run.wf(),
            run.step == 0,
            head.wf(),
            head.width == setup.net.width,
            run.batch * setup.net.width <= usize::MAX,
            weights@.len() == setup.stream.layers * setup.stream.size(),
        ensures
            r.wf(),
            r == (Session { setup, run, head, phase: Phase::Memory { weights } }),
    {
        Session { setup, run, head, phase: Phase::Memory { weights } }
    }

    /// What is to be done next.
    pub fn action(&self) -> (action: Action)
        requires
            self.wf(),
        ensures
            action == self.asks(),
            self.in_memory() ==> !(action is Write),
            action == Action::WriteAll ==> self.run.step == self.run.steps,
    {
        match &self.phase {
            Phase::Resting => {
                if self.run.step < self.run.steps {
                    Action::StartStep
                } else {
                    Action::Done
                }
            },
            Phase::Forward { pass, .. } => {
                match pass.next() {
                    Some(span) => Action::Feed(span),
                    None => Action::Turn,
                }
            },
            Phase::Back { step, .. } => {
                match step.back.next() {
                    Some(span) => Action::TrainChunk(span),
                    None => Action::Finish,
                }
            },
            Phase::Writing { step, .. } => Action::Write(self.setup.stream.span(step.back.left)),
            Phase::Memory { .. } => {
                if self.run.step < self.run.steps {
                    Action::StepInMemory
                } else {
                    Action::WriteAll
                }
            },
            Phase::Saving { .. } => Action::Save,
            Phase::Over => Action::Done,
        }
    }

    /// What is to be written: a trained chunk, or all weights.
    pub fn outgoing(&self) -> (params: &[T])
        ensures
            params@ == (match self.phase {
                Phase::Writing { step, indices, params } => params@,
                Phase::Memory { weights } => weights@,
                _ => Seq::<T>::empty(),
            }),
    {
        match &self.phase {
            Phase::Writing { params, .. } => params.as_slice(),
            Phase::Memory { weights } => weights.as_slice(),
            _ => {
                let none: &[T] = &[];
                assert(none@ =~= Seq::<T>::empty());
                none
            },
        }
    }

    /// Begins a step: draws its batch and sends it into the file.
    pub fn start_step<A: Arith<T>>(self, ar: &A, images: &[T], labels: &[u8]) -> (r: Session<T>)
        requires
            self.wf(),
            self.asks() == Action::StartStep,
            data_fit(images@, labels@, self.run.train_len),
        ensures
            r.wf(),
            r.continues(self),
            r.run.step == self.run.step + 1,
            r.head == self.head,
            r.phase matches Phase::Forward { pass, indices } && pass.done == 0,
            forall|from: Origin<T>, now: Seq<Seq<T>>|
                faithful::<T, A>(*ar) && from.images == images@ && from.labels == labels@
                    && #[trigger] self.follows(*ar, from, now) ==> r.follows(*ar, from, now),
    {
        let ghost start = self;
        let Session { setup, run, head, phase } = self;
        let mut run = run;
        match run.next() {
            None => Session { setup, run, head, phase },
            Some(indices) => {
                proof {
                    lemma_rows_len(images@, INPUTS as int, labels@.len() as int);
                }
                let net = same_net(&setup.net);
                let pass = begin_pass(
                    ar,
                    setup.style,
                    &head,
                    setup.stream,
                    net,
                    images,
                    indices.as_slice(),
                    true,
                );
                proof {
                    let drawn = drawn_batch(
                        run.origin(),
                        run.train_len as u64,
                        run.batch as int,
                        run.step - 1,
                    );
                    assert(indices@ =~= drawn);
                }
                let r = Session { setup, run, head, phase: Phase::Forward { pass, indices } };
                proof {
                    assert forall|from: Origin<T>, now: Seq<Seq<T>>|
                        faithful::<T, A>(*ar) && from.images == images@ && from.labels == labels@
                            && #[trigger] start.follows(*ar, from, now) implies r.follows(
                        *ar,
                        from,
                        now,
                    ) by {
                        assert(r.after(*ar, from, r.run.step - 1) == start.after(
                            *ar,
                            from,
                            start.run.step as int,
                        ));
                    }
                }
                r
            },
        }
    }

    /// Runs the batch through the chunk that was asked for.
    pub fn feed<A: Arith<T>>(self, ar: &A, params: &[T]) -> (r: Session<T>)
        requires
            self.wf(),
            self.asks() matches Action::Feed(span) && params@.len() == span.floats,
        ensures
            r.wf(),
            r.continues(self),
            r.run == self.run,
            r.head == self.head,
            self.phase matches Phase::Forward { pass, indices } && r.phase matches Phase::Forward {
                pass: next,
                indices: same,
            } && next.done == pass.done + 1,
            forall|from: Origin<T>, now: Seq<Seq<T>>|
                faithful::<T, A>(*ar) && #[trigger] self.follows(*ar, from, now) && rows(
                    params@,
                    self.setup.stream.size(),
                ) == chunk(
                    now,
                    self.setup.stream.chunk_layers as int,
                    self.phase->pass.done as int,
                ) ==> r.follows(*ar, from, now),
    {
        let Session { setup, run, head, phase } = self;
        match phase {
            Phase::Forward { pass, indices } => {
                let mut pass = pass;
                pass.feed(ar, params);
                Session { setup, run, head, phase: Phase::Forward { pass, indices } }
            },
            phase => Session { setup, run, head, phase },
        }
    }

    /// Turns back at the end of the file: the loss, and one step of gradient descent
    /// on the output part of the head.
    pub fn turn<A: Arith<T>>(self, ar: &A, labels: &[u8]) -> (r: Session<T>)
        requires
            self.wf(),
            self.asks() == Action::Turn,
            self.run.train_len <= labels@.len(),
        ensures
            r.wf(),
            r.continues(self),
            r.run == self.run,
            r.phase matches Phase::Back { step, indices } && step.back.left
                == self.setup.stream.chunks(),
            forall|from: Origin<T>, now: Seq<Seq<T>>|
                faithful::<T, A>(*ar) && from.labels == labels@ && #[trigger] self.follows(
                    *ar,
                    from,
                    now,
                ) ==> r.follows(*ar, from, now),
    {
        let ghost start = self;
        let Session { setup, run, head, phase } = self;
        let mut head = head;
        match phase {
            Phase::Forward { pass, indices } => {
                let ghost out = pass;
                let step = turn_step(
                    ar,
                    setup.style,
                    &mut head,
                    pass,
                    labels,
                    indices.as_slice(),
                    setup.head_lr,
                );
                let r = Session { setup, run, head, phase: Phase::Back { step, indices } };
                proof {
                    assert forall|from: Origin<T>, now: Seq<Seq<T>>|
                        faithful::<T, A>(*ar) && from.labels == labels@ && #[trigger] start.follows(
                            *ar,
                            from,
                            now,
                        ) implies r.follows(*ar, from, now) by {
                        let hs = input_batch(
                            *ar,
                            setup.style,
                            start.head@,
                            picked_images(from.images, indices@),
                        );
                        assert(out.follows(*ar, now, hs));
                        assert(step.follows(
                            *ar,
                            setup.style,
                            start.head@,
                            head@,
                            now,
                            hs,
                            picked_labels(labels@, indices@),
                            setup.layer_lr,
                            setup.head_lr,
                            now,
                        ));
                        assert(r.after(*ar, from, run.step - 1) == start.after(
                            *ar,
                            from,
                            run.step - 1,
                        ));
                    }
                }
                r
            },
            phase => Session { setup, run, head, phase },
        }
    }

    /// One step of gradient descent on the chunk that was asked for.
    pub fn train_chunk<A: Arith<T>>(self, ar: &A, params: Vec<T>) -> (r: Session<T>)
        requires
            self.wf(),
            self.asks() matches Action::TrainChunk(span) && params@.len() == span.floats,
        ensures
            r.wf(),
            r.continues(self),
            r.run == self.run,
            r.head == self.head,
            self.phase matches Phase::Back { step, indices } && r.phase matches Phase::Writing {
                step: next,
                indices: same,
                params: trained,
            } && next.back.left == step.back.left - 1,
            forall|from: Origin<T>, now: Seq<Seq<T>>|
                faithful::<T, A>(*ar) && #[trigger] self.follows(*ar, from, now) && rows(
                    params@,
                    self.setup.stream.size(),
                ) == chunk(
                    now,
                    self.setup.stream.chunk_layers as int,
                    self.phase->Back_step.back.left - 1,
                ) ==> r.follows(*ar, from, now),
    {
        let ghost start = self;
        let Session { setup, run, head, phase } = self;
        match phase {
            Phase::Back { step, indices } => {
                let mut step = step;
                let mut params = params;
                let ghost before = step;
                let ghost read = params@;
                step.back.feed(ar, &mut params, setup.layer_lr);
                let r = Session {
                    setup,
                    run,
                    head,
                    phase: Phase::Writing { step, indices, params },
                };
                proof {
                    assert forall|from: Origin<T>, now: Seq<Seq<T>>|
                        faithful::<T, A>(*ar) && #[trigger] start.follows(*ar, from, now) && rows(
                            read,
                            setup.stream.size(),
                        ) == chunk(
                            now,
                            setup.stream.chunk_layers as int,
                            before.back.left - 1,
                        ) implies r.follows(*ar, from, now) by {
                        let began = start.after(*ar, from, run.step - 1);
                        assert(r.after(*ar, from, run.step - 1) == began);
                        assert(start.step_follows(*ar, from, before, indices@, now));
                    }
                }
                r
            },
            phase => Session { setup, run, head, phase },
        }
    }

    /// Takes note that the trained chunk is written: the file holds it now.
    pub fn written(self) -> (r: Session<T>)
        requires
            self.wf(),
            self.asks() is Write,
        ensures
            r.wf(),
            r.continues(self),
            r.run == self.run,
            r.head == self.head,
            self.phase matches Phase::Writing { step, indices, params } && r.phase
                == (Phase::Back { step, indices }),
    {
        let Session { setup, run, head, phase } = self;
        match phase {
            Phase::Writing { step, indices, params } => {
                Session { setup, run, head, phase: Phase::Back { step, indices } }
            },
            phase => Session { setup, run, head, phase },
        }
    }

    /// Ends a step on the file: one step of gradient descent on the input part of
    /// the head.
    pub fn finish<A: Arith<T>>(self, ar: &A, images: &[T], labels: &[u8]) -> (r: Session<T>)
        requires
            self.wf(),
            self.asks() == Action::Finish,
            data_fit(images@, labels@, self.run.train_len),
        ensures
            r.wf(),
            r.continues(self),
            r.run == self.run,
            self.phase matches Phase::Back { step, indices } && r.phase matches Phase::Saving {
                stats,
                kept,
            } && stats == step.stats && kept is None,
            forall|from: Origin<T>, now: Seq<Seq<T>>|
                faithful::<T, A>(*ar) && from.images == images@ && from.labels == labels@
                    && #[trigger] self.follows(*ar, from, now) ==> r.follows(*ar, from, now),
    {
        let ghost start = self;
        let Session { setup, run, head, phase } = self;
        let mut head = head;
        match phase {
            Phase::Back { step, indices } => {
                let ghost last = step;
                proof {
                    lemma_rows_len(images@, INPUTS as int, labels@.len() as int);
                }
                let stats = finish_step(
                    ar,
                    setup.style,
                    &mut head,
                    step,
                    images,
                    indices.as_slice(),
                    setup.head_lr,
                );
                let r = Session { setup, run, head, phase: Phase::Saving { stats, kept: None } };
                proof {
                    assert forall|from: Origin<T>, now: Seq<Seq<T>>|
                        faithful::<T, A>(*ar) && from.images == images@ && from.labels == labels@
                            && #[trigger] start.follows(*ar, from, now) implies r.follows(
                        *ar,
                        from,
                        now,
                    ) by {
                        let began = start.after(*ar, from, run.step - 1);
                        assert(r.after(*ar, from, run.step - 1) == began);
                        assert(last.follows(
                            *ar,
                            setup.style,
                            began.0,
                            start.head@,
                            began.1,
                            input_batch(
                                *ar,
                                setup.style,
                                began.0,
                                picked_images(images@, indices@),
                            ),
                            picked_labels(from.labels, indices@),
                            setup.layer_lr,
                            setup.head_lr,
                            now,
                        ));
                    }
                }
                r
            },
            phase => Session { setup, run, head, phase },
        }
    }

    /// Takes note that the head is saved.
    pub fn saved(self) -> (r: Session<T>)
        requires
            self.wf(),
            self.asks() == Action::Save,
        ensures
            r.wf(),
            r.continues(self),
            r.run == self.run,
            r.head == self.head,
            self.phase matches Phase::Saving { stats, kept } && r.phase == (match kept {
                Some(weights) => Phase::Memory { weights },
                None => Phase::Resting,
            }),
    {
        let Session { setup, run, head, phase } = self;
        match phase {
            Phase::Saving { stats, kept } => {
                let phase = match kept {
                    Some(weights) => Phase::Memory { weights },
                    None => Phase::Resting,
                };
                Session { setup, run, head, phase }
            },
            phase => Session { setup, run, head, phase },
        }
    }

    /// A whole step on the weights in memory.
    pub fn step_in_memory<A: Arith<T>>(self, ar: &A, images: &[T], labels: &[u8]) -> (r: Session<T>)
        requires
            self.wf(),
            self.asks() == Action::StepInMemory,
            data_fit(images@, labels@, self.run.train_len),
        ensures
            r.wf(),
            r.continues(self),
            r.run.step == self.run.step + 1,
            r.phase matches Phase::Saving { stats, kept } && kept is Some,
            forall|from: Origin<T>, now: Seq<Seq<T>>|
                faithful::<T, A>(*ar) && from.images == images@ && from.labels == labels@
                    && #[trigger] self.follows(*ar, from, now) ==> r.follows(*ar, from, now),
    {
        let ghost start = self;
        let Session { setup, run, head, phase } = self;
        let mut run = run;
        let mut head = head;
        match phase {
            Phase::Memory { weights } => {
                let mut weights = weights;
                match run.next() {
                    None => Session { setup, run, head, phase: Phase::Memory { weights } },
                    Some(indices) => {
                        proof {
                            lemma_rows_len(images@, INPUTS as int, labels@.len() as int);
                            assert(indices@ =~= drawn_batch(
                                run.origin(),
                                run.train_len as u64,
                                run.batch as int,
                                run.step - 1,
                            ));
                        }
                        let total: usize = weights.len();
                        let result = train_step_mem(
                            ar,
                            setup.style,
                            &setup.net,
                            &mut weights,
                            &mut head,
                            images,
                            labels,
                            indices.as_slice(),
                            setup.stream.layers,
                            setup.stream.chunk_layers,
                            setup.layer_lr,
                            setup.head_lr,
                        );
                        match result {
                            Ok(stats) => {
                                let r = Session {
                                    setup,
                                    run,
                                    head,
                                    phase: Phase::Saving { stats, kept: Some(weights) },
                                };
                                proof {
                                    assert forall|from: Origin<T>, now: Seq<Seq<T>>|
                                        faithful::<T, A>(*ar) && from.images == images@
                                            && from.labels == labels@ && #[trigger] start.follows(
                                            *ar,
                                            from,
                                            now,
                                        ) implies r.follows(*ar, from, now) by {
                                        assert(r.after(*ar, from, r.run.step - 1) == start.after(
                                            *ar,
                                            from,
                                            start.run.step as int,
                                        ));
                                    }
                                }
                                r
                            },
                            Err(_) => {
                                assert(memory_verdict(
                                    total as int,
                                    setup.stream.layers,
                                    setup.net.width,
                                ) is Ok);
                                Session { setup, run, head, phase: Phase::Resting }
                            },
                        }
                    },
                }
            },
            phase => Session { setup, run, head, phase },
        }
    }

    /// Takes note that the weights are written over the whole file.
    pub fn written_all(self) -> (r: Session<T>)
        requires
            self.wf(),
            self.asks() == Action::WriteAll,
        ensures
            r.wf(),
            r.continues(self),
            r.run == self.run,
            r.head == self.head,
            r.phase == Phase::<T>::Over,
    {
        Session { setup: self.setup, run: self.run, head: self.head, phase: Phase::Over }
    }
}

/// A run that has just started is on track, on the file and in memory.
pub proof fn law_session_starts_on_track<T, A: Arith<T>>(
    ar: A,
    session: Session<T>,
    from: Origin<T>,
)
    requires
        session.wf(),
        session.run.step == 0,
        from.head == session.head@,
        from.layers.len() == session.setup.stream.layers,
        session.phase == Phase::<T>::Resting || (session.phase matches Phase::Memory { weights }
            && rows(weights@, session.setup.stream.size()) == from.layers),
    ensures
        session.follows(ar, from, from.layers),
{
}

/// A run goes step by step: it starts from what it is given, and step `k + 1` is one
/// training step on the batch drawn `k + 1`st, from what the steps before left. It
/// reports the loss and the correct samples of that training step.
pub proof fn law_run_goes_step_by_step<T, A: Arith<T>>(
    ar: A,
    session: Session<T>,
    from: Origin<T>,
    k: int,
    i: int,
)
    requires
        0 <= k,
        0 <= i < session.run.batch,
    ensures
        session.after(ar, from, 0) == (from.head, from.layers),
        ({
            let s = session.setup;
            let sampler = Sampler { seed: session.run.sampler.seed, word_pos: 0 };
            let batch = session.run.batch as int;
            let bound = session.run.train_len as u64;
            let indices = drawn_batch(sampler, bound, batch, k);
            let (head, layers) = session.after(ar, from, k);
            let t = training_step(
                ar,
                s.style,
                s.net,
                head,
                layers,
                picked_images(from.images, indices),
                picked_labels(from.labels, indices),
                s.layer_lr,
                s.head_lr,
            );
            &&& indices.len() == batch
            &&& indices[i] == draws(sampler, bound, (k + 1) * batch).0[k * batch + i] as usize
            &&& session.after(ar, from, k + 1) == (t.head, t.layers)
            &&& session.reported(ar, from, k + 1) == (t.loss, t.correct)
        }),
{
}

/// What it means that a run is on track: between two steps, and at the end, the head and
/// the layers are those after as many training steps on the whole network as were begun,
/// the layers in the file or in memory. After a step the loss and the correct samples
/// are those of its training step.
pub proof fn law_what_on_track_means<T, A: Arith<T>>(
    ar: A,
    session: Session<T>,
    from: Origin<T>,
    now: Seq<Seq<T>>,
)
    requires
        session.follows(ar, from, now),
    ensures
        ({
            let size = session.setup.stream.size();
            let after = session.after(ar, from, session.run.step as int);
            match session.phase {
                Phase::Resting => (session.head@, now) == after,
                Phase::Memory { weights } => {
                    &&& now == from.layers
                    &&& (session.head@, rows(weights@, size)) == after
                },
                Phase::Saving { stats, kept } => {
                    &&& (stats.loss, stats.correct as int) == session.reported(
                        ar,
                        from,
                        session.run.step as int,
                    )
                    &&& kept is None ==> (session.head@, now) == after
                    &&& kept matches Some(weights) ==> now == from.layers && (
                        session.head@,
                        rows(weights@, size),
                    ) == after
                },
                Phase::Over => (session.head@, now) == after,
                _ => true,
            }
        }),
{
}

/// A run that goes on keeps what was set up: the network, its learning rates and the way
/// through the file, the data and the seed, the batch, the number of steps and of reports,
/// and whether it works in memory.
pub proof fn law_what_goes_on<T>(before: Session<T>, after: Session<T>)
    requires
        after.continues(before),
    ensures
        after.setup == before.setup,
        after.run.sampler.seed == before.run.sampler.seed,
        after.run.train_len == before.run.train_len,
        after.run.batch == before.run.batch,
        after.run.steps == before.run.steps,
        after.run.report_every == before.run.report_every,
        ({
            let memory = |s: Session<T>|
                match s.phase {
                    Phase::Memory { weights } => true,
                    Phase::Saving { stats, kept } => kept is Some,
                    Phase::Over => true,
                    _ => false,
                };
            memory(after) == memory(before)
        }),
{
}

/// The order of a run. On the file a step is begun, all chunks are fed first to last,
/// the run turns, all chunks are trained and written last to first, the step is
/// finished and the head is saved, until no step is left. In memory a step is done at
/// once and the head is saved, and after the last step all weights are written.
pub proof fn law_order_of_a_run<T>(session: Session<T>)
    ensures
        ({
            let stream = session.setup.stream;
            let left = session.run.step < session.run.steps;
            match session.phase {
                Phase::Resting => session.asks() == if left {
                    Action::StartStep
                } else {
                    Action::Done
                },
                Phase::Forward { pass, indices } => session.asks() == if pass.done
                    < stream.chunks() {
                    Action::Feed(stream.span_of(pass.done as int))
                } else {
                    Action::Turn
                },
                Phase::Back { step, indices } => session.asks() == if step.back.left > 0 {
                    Action::TrainChunk(stream.span_of(step.back.left - 1))
                } else {
                    Action::Finish
                },
                Phase::Writing { step, indices, params } => session.asks() == Action::Write(
                    stream.span_of(step.back.left as int),
                ),
                Phase::Memory { weights } => session.asks() == if left {
                    Action::StepInMemory
                } else {
                    Action::WriteAll
                },
                Phase::Saving { stats, kept } => session.asks() == Action::Save,
                Phase::Over => session.asks() == Action::Done,
            }
        }),
{
}

/// Writing and saving keep track: once a chunk, or all weights, are written, the
/// file holds what the run says it does.
pub proof fn law_writing_keeps_track<T, A: Arith<T>>(
    ar: A,
    before: Session<T>,
    after: Session<T>,
    from: Origin<T>,
    now: Seq<Seq<T>>,
)
    requires
        before.wf(),
        before.follows(ar, from, now),
        after.continues(before),
        after.run == before.run,
        after.head == before.head,
        after.wf(),
    ensures
        before.phase matches Phase::Writing { step, indices, params } ==> after.phase == (
        Phase::Back { step, indices }) ==> after.follows(
            ar,
            from,
            with_chunk(
                now,
                before.setup.stream.chunk_layers as int,
                step.back.left as int,
                rows(params@, before.setup.stream.size()),
            ),
        ),
        before.phase matches Phase::Memory { weights } ==> after.phase == Phase::<T>::Over
            ==> after.follows(ar, from, rows(weights@, before.setup.stream.size())),
        before.phase matches Phase::Saving { stats, kept } ==> after.phase == (match kept {
            Some(weights) => Phase::Memory { weights },
            None => Phase::Resting,
        }) ==> after.follows(ar, from, now),
{
    if let Phase::Memory { weights } = before.phase {
        let stream = before.setup.stream;
        assert(0 < stream.size()) by (nonlinear_arith)
            requires
                stream.size() == stream.width * stream.width + stream.width,
                stream.width > 0,
        ;
        lemma_rows_len(weights@, stream.size(), stream.layers as int);
    }
}

/// A run that works in memory leaves the weight file as it was until its last step
/// is done: whenever it is broken off before, the file holds what it held at the
/// start.
pub proof fn law_memory_run_leaves_the_file<T, A: Arith<T>>(
    ar: A,
    session: Session<T>,
    from: Origin<T>,
    now: Seq<Seq<T>>,
)
    requires
        session.wf(),
        session.in_memory(),
        session.follows(ar, from, now),
        session.run.step < session.run.steps || session.asks() != Action::Done,
    ensures
        now == from.layers,
{
}

/// A run in memory leaves the weights and the head of the run on the file: whenever
/// two runs from the same start, with the same network, learning rates and draws,
/// are done, they leave the same layers in their files and the same head, those of
/// one training step on the whole network after the other. The chunks may differ.
pub proof fn law_runs_agree<T, A: Arith<T>>(
    ar: A,
    a: Session<T>,
    b: Session<T>,
    from: Origin<T>,
    in_a: Seq<Seq<T>>,
    in_b: Seq<Seq<T>>,
)
    requires
        a.wf(),
        b.wf(),
        a.asks() == Action::Done,
        b.asks() == Action::Done,
        a.follows(ar, from, in_a),
        b.follows(ar, from, in_b),
        a.setup.style == b.setup.style,
        a.setup.net == b.setup.net,
        a.setup.layer_lr == b.setup.layer_lr,
        a.setup.head_lr == b.setup.head_lr,
        a.run.origin() == b.run.origin(),
        a.run.train_len == b.run.train_len,
        a.run.batch == b.run.batch,
        a.run.steps == b.run.steps,
    ensures
        in_a == in_b,
        a.head@ == b.head@,
        (a.head@, in_a) == a.after(ar, from, a.run.steps as int),
{
    lemma_after_depends(
        ar,
        a.setup,
        b.setup,
        from,
        a.run.origin(),
        a.run.train_len as u64,
        a.run.batch as int,
        a.run.steps as int,
    );
}

/// What a run does not depend on: the size of the chunks.
proof fn lemma_after_depends<T, A: Arith<T>>(
    ar: A,
    a: Setup<T>,
    b: Setup<T>,
    from: Origin<T>,
    sampler: Sampler,
    bound: u64,
    batch: int,
    k: int,
)
    requires
        a.style == b.style,
        a.net == b.net,
        a.layer_lr == b.layer_lr,
        a.head_lr == b.head_lr,
    ensures
        trained_after(ar, a, from, sampler, bound, batch, k) == trained_after(
            ar,
            b,
            from,
            sampler,
            bound,
            batch,
            k,
        ),
    decreases k,
{
    if k > 0 {
        lemma_after_depends(ar, a, b, from, sampler, bound, batch, k - 1);
    }
}

} // verus!
