use deep_net::activation::Activation;
use deep_net::arith::Arith;
use deep_net::head::Head;
use deep_net::head::Style;
use deep_net::initial::dense_net;
use deep_net::run::TrainRun;
use deep_net::session::Action;
use deep_net::session::Phase;
use deep_net::session::Session;
use deep_net::session::Setup;
use deep_net::stream::Span;
use deep_net::stream::Stream;

struct Single;

impl Arith<f32> for Single {
    fn from_u64(&self, n: u64) -> f32 {
        n as f32
    }
    fn neg_infinity(&self) -> f32 {
        f32::NEG_INFINITY
    }
    fn least_probability(&self) -> f32 {
        1.0e-20
    }
    fn add(&self, a: f32, b: f32) -> f32 {
        a + b
    }
    fn sub(&self, a: f32, b: f32) -> f32 {
        a - b
    }
    fn mul(&self, a: f32, b: f32) -> f32 {
        a * b
    }
    fn div(&self, a: f32, b: f32) -> f32 {
        a / b
    }
    fn neg(&self, a: f32) -> f32 {
        -a
    }
    fn max(&self, a: f32, b: f32) -> f32 {
        a.max(b)
    }
    fn abs(&self, a: f32) -> f32 {
        a.abs()
    }
    fn tanh(&self, a: f32) -> f32 {
        a.tanh()
    }
    fn exp(&self, a: f32) -> f32 {
        a.exp()
    }
    fn ln(&self, a: f32) -> f32 {
        a.ln()
    }
    fn sqrt(&self, a: f32) -> f32 {
        a.sqrt()
    }
    fn same(&self, a: f32, b: f32) -> bool {
        a == b
    }
    fn above(&self, a: f32, b: f32) -> bool {
        a > b
    }
    fn at_most(&self, a: f32, b: f32) -> bool {
        a <= b
    }
}

fn noise(seed: u32, n: usize, scale: f32) -> Vec<f32> {
    let mut state = seed.wrapping_mul(747796405).wrapping_add(2891336453);
    let mut values = Vec::new();
    for _ in 0..n {
        state = state.wrapping_mul(1664525).wrapping_add(1013904223);
        values.push(((state >> 8) as f32 / 8388608.0 - 1.0) * scale);
    }
    values
}

fn pictures(seed: u32, count: usize) -> Vec<f32> {
    noise(seed, count * 784, 1.0).into_iter().map(|x| if x > 0.0 { x } else { 0.0 }).collect()
}

fn new_head(seed: u32, width: usize) -> Head<f32> {
    Head {
        width,
        input_w: noise(seed, 784 * width, 0.05),
        input_b: noise(seed + 1, width, 0.1),
        output_w: noise(seed + 2, width * 10, 0.5),
        output_b: noise(seed + 3, 10, 0.1),
    }
}

fn setup(layers: u64, chunk_layers: usize, width: usize, batch: usize) -> Setup<f32> {
    Setup {
        style: Style::Dense,
        net: dense_net(width, 0.4, Activation::Softsign, batch, true),
        stream: Stream::new(layers, chunk_layers, width).unwrap(),
        layer_lr: 0.05,
        head_lr: 0.1,
    }
}

/// What a run did: the names of its actions, its losses, and the file at each save.
struct Trace {
    actions: Vec<&'static str>,
    losses: Vec<(f32, usize)>,
    files: Vec<Vec<f32>>,
    head: Head<f32>,
}

fn work_through(
    mut session: Session<f32>,
    file: &mut Vec<f32>,
    images: &[f32],
    labels: &[u8],
) -> Trace {
    let mut actions = Vec::new();
    let mut losses = Vec::new();
    let mut files = Vec::new();
    loop {
        let action = session.action();
        let part = |span: Span| {
            let from = span.offset as usize / 4;
            from..from + span.floats
        };
        session = match action {
            Action::StartStep => {
                actions.push("start");
                session.start_step(&Single, images, labels)
            }
            Action::Feed(span) => {
                actions.push("read");
                session.feed(&Single, &file[part(span)])
            }
            Action::Turn => session.turn(&Single, labels),
            Action::TrainChunk(span) => {
                actions.push("read");
                session.train_chunk(&Single, file[part(span)].to_vec())
            }
            Action::Write(span) => {
                actions.push("write");
                file[part(span)].copy_from_slice(session.outgoing());
                session.written()
            }
            Action::Finish => session.finish(&Single, images, labels),
            Action::Save => {
                actions.push("save");
                if let Phase::Saving { stats, .. } = &session.phase {
                    losses.push((stats.loss, stats.correct));
                }
                files.push(file.clone());
                session.saved()
            }
            Action::StepInMemory => {
                actions.push("step");
                session.step_in_memory(&Single, images, labels)
            }
            Action::WriteAll => {
                actions.push("write all");
                file.copy_from_slice(session.outgoing());
                session.written_all()
            }
            Action::Done => return Trace { actions, losses, files, head: session.head },
        };
    }
}

#[test]
fn a_run_in_memory_leaves_what_a_run_on_the_file_leaves() {
    let images = pictures(1, 6);
    let labels = [3u8, 1, 4, 1, 5, 9];
    let (layers, width, batch) = (7u64, 4usize, 8usize);
    let weights = noise(2, 7 * 20, 0.3);
    let run = || TrainRun::new(77, 6, batch, 5, 2);
    let mut on_file = weights.clone();
    let file = work_through(
        Session::on_file(setup(layers, 3, width, batch), run(), new_head(3, width)),
        &mut on_file,
        &images,
        &labels,
    );
    let mut in_ram = weights.clone();
    let memory = work_through(
        Session::in_ram(setup(layers, 2, width, batch), run(), new_head(3, width), weights.clone()),
        &mut in_ram,
        &images,
        &labels,
    );
    assert_eq!(on_file, in_ram);
    assert_ne!(on_file, weights);
    assert_eq!(file.head.input_w, memory.head.input_w);
    assert_eq!(file.head.input_b, memory.head.input_b);
    assert_eq!(file.head.output_w, memory.head.output_w);
    assert_eq!(file.head.output_b, memory.head.output_b);
    assert_eq!(file.losses.len(), 5);
    assert_eq!(file.losses, memory.losses);
    // In memory, the file is as it was until the one write at the end.
    assert!(memory.files.iter().all(|now| *now == weights));
    assert_eq!(
        memory.actions,
        vec![
            "step", "save", "step", "save", "step", "save", "step", "save", "step", "save",
            "write all"
        ]
    );
    assert_ne!(file.files[0], weights);
}

#[test]
fn a_step_on_the_file_reads_ahead_and_writes_back() {
    let mut file = noise(12, 5 * 6, 0.3);
    let trace = work_through(
        Session::on_file(setup(5, 3, 2, 1), TrainRun::new(1, 2, 1, 1, 1), new_head(13, 2)),
        &mut file,
        &pictures(11, 2),
        &[3, 1],
    );
    assert_eq!(
        trace.actions,
        vec!["start", "read", "read", "read", "write", "read", "write", "save"]
    );
}

#[test]
fn a_run_of_no_steps_changes_nothing() {
    let weights = noise(22, 5 * 6, 0.3);
    for in_ram in [false, true] {
        let mut file = weights.clone();
        let run = TrainRun::new(1, 2, 1, 0, 1);
        let session = if in_ram {
            Session::in_ram(setup(5, 3, 2, 1), run, new_head(23, 2), file.clone())
        } else {
            Session::on_file(setup(5, 3, 2, 1), run, new_head(23, 2))
        };
        let trace = work_through(session, &mut file, &pictures(21, 2), &[3, 1]);
        assert_eq!(file, weights);
        assert_eq!(trace.head.output_b, new_head(23, 2).output_b);
        assert_eq!(trace.actions, if in_ram { vec!["write all"] } else { vec![] });
    }
}
