use deep_net::arith::Arith;
use deep_net::evaluation::accuracy;
use deep_net::evaluation::eval_mlp;
use deep_net::evaluation::EvalRun;
use deep_net::head::Head;
use deep_net::head::Style;
use deep_net::initial::narrow_net;
use deep_net::passes::StepStats;
use deep_net::perceptron::mlp_eval_batch;
use deep_net::perceptron::mlp_train_step;
use deep_net::train::train_step_mem;

struct Single;

impl Arith<f32> for Single {
    fn from_u64(&self, n: u64) -> f32 {
        n as f32
    }
    fn neg_infinity(&self) -> f32 {
        f32::NEG_INFINITY
    }
    fn least_probability(&self) -> f32 {
        1.0e-20
    }
    fn add(&self, a: f32, b: f32) -> f32 {
        a + b
    }
    fn sub(&self, a: f32, b: f32) -> f32 {
        a - b
    }
    fn mul(&self, a: f32, b: f32) -> f32 {
        a * b
    }
    fn div(&self, a: f32, b: f32) -> f32 {
        a / b
    }
    fn neg(&self, a: f32) -> f32 {
        -a
    }
    fn max(&self, a: f32, b: f32) -> f32 {
        a.max(b)
    }
    fn abs(&self, a: f32) -> f32 {
        a.abs()
    }
    fn tanh(&self, a: f32) -> f32 {
        a.tanh()
    }
    fn exp(&self, a: f32) -> f32 {
        a.exp()
    }
    fn ln(&self, a: f32) -> f32 {
        a.ln()
    }
    fn sqrt(&self, a: f32) -> f32 {
        a.sqrt()
    }
    fn same(&self, a: f32, b: f32) -> bool {
        a == b
    }
    fn above(&self, a: f32, b: f32) -> bool {
        a > b
    }
    fn at_most(&self, a: f32, b: f32) -> bool {
        a <= b
    }
}

fn noise(seed: u32, n: usize, scale: f32) -> Vec<f32> {
    let mut state = seed.wrapping_mul(747796405).wrapping_add(2891336453);
    let mut values = Vec::new();
    for _ in 0..n {
        state = state.wrapping_mul(1664525).wrapping_add(1013904223);
        values.push(((state >> 8) as f32 / 8388608.0 - 1.0) * scale);
    }
    values
}

fn pictures(seed: u32, count: usize) -> Vec<f32> {
    noise(seed, count * 784, 1.0).into_iter().map(|x| if x > 0.0 { x } else { 0.0 }).collect()
}

fn new_head(seed: u32, width: usize) -> Head<f32> {
    Head {
        width,
        input_w: noise(seed, 784 * width, 0.05),
        input_b: noise(seed + 1, width, 0.1),
        output_w: noise(seed + 2, width * 10, 0.5),
        output_b: noise(seed + 3, 10, 0.1),
    }
}

/// The hidden values and the logits of one image.
fn plain_logits(head: &Head<f32>, image: &[f32]) -> (Vec<f32>, Vec<f32>) {
    let n = head.width;
    let mut hidden = head.input_b.clone();
    for k in 0..784 {
        if image[k] != 0.0 {
            for j in 0..n {
                hidden[j] += image[k] * head.input_w[k * n + j];
            }
        }
    }
    let hidden: Vec<f32> = hidden.into_iter().map(|x| x.max(0.0)).collect();
    let mut logits = head.output_b.clone();
    for j in 0..n {
        if hidden[j] != 0.0 {
            for c in 0..10 {
                logits[c] += hidden[j] * head.output_w[j * 10 + c];
            }
        }
    }
    (hidden, logits)
}

fn plain_probs(logits: &[f32]) -> Vec<f32> {
    let top = logits.iter().copied().fold(f32::NEG_INFINITY, f32::max);
    let exps: Vec<f32> = logits.iter().map(|x| (x - top).exp()).collect();
    let mut sum = 0.0;
    for e in &exps {
        sum += e;
    }
    exps.iter().map(|e| e / sum).collect()
}

#[test]
fn one_step_of_a_perceptron() {
    let images = pictures(1, 3);
    let labels = [7u8, 2, 2];
    let indices = [2usize, 0];
    let n = 5;
    let lr = 0.1f32;
    let before = new_head(2, n);
    let mut head = new_head(2, n);
    let stats = mlp_train_step(&Single, &mut head, &images, &labels, &indices, lr);

    let mut loss = 0.0f32;
    let mut correct = 0;
    let mut gw1 = vec![0.0f32; 784 * n];
    let mut gb1 = vec![0.0f32; n];
    let mut gw2 = vec![0.0f32; n * 10];
    let mut gb2 = vec![0.0f32; 10];
    for &i in &indices {
        let image = &images[i * 784..(i + 1) * 784];
        let (hidden, logits) = plain_logits(&before, image);
        let probs = plain_probs(&logits);
        let label = labels[i] as usize;
        loss += -(probs[label].max(1.0e-20).ln());
        let mut class = 0;
        for c in 1..10 {
            if probs[c] > probs[class] {
                class = c;
            }
        }
        correct += (class == label) as usize;
        let g: Vec<f32> =
            (0..10).map(|c| (probs[c] - (c == label) as u8 as f32) * 0.5).collect();
        let mut d = vec![0.0f32; n];
        for c in 0..10 {
            gb2[c] += g[c];
        }
        for j in 0..n {
            for c in 0..10 {
                gw2[j * 10 + c] += hidden[j] * g[c];
                d[j] += before.output_w[j * 10 + c] * g[c];
            }
            if hidden[j] <= 0.0 {
                d[j] = 0.0;
            }
            gb1[j] += d[j];
        }
        for k in 0..784 {
            if image[k] != 0.0 {
                for j in 0..n {
                    gw1[k * n + j] += image[k] * d[j];
                }
            }
        }
    }
    let descended = |w: &[f32], g: &[f32]| -> Vec<f32> {
        w.iter().zip(g).map(|(w, g)| w - lr * g).collect()
    };
    assert_eq!(stats.loss, loss * 0.5);
    assert_eq!(stats.correct, correct);
    assert_eq!(head.input_w, descended(&before.input_w, &gw1));
    assert_eq!(head.input_b, descended(&before.input_b, &gb1));
    assert_eq!(head.output_w, descended(&before.output_w, &gw2));
    assert_eq!(head.output_b, descended(&before.output_b, &gb2));
}

#[test]
fn a_perceptron_is_a_network_without_layers() {
    let images = pictures(11, 4);
    let labels = [7u8, 2, 2, 0];
    let indices = [3usize, 0, 1];
    let mut head = new_head(12, 2);
    let stats = mlp_train_step(&Single, &mut head, &images, &labels, &indices, 0.1);
    let mut other = new_head(12, 2);
    let same = train_step_mem(
        &Single, Style::Mlp, &narrow_net(0.5), &mut Vec::new(), &mut other, &images, &labels,
        &indices, 0, 1, 0.3, 0.1,
    )
    .unwrap_or_else(|_| panic!("refused"));
    assert_eq!((stats.loss, stats.correct), (same.loss, same.correct));
    assert_eq!(head.input_w, other.input_w);
    assert_eq!(head.input_b, other.input_b);
    assert_eq!(head.output_w, other.output_w);
    assert_eq!(head.output_b, other.output_b);
}

#[test]
fn perceptrons_learn() {
    let images = pictures(21, 4);
    let labels = [7u8, 2, 5, 0];
    let indices = [0usize, 1, 2, 3];
    let mut head = new_head(22, 16);
    let first = mlp_eval_batch(&Single, &head, &images, &labels, &indices);
    for _ in 0..40 {
        mlp_train_step(&Single, &mut head, &images, &labels, &indices, 0.05);
    }
    let last = mlp_eval_batch(&Single, &head, &images, &labels, &indices);
    assert!(last.loss < 0.5 * first.loss);
    assert_eq!(last.correct, 4);
}

#[test]
fn evaluations_take_the_samples_in_batches() {
    let mut run: EvalRun<f32> = EvalRun::new(&Single, 7, 3);
    assert_eq!(run.next(), Some(vec![0, 1, 2]));
    run.record(&Single, &StepStats { loss: 1.0, correct: 2 });
    assert_eq!(run.next(), Some(vec![3, 4, 5]));
    run.record(&Single, &StepStats { loss: 2.0, correct: 3 });
    assert_eq!(run.next(), Some(vec![6]));
    run.record(&Single, &StepStats { loss: 5.0, correct: 0 });
    assert_eq!(run.next(), None);
    assert_eq!(run.correct, 5);
    assert_eq!(run.total, 14.0);
    assert_eq!(run.finish(&Single), (2.0, 5.0 / 7.0));
}

#[test]
fn evaluations_cover_every_sample_once() {
    for (samples, batch) in [(0usize, 4usize), (1, 1), (12, 4), (13, 4), (3, usize::MAX)] {
        let mut run: EvalRun<f32> = EvalRun::new(&Single, samples, batch);
        let mut seen = Vec::new();
        while let Some(indices) = run.next() {
            run.record(&Single, &StepStats { loss: 0.0, correct: indices.len() });
            seen.extend(indices);
        }
        assert_eq!(seen, (0..samples).collect::<Vec<usize>>());
        assert_eq!(run.correct, samples);
    }
}

#[test]
fn evaluations_of_a_perceptron_add_up_its_batches() {
    let images = pictures(31, 5);
    let labels = [7u8, 2, 5, 0, 1];
    let head = new_head(32, 3);
    let run = eval_mlp(&Single, &head, &images, &labels, 5, 2);
    let mut total = 0.0f32;
    let mut correct = 0;
    for indices in [vec![0usize, 1], vec![2, 3], vec![4]] {
        let mut loss = 0.0f32;
        for &i in &indices {
            let (_, logits) = plain_logits(&head, &images[i * 784..(i + 1) * 784]);
            let probs = plain_probs(&logits);
            loss += -(probs[labels[i] as usize].max(1.0e-20).ln());
            let best = (0..10).all(|c| probs[c] <= probs[labels[i] as usize]);
            correct += best as usize;
        }
        total += loss / indices.len() as f32 * indices.len() as f32;
    }
    assert_eq!(run.total, total);
    assert_eq!(run.correct, correct);
    assert_eq!(run.finish(&Single), (total / 5.0, correct as f32 / 5.0));
    let fewer = eval_mlp(&Single, &head, &images, &labels, 2, 256);
    assert_eq!(fewer.samples, 2);
    assert_eq!(fewer.start, 2);
}

#[test]
fn a_step_reports_what_an_evaluation_before_it_does() {
    let images = pictures(41, 6);
    let labels = [7u8, 2, 5, 0, 1, 1];
    let indices = [5usize, 4, 0, 2, 2, 1, 3];
    let mut head = new_head(42, 8);
    for _ in 0..5 {
        let wanted = mlp_eval_batch(&Single, &head, &images, &labels, &indices);
        let stats = mlp_train_step(&Single, &mut head, &images, &labels, &indices, 0.05);
        assert_eq!(stats.correct, wanted.correct);
        assert!((stats.loss - wanted.loss).abs() < 1.0e-5);
        assert_eq!(head.width, 8);
        assert_eq!(head.input_w.len(), 784 * 8);
    }
}

#[test]
fn the_accuracy_ignores_the_batch_size() {
    let images = pictures(51, 11);
    let labels = [7u8, 2, 5, 0, 1, 1, 3, 3, 9, 8, 6];
    let mut head = new_head(52, 6);
    for _ in 0..6 {
        mlp_train_step(&Single, &mut head, &images, &labels, &[0, 1, 2, 3, 4, 5], 0.05);
    }
    let one = eval_mlp(&Single, &head, &images, &labels, 11, 1);
    assert!(0 < one.correct && one.correct < 11);
    for batch in [2usize, 3, 4, 11, 100] {
        let run = eval_mlp(&Single, &head, &images, &labels, 11, batch);
        assert_eq!(run.correct, one.correct);
        assert!((run.total - one.total).abs() < 1.0e-4);
    }
}

#[test]
fn accuracy_is_a_share() {
    assert_eq!(accuracy::<f32, Single>(&Single, 951, 1000), 0.951);
    assert_eq!(accuracy::<f32, Single>(&Single, 0, 8), 0.0);
}
