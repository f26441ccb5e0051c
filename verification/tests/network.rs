use deep_net::activation::activate;
use deep_net::activation::activate_derivative;
use deep_net::activation::Activation;
use deep_net::arith::Arith;
use deep_net::backward::backward_chunk;
use deep_net::filestep::begin_pass;
use deep_net::filestep::eval_pass;
use deep_net::filestep::finish_step;
use deep_net::filestep::turn_step;
use deep_net::head::Head;
use deep_net::head::Style;
use deep_net::initial::default_alpha;
use deep_net::initial::dense_net;
use deep_net::initial::head_bounds;
use deep_net::initial::initial_layers;
use deep_net::initial::narrow_net;
use deep_net::layout::dense_total_bytes;
use deep_net::parity::Parity;
use deep_net::passes::eval_output;
use deep_net::passes::input_forward;
use deep_net::passes::output_loss_backward_update;
use deep_net::residual::dense_kernel;
use deep_net::residual::forward_chunk;
use deep_net::residual::Kernel;
use deep_net::residual::Net;
use deep_net::softmax::softmax_loss_gradient;
use deep_net::stream::Stream;
use deep_net::train::dense_train_step_mem;
use deep_net::train::train_step_mem;
use deep_net::train::MemoryError;

struct Single;

impl Arith<f32> for Single {
    fn from_u64(&self, n: u64) -> f32 {
        n as f32
    }
    fn neg_infinity(&self) -> f32 {
        f32::NEG_INFINITY
    }
    fn least_probability(&self) -> f32 {
        1.0e-20
    }
    fn add(&self, a: f32, b: f32) -> f32 {
        a + b
    }
    fn sub(&self, a: f32, b: f32) -> f32 {
        a - b
    }
    fn mul(&self, a: f32, b: f32) -> f32 {
        a * b
    }
    fn div(&self, a: f32, b: f32) -> f32 {
        a / b
    }
    fn neg(&self, a: f32) -> f32 {
        -a
    }
    fn max(&self, a: f32, b: f32) -> f32 {
        a.max(b)
    }
    fn abs(&self, a: f32) -> f32 {
        a.abs()
    }
    fn tanh(&self, a: f32) -> f32 {
        a.tanh()
    }
    fn exp(&self, a: f32) -> f32 {
        a.exp()
    }
    fn ln(&self, a: f32) -> f32 {
        a.ln()
    }
    fn sqrt(&self, a: f32) -> f32 {
        a.sqrt()
    }
    fn same(&self, a: f32, b: f32) -> bool {
        a == b
    }
    fn above(&self, a: f32, b: f32) -> bool {
        a > b
    }
    fn at_most(&self, a: f32, b: f32) -> bool {
        a <= b
    }
}

struct Double;

impl Arith<f64> for Double {
    fn from_u64(&self, n: u64) -> f64 {
        n as f64
    }
    fn neg_infinity(&self) -> f64 {
        f64::NEG_INFINITY
    }
    fn least_probability(&self) -> f64 {
        1.0e-200
    }
    fn add(&self, a: f64, b: f64) -> f64 {
        a + b
    }
    fn sub(&self, a: f64, b: f64) -> f64 {
        a - b
    }
    fn mul(&self, a: f64, b: f64) -> f64 {
        a * b
    }
    fn div(&self, a: f64, b: f64) -> f64 {
        a / b
    }
    fn neg(&self, a: f64) -> f64 {
        -a
    }
    fn max(&self, a: f64, b: f64) -> f64 {
        a.max(b)
    }
    fn abs(&self, a: f64) -> f64 {
        a.abs()
    }
    fn tanh(&self, a: f64) -> f64 {
        a.tanh()
    }
    fn exp(&self, a: f64) -> f64 {
        a.exp()
    }
    fn ln(&self, a: f64) -> f64 {
        a.ln()
    }
    fn sqrt(&self, a: f64) -> f64 {
        a.sqrt()
    }
    fn same(&self, a: f64, b: f64) -> bool {
        a == b
    }
    fn above(&self, a: f64, b: f64) -> bool {
        a > b
    }
    fn at_most(&self, a: f64, b: f64) -> bool {
        a <= b
    }
}

/// Numbers in `-scale..scale` that look random.
fn noise(seed: u32, n: usize, scale: f32) -> Vec<f32> {
    let mut state = seed.wrapping_mul(747796405).wrapping_add(2891336453);
    let mut values = Vec::new();
    for _ in 0..n {
        state = state.wrapping_mul(1664525).wrapping_add(1013904223);
        values.push(((state >> 8) as f32 / 8388608.0 - 1.0) * scale);
    }
    values
}

/// Images of which about half the pixels are black.
fn pictures(seed: u32, count: usize) -> Vec<f32> {
    noise(seed, count * 784, 1.0).into_iter().map(|x| if x > 0.0 { x } else { 0.0 }).collect()
}

fn new_head(seed: u32, width: usize) -> Head<f32> {
    Head {
        width,
        input_w: noise(seed, 784 * width, 0.05),
        input_b: noise(seed + 1, width, 0.1),
        output_w: noise(seed + 2, width * 10, 0.5),
        output_b: noise(seed + 3, 10, 0.1),
    }
}

fn copy_of(head: &Head<f32>) -> Head<f32> {
    Head {
        width: head.width,
        input_w: head.input_w.clone(),
        input_b: head.input_b.clone(),
        output_w: head.output_w.clone(),
        output_b: head.output_b.clone(),
    }
}

fn assert_heads_equal(a: &Head<f32>, b: &Head<f32>) {
    assert_eq!(a.width, b.width);
    assert_eq!(a.input_w, b.input_w);
    assert_eq!(a.input_b, b.input_b);
    assert_eq!(a.output_w, b.output_w);
    assert_eq!(a.output_b, b.output_b);
}

#[test]
fn activations_have_their_values() {
    assert_eq!(activate(&Single, 0.5f32, Activation::Tanh), 0.5f32.tanh());
    assert_eq!(activate(&Single, 1.0f32, Activation::Softsign), 0.5);
    assert_eq!(activate(&Single, -3.0f32, Activation::Softsign), -0.75);
    assert_eq!(activate(&Single, -3.0f32, Activation::Relu), 0.0);
    assert_eq!(activate(&Single, 3.0f32, Activation::Relu), 3.0);
    assert_eq!(activate_derivative(&Single, 9.0f32, 0.5, Activation::Tanh), 0.75);
    assert_eq!(activate_derivative(&Single, -1.0f32, -0.5, Activation::Softsign), 0.25);
    assert_eq!(activate_derivative(&Single, 2.0f32, 2.0, Activation::Relu), 1.0);
    assert_eq!(activate_derivative(&Single, 0.0f32, 0.0, Activation::Relu), 0.0);
}

#[test]
fn equal_logits_share_the_probability() {
    let (loss, class, grad) = softmax_loss_gradient(&Single, &[0.0f32; 10], 3, 0.5);
    assert_eq!(loss, -(0.1f32.ln()));
    assert_eq!(class, 0);
    assert_eq!(grad[0], 0.05);
    assert_eq!(grad[3], (0.1f32 - 1.0) * 0.5);
}

#[test]
fn logit_gradients_scale_and_add_up_to_zero() {
    for (seed, label) in [(5u32, 0usize), (6, 9), (7, 4)] {
        let logits = noise(seed, 10, 6.0);
        let (l1, p1, d1) = softmax_loss_gradient(&Single, &logits, label, 1.0);
        let (lg, pg, dg) = softmax_loss_gradient(&Single, &logits, label, 0.37);
        assert_eq!((lg, pg), (l1, p1));
        for k in 0..10 {
            assert_eq!(dg[k], d1[k] * 0.37);
            let range = if k == label { -1.0..=0.0 } else { 0.0..=1.0 };
            assert!(range.contains(&d1[k]));
        }
        assert!(d1.iter().sum::<f32>().abs() < 1.0e-6);
        assert!((0.0..=46.06).contains(&l1));
    }
}

#[test]
fn logit_gradients_are_the_derivative_of_the_loss() {
    let logits: Vec<f64> = noise(8, 10, 2.0).into_iter().map(|x| x as f64).collect();
    let (_, _, grad) = softmax_loss_gradient(&Double, &logits, 3, 1.0);
    let eps = 1.0e-6;
    for k in 0..10 {
        let mut up = logits.clone();
        up[k] += eps;
        let mut down = logits.clone();
        down[k] -= eps;
        let (a, _, _) = softmax_loss_gradient(&Double, &up, 3, 1.0);
        let (b, _, _) = softmax_loss_gradient(&Double, &down, 3, 1.0);
        assert!(((a - b) / (2.0 * eps) - grad[k]).abs() < 1.0e-8);
    }
}

#[test]
fn the_first_of_the_largest_logits_is_predicted() {
    let (loss, class, _) = softmax_loss_gradient(&Single, &[-1.0f32, 7.0, 2.0, 7.0], 2, 1.0);
    assert_eq!(class, 1);
    let sum = (-8.0f32).exp() + 1.0 + (-5.0f32).exp() + 1.0;
    assert_eq!(loss, -((-5.0f32).exp() / sum).ln());
    let (loss, class, _) = softmax_loss_gradient(&Single, &[0.0f32, 500.0], 0, 1.0);
    assert_eq!(class, 1);
    assert_eq!(loss, -(1.0e-20f32.ln()));
    let (loss, _, grad) = softmax_loss_gradient(&Single, &[0.0f32, 0.0], 7, 1.0);
    assert_eq!(loss, 0.0);
    assert_eq!(grad, vec![0.5, 0.5]);
}

#[test]
fn one_narrow_layer() {
    let params = [0.1f32, 0.2, 0.3, 0.4, 0.5, 0.6];
    let mut h = vec![1.0f32, -2.0];
    forward_chunk(&Single, &narrow_net(0.25f32), &params, &mut h);
    let a = (1.0f32 * 0.1 + -2.0 * 0.3 + 0.5).tanh();
    let b = (1.0f32 * 0.2 + -2.0 * 0.4 + 0.6).tanh();
    assert_eq!(h, vec![1.0 + 0.25 * a, -2.0 + 0.25 * b]);
}

/// What one layer activates, the terms in the order of `kernel`.
fn sum_of(kernel: Kernel, layer: &[f32], w: usize, x: &[f32], o: usize) -> f32 {
    let bias = layer[w * w + o];
    let term = |k: usize| x[k] * layer[k * w + o];
    match kernel {
        Kernel::BiasFirst => {
            let mut sum = bias;
            for k in 0..w {
                sum += term(k);
            }
            sum
        }
        Kernel::BiasLast => {
            let mut sum = term(0);
            for k in 1..w {
                sum += term(k);
            }
            sum + bias
        }
        Kernel::Paired => ((term(0) + term(1)) + (term(2) + term(3))) + bias,
    }
}

/// Layers one by one, sample by sample.
fn plain_forward(net: &Net<f32>, params: &[f32], h: &[f32]) -> Vec<f32> {
    let w = net.width;
    let mut h = h.to_vec();
    for layer in params.chunks_exact(w * w + w) {
        for sample in h.chunks_exact_mut(w) {
            let x = sample.to_vec();
            for o in 0..w {
                let s = sum_of(net.kernel, layer, w, &x, o);
                let a = match net.activation {
                    Activation::Tanh => s.tanh(),
                    Activation::Softsign => s / (1.0 + s.abs()),
                    Activation::Relu => s.max(0.0),
                };
                sample[o] = x[o] + net.alpha * a;
            }
        }
    }
    h
}

/// Gradient descent on the layers one by one, last to first.
fn plain_backward(net: &Net<f32>, params: &mut Vec<f32>, h: &[f32], g: &[f32], lr: f32) -> Vec<f32> {
    let w = net.width;
    let size = w * w + w;
    let count = params.len() / size;
    let batch = h.len() / w;
    let mut grad = g.to_vec();
    for l in (0..count).rev() {
        let before = plain_forward(net, &params[..l * size], h);
        let layer = params[l * size..(l + 1) * size].to_vec();
        let mut lanes = vec![vec![0.0f32; size]; 8];
        let mut entering = vec![0.0f32; grad.len()];
        for i in 0..batch {
            let x = &before[i * w..(i + 1) * w];
            let lane = if net.kernel == Kernel::Paired { i % 8 } else { 0 };
            let mut d = vec![0.0f32; w];
            for o in 0..w {
                let s = sum_of(net.kernel, &layer, w, x, o);
                let slope = match net.activation {
                    Activation::Tanh => 1.0 - s.tanh() * s.tanh(),
                    Activation::Softsign => 1.0 / ((1.0 + s.abs()) * (1.0 + s.abs())),
                    Activation::Relu => (s > 0.0) as u8 as f32,
                };
                d[o] = grad[i * w + o] * net.alpha * slope;
                lanes[lane][w * w + o] += d[o];
            }
            for k in 0..w {
                let term = |o: usize| d[o] * layer[k * w + o];
                let own = grad[i * w + k];
                entering[i * w + k] = if net.kernel == Kernel::Paired {
                    ((term(0) + term(1)) + (term(2) + term(3))) + own
                } else {
                    let mut sum = own;
                    for o in 0..w {
                        sum += term(o);
                    }
                    sum
                };
                for o in 0..w {
                    lanes[lane][k * w + o] += x[k] * d[o];
                }
            }
        }
        for p in 0..size {
            let total = if net.kernel == Kernel::Paired {
                let v = |i: usize| lanes[i][p];
                ((v(0) + v(1)) + (v(2) + v(3))) + ((v(4) + v(5)) + (v(6) + v(7)))
            } else {
                lanes[0][p]
            };
            params[l * size + p] -= lr * total;
        }
        grad = entering;
    }
    grad
}

fn check_net(net: &Net<f32>, layers: usize, batch: usize) {
    let w = net.width;
    let params = noise(11, layers * (w * w + w), 0.8);
    let h = noise(12, batch * w, 1.0);
    let g = noise(13, batch * w, 1.0);
    let mut out = h.clone();
    forward_chunk(&Single, net, &params, &mut out);
    assert_eq!(out, plain_forward(net, &params, &h));
    let mut trained = params.clone();
    let mut wanted = params.clone();
    let grad = backward_chunk(&Single, net, &mut trained, &h, &g, 0.1);
    assert_eq!(grad, plain_backward(net, &mut wanted, &h, &g, 0.1));
    assert_eq!(trained, wanted);
    assert_ne!(trained, params);
}

#[test]
fn narrow_layers_go_there_and_back() {
    check_net(&narrow_net(0.3), 5, 3);
}

#[test]
fn dense_layers_go_there_and_back() {
    for activation in [Activation::Tanh, Activation::Softsign, Activation::Relu] {
        check_net(&dense_net(3, 0.3, activation, 4, true), 4, 4);
        check_net(&dense_net(1, 0.3, activation, 2, true), 3, 2);
        check_net(&dense_net(2, 0.3, activation, 2, false), 3, 2);
    }
}

#[test]
fn layers_of_width_four_go_there_and_back() {
    for activation in [Activation::Tanh, Activation::Softsign, Activation::Relu] {
        check_net(&dense_net(4, 0.3, activation, 5, true), 4, 5);
        check_net(&dense_net(4, 0.3, activation, 16, false), 4, 16);
        check_net(&dense_net(4, 0.3, activation, 16, true), 4, 16);
    }
}

#[test]
fn kernels_are_chosen_by_width_activation_and_batch() {
    let soft = Activation::Softsign;
    assert_eq!(dense_kernel(4, soft, 8, true), Kernel::Paired);
    assert_eq!(dense_kernel(4, soft, 8, false), Kernel::BiasLast);
    assert_eq!(dense_kernel(4, soft, 9, true), Kernel::BiasLast);
    assert_eq!(dense_kernel(4, Activation::Tanh, 8, true), Kernel::BiasLast);
    assert_eq!(dense_kernel(2, Activation::Tanh, 8, true), Kernel::BiasFirst);
    assert_eq!(dense_kernel(8, soft, 8, true), Kernel::BiasFirst);
}

#[test]
fn an_incomplete_layer_is_left_alone() {
    let mut params = noise(1, 13, 0.5);
    let rest = params[12];
    let mut h = vec![0.5f32, 0.25];
    forward_chunk(&Single, &narrow_net(1.0f32), &params, &mut h);
    assert_eq!(h, plain_forward(&narrow_net(1.0), &params[..12], &[0.5, 0.25]));
    backward_chunk(&Single, &narrow_net(1.0f32), &mut params, &[0.5, 0.25], &[1.0, 1.0], 0.1);
    assert_eq!(params[12], rest);
}

#[test]
fn without_rounding_the_kernels_agree() {
    let bit = |seed: u32, n: usize| -> Vec<bool> {
        noise(seed, n, 1.0).into_iter().map(|x| x > 0.0).collect()
    };
    let params = bit(21, 20 * 6);
    let h = bit(22, 4 * 8);
    let g = bit(23, 4 * 8);
    let mut seen = Vec::new();
    for kernel in [Kernel::BiasFirst, Kernel::BiasLast, Kernel::Paired] {
        let net = Net { kernel, width: 4, alpha: true, activation: Activation::Tanh };
        let mut out = h.clone();
        forward_chunk(&Parity, &net, &params, &mut out);
        let mut trained = params.clone();
        let grad = backward_chunk(&Parity, &net, &mut trained, &h, &g, true);
        seen.push((out, trained, grad));
    }
    assert_eq!(seen[0], seen[1]);
    assert_eq!(seen[0], seen[2]);
}

#[test]
fn samples_of_a_batch_are_independent() {
    let net = dense_net(3, 0.5, Activation::Tanh, 2, false);
    let params = noise(31, 5 * 12, 0.7);
    let h = noise(32, 6, 1.0);
    let mut both = h.clone();
    forward_chunk(&Single, &net, &params, &mut both);
    let mut second = h[3..].to_vec();
    forward_chunk(&Single, &net, &params, &mut second);
    assert_eq!(both[3..], second[..]);
}

#[test]
fn gradients_of_a_batch_are_those_of_its_samples() {
    let net = dense_net(4, 0.5f64, Activation::Softsign, 8, true);
    let one = dense_net(4, 0.5f64, Activation::Softsign, 1, true);
    assert_eq!((net.kernel, one.kernel), (Kernel::Paired, Kernel::BiasLast));
    let wide = |v: Vec<f32>| -> Vec<f64> { v.into_iter().map(|x| x as f64).collect() };
    let params = wide(noise(35, 5 * 20, 0.7));
    let h = wide(noise(36, 32, 1.0));
    let g = wide(noise(37, 32, 1.0));
    let mut trained = params.clone();
    let grad = backward_chunk(&Double, &net, &mut trained, &h, &g, 0.1);
    let mut changes = vec![0.0f64; params.len()];
    for s in 0..8 {
        let own = 4 * s..4 * s + 4;
        let mut alone = params.clone();
        let back =
            backward_chunk(&Double, &one, &mut alone, &h[own.clone()], &g[own.clone()], 0.1);
        for (a, b) in back.iter().zip(&grad[own]) {
            assert!((a - b).abs() < 1.0e-12);
        }
        for p in 0..params.len() {
            changes[p] += alone[p] - params[p];
        }
    }
    for p in 0..params.len() {
        assert!((trained[p] - params[p] - changes[p]).abs() < 1.0e-12);
    }
}

#[test]
fn the_gradient_handed_back_ignores_the_rate() {
    let net = narrow_net(0.5f32);
    let params = noise(38, 5 * 6, 0.7);
    let h = noise(39, 6, 1.0);
    let g = noise(40, 6, 1.0);
    let mut fast = params.clone();
    let mut still = params.clone();
    let a = backward_chunk(&Single, &net, &mut fast, &h, &g, 0.5);
    let b = backward_chunk(&Single, &net, &mut still, &h, &g, 0.0);
    assert_eq!(a, b);
    assert_eq!(still, params);
    assert_ne!(fast, params);
}

#[test]
fn a_step_reports_an_evaluation_and_keeps_the_sum_of_the_biases() {
    let final_h = noise(45, 12, 1.0);
    let labels = [3u8, 1, 4, 1];
    let indices = [0usize, 3, 1, 2];
    for style in [Style::Narrow, Style::Dense] {
        let mut head = new_head(46, 3);
        let before = copy_of(&head);
        let wanted = eval_output(&Single, style, &before, &final_h, &labels, &indices);
        let (stats, _) =
            output_loss_backward_update(&Single, style, &mut head, &final_h, &labels, &indices, 0.3);
        assert_eq!(stats.correct, wanted.correct);
        assert!((stats.loss - wanted.loss).abs() < 1.0e-5);
        let sum = |b: &[f32]| b.iter().sum::<f32>();
        assert!((sum(&head.output_b) - sum(&before.output_b)).abs() < 1.0e-6);
        assert_ne!(head.output_b, before.output_b);
        assert_eq!(head.input_w, before.input_w);
    }
}

#[test]
fn the_size_of_the_chunks_does_not_matter() {
    let images = pictures(41, 6);
    let labels = [3u8, 1, 4, 1, 5, 9];
    let indices = [5usize, 0, 2, 2];
    let weights = noise(42, 7 * 12, 0.3);
    let mut seen: Vec<(Vec<f32>, Head<f32>, f32, usize)> = Vec::new();
    for chunk_layers in [1usize, 2, 3, 7, 100] {
        let mut head = new_head(43, 3);
        let mut trained = weights.clone();
        let stats = dense_train_step_mem(
            &Single,
            &mut trained,
            &mut head,
            &images,
            &labels,
            &indices,
            7,
            chunk_layers,
            0.4,
            Activation::Tanh,
            true,
            0.05,
            0.1,
        )
        .unwrap_or_else(|_| panic!("refused"));
        seen.push((trained, head, stats.loss, stats.correct));
    }
    assert_ne!(seen[0].0, weights);
    for other in &seen[1..] {
        assert_eq!(seen[0].0, other.0);
        assert_heads_equal(&seen[0].1, &other.1);
        assert_eq!(seen[0].2, other.2);
        assert_eq!(seen[0].3, other.3);
    }
}

/// Runs a step on a file of numbers, the way a weight file is worked through.
fn step_on_file(
    style: Style,
    net: Net<f32>,
    file: &mut Vec<f32>,
    head: &mut Head<f32>,
    images: &[f32],
    labels: &[u8],
    indices: &[usize],
    layers: u64,
    chunk_layers: usize,
) -> (f32, usize) {
    let stream = Stream::new(layers, chunk_layers, net.width).unwrap();
    let mut pass = begin_pass(&Single, style, head, stream, net, images, indices, true);
    while let Some(span) = pass.next() {
        let from = span.offset as usize / 4;
        pass.feed(&Single, &file[from..from + span.floats]);
    }
    let mut step = turn_step(&Single, style, head, pass, labels, indices, 0.1);
    while let Some(span) = step.back.next() {
        let from = span.offset as usize / 4;
        let mut params = file[from..from + span.floats].to_vec();
        step.back.feed(&Single, &mut params, 0.05);
        file[from..from + span.floats].copy_from_slice(&params);
    }
    let stats = finish_step(&Single, style, head, step, images, indices, 0.1);
    (stats.loss, stats.correct)
}

#[test]
fn a_step_on_a_file_is_a_step_in_memory() {
    let images = pictures(51, 8);
    let labels = [3u8, 1, 4, 1, 5, 9, 2, 6];
    let indices = [7usize, 0, 2, 2, 1, 3, 6, 5];
    for (style, width) in [(Style::Narrow, 2usize), (Style::Dense, 4)] {
        let make = || match style {
            Style::Narrow => narrow_net(0.4f32),
            _ => dense_net(width, 0.4f32, Activation::Softsign, 8, true),
        };
        let weights = noise(52, 9 * (width * width + width), 0.3);
        let mut trained = weights.clone();
        let mut head = new_head(53, width);
        let stats = train_step_mem(
            &Single, style, &make(), &mut trained, &mut head, &images, &labels, &indices, 9, 4,
            0.05, 0.1,
        )
        .unwrap_or_else(|_| panic!("refused"));
        for chunk_layers in [1usize, 4, 9, 20] {
            let mut file = weights.clone();
            let mut other = new_head(53, width);
            let (loss, correct) = step_on_file(
                style, make(), &mut file, &mut other, &images, &labels, &indices, 9, chunk_layers,
            );
            assert_eq!(file, trained);
            assert_heads_equal(&other, &head);
            assert_eq!((loss, correct), (stats.loss, stats.correct));
        }
    }
}

#[test]
fn a_step_reads_the_file_twice_and_writes_it_once() {
    let images = pictures(55, 1);
    let mut head = new_head(56, 4);
    let stream = Stream::new(10, 3, 4).unwrap();
    let net = dense_net(4, 0.4f32, Activation::Tanh, 1, false);
    let mut moved = 0u64;
    let mut pass = begin_pass(&Single, Style::Dense, &head, stream, net, &images, &[0], true);
    while let Some(span) = pass.next() {
        pass.feed(&Single, &vec![0.0; span.floats]);
        moved += 4 * span.floats as u64;
    }
    let mut step = turn_step(&Single, Style::Dense, &mut head, pass, &[1], &[0], 0.1);
    while let Some(span) = step.back.next() {
        step.back.feed(&Single, &mut vec![0.0; span.floats], 0.1);
        moved += 2 * 4 * span.floats as u64;
    }
    assert_eq!(moved, 3 * dense_total_bytes(10, 4).unwrap());
}

#[test]
fn a_file_without_layers_passes_the_batch_on() {
    let images = pictures(61, 2);
    let mut file = Vec::new();
    let mut head = new_head(62, 2);
    let before = copy_of(&head);
    let entry = input_forward(&Single, Style::Narrow, &before, &images, &[0, 1]);
    let wanted = eval_output(&Single, Style::Narrow, &before, &entry, &[1, 2], &[0, 1]);
    let (loss, correct) = step_on_file(
        Style::Narrow, narrow_net(0.5), &mut file, &mut head, &images, &[1, 2], &[0, 1], 0, 4,
    );
    assert_eq!((loss, correct), (wanted.loss, wanted.correct));
    assert_ne!(head.output_b, before.output_b);
}

#[test]
fn evaluation_on_a_file_runs_all_layers() {
    let images = pictures(71, 3);
    let head = new_head(72, 3);
    let net = || dense_net(3, 0.4f32, Activation::Relu, 3, true);
    let file = noise(73, 5 * 12, 0.3);
    let indices = [2usize, 1, 0];
    let stream = Stream::new(5, 2, 3).unwrap();
    let mut pass = begin_pass(&Single, Style::Dense, &head, stream, net(), &images, &indices, false);
    while let Some(span) = pass.next() {
        let from = span.offset as usize / 4;
        pass.feed(&Single, &file[from..from + span.floats]);
    }
    assert_eq!(pass.checkpoints.len(), 0);
    let stats = eval_pass(&Single, Style::Dense, &head, &pass, &[1, 2, 3], &indices);
    let entry = input_forward(&Single, Style::Dense, &head, &images, &indices);
    let out = plain_forward(&net(), &file, &entry);
    let wanted = eval_output(&Single, Style::Dense, &head, &out, &[1, 2, 3], &indices);
    assert_eq!((stats.loss, stats.correct), (wanted.loss, wanted.correct));
}

#[test]
fn weights_of_another_number_are_refused() {
    let mut head = new_head(81, 4);
    let images = pictures(82, 1);
    let mut weights = vec![0.0f32; 59];
    let mut step = |weights: &mut Vec<f32>, layers: u64| {
        dense_train_step_mem(
            &Single, weights, &mut head, &images, &[1], &[0], layers, 2, 1.0, Activation::Tanh,
            true, 0.1, 0.1,
        )
        .err()
    };
    assert_eq!(
        step(&mut weights, 3),
        Some(MemoryError::WeightCount { actual: 59, expected: 60 })
    );
    assert!(matches!(step(&mut weights, u64::MAX), Some(MemoryError::Layout(_))));
    assert_eq!(weights, vec![0.0f32; 59]);
}

#[test]
fn the_number_of_weights_is_tested_before_the_indices() {
    let mut head = new_head(83, 4);
    let mut weights = vec![0.5f32; 21];
    let refused = dense_train_step_mem(
        &Single, &mut weights, &mut head, &[], &[], &[9, 9], 1, 1, 1.0, Activation::Tanh, true,
        0.1, 0.1,
    )
    .err();
    assert_eq!(refused, Some(MemoryError::WeightCount { actual: 21, expected: 20 }));
    assert_eq!(weights, vec![0.5f32; 21]);
    assert_heads_equal(&head, &new_head(83, 4));
}

#[test]
fn black_pixels_change_nothing() {
    let images = pictures(91, 3);
    let head = new_head(92, 2);
    let indices = [0usize, 1, 2];
    let narrow = input_forward(&Single, Style::Narrow, &head, &images, &indices);
    let dense = input_forward(&Single, Style::Dense, &head, &images, &indices);
    assert_eq!(narrow, dense);
}

#[test]
fn input_values_are_activated_sums() {
    let mut image = vec![0.0f32; 784];
    image[3] = 0.5;
    image[700] = 1.0;
    let mut head = new_head(93, 2);
    head.input_b = vec![0.125, -4.0];
    let w = |k: usize, j: usize| head.input_w[k * 2 + j];
    let a = 0.125f32 + 0.5 * w(3, 0) + 1.0 * w(700, 0);
    let b = -4.0f32 + 0.5 * w(3, 1) + 1.0 * w(700, 1);
    assert_eq!(
        input_forward(&Single, Style::Dense, &head, &image, &[0]),
        vec![a.tanh(), b.tanh()]
    );
    assert_eq!(input_forward(&Single, Style::Mlp, &head, &image, &[0]), vec![a.max(0.0), 0.0]);
}

/// The loss of a dense network in double precision.
fn exact_loss(
    style: Style,
    head: &Head<f64>,
    weights: &[f64],
    images: &[f64],
    labels: &[u8],
    indices: &[usize],
    net: &Net<f64>,
) -> f64 {
    let mut h = input_forward(&Double, style, head, images, indices);
    forward_chunk(&Double, net, weights, &mut h);
    eval_output(&Double, style, head, &h, labels, indices).loss
}

#[test]
fn a_step_descends_along_the_gradient_of_the_loss() {
    let wide = |v: Vec<f32>| -> Vec<f64> { v.into_iter().map(|x| x as f64).collect() };
    let images = wide(pictures(101, 4));
    let labels = [3u8, 1, 4, 1];
    let indices = [0usize, 3, 1, 2];
    for (style, net, width) in [
        (Style::Narrow, narrow_net(0.4f64), 2usize),
        (Style::Dense, dense_net(3, 0.4f64, Activation::Softsign, 4, true), 3),
        (Style::Mlp, dense_net(3, 0.4f64, Activation::Tanh, 4, true), 3),
    ] {
        let new_double = || {
            let head = new_head(102, width);
            Head {
                width,
                input_w: wide(head.input_w),
                input_b: wide(head.input_b),
                output_w: wide(head.output_w),
                output_b: wide(head.output_b),
            }
        };
        let weights = wide(noise(103, 4 * (width * width + width), 0.5));
        let mut trained = weights.clone();
        let mut head = new_double();
        let lr = 0.5f64;
        train_step_mem(
            &Double, style, &net, &mut trained, &mut head, &images, &labels, &indices, 4, 3, lr, lr,
        )
        .unwrap_or_else(|_| panic!("refused"));
        let start = new_double();
        let eps = 1.0e-5f64;
        let rate = |change: &dyn Fn(&mut Head<f64>, &mut Vec<f64>, f64)| {
            let mut losses = Vec::new();
            for step in [eps, -eps] {
                let mut head = new_double();
                let mut moved = weights.clone();
                change(&mut head, &mut moved, step);
                losses.push(exact_loss(style, &head, &moved, &images, &labels, &indices, &net));
            }
            (losses[0] - losses[1]) / (2.0 * eps)
        };
        let close = |a: f64, b: f64| assert!((a - b).abs() < 1.0e-7, "{} {}", a, b);
        for p in 0..weights.len() {
            close((weights[p] - trained[p]) / lr, rate(&|_, w, e| w[p] += e));
        }
        for p in 0..width * 10 {
            close((start.output_w[p] - head.output_w[p]) / lr, rate(&|h, _, e| h.output_w[p] += e));
        }
        for p in 0..10 {
            close((start.output_b[p] - head.output_b[p]) / lr, rate(&|h, _, e| h.output_b[p] += e));
        }
        for p in 0..width {
            close((start.input_b[p] - head.input_b[p]) / lr, rate(&|h, _, e| h.input_b[p] += e));
        }
        for p in (0..784 * width).step_by(97) {
            close((start.input_w[p] - head.input_w[p]) / lr, rate(&|h, _, e| h.input_w[p] += e));
        }
    }
}

#[test]
fn training_lowers_the_loss() {
    let images = pictures(111, 4);
    let labels = [3u8, 1, 4, 1];
    let indices = [0usize, 1, 2, 3];
    let mut weights = noise(112, 6 * 20, 0.001);
    let mut head = new_head(113, 4);
    let mut losses = Vec::new();
    for _ in 0..30 {
        let stats = dense_train_step_mem(
            &Single, &mut weights, &mut head, &images, &labels, &indices, 6, 2, 0.4,
            Activation::Tanh, true, 0.05, 0.05,
        )
        .unwrap_or_else(|_| panic!("refused"));
        losses.push(stats.loss);
    }
    assert!(losses[29] < 0.5 * losses[0]);
}

#[test]
fn alpha_shrinks_with_the_depth() {
    assert_eq!(default_alpha::<f32, Single>(&Single, 4), 0.5);
    assert_eq!(default_alpha::<f32, Single>(&Single, 100_000_000), 0.0001);
    assert_eq!(default_alpha::<f32, Single>(&Single, 0), f32::INFINITY);
}

#[test]
fn bounds_of_new_heads() {
    let (input, output): (f32, f32) = head_bounds(&Single, 16);
    assert_eq!(input, (6.0f32 / 800.0).sqrt());
    assert_eq!(output, (6.0f32 / 26.0).sqrt());
}

#[test]
fn new_heads_have_no_bias() {
    let mut head = Head::from_draws(&Single, 2, noise(121, 1568, 0.05), noise(122, 20, 0.05));
    assert_eq!(head.input_b, vec![0.0; 2]);
    assert_eq!(head.output_b, vec![0.0; 10]);
    assert_eq!(head.input_w, noise(121, 1568, 0.05));
    head.scale_weights(&Single, 1.0);
    assert_eq!(head.output_w, noise(122, 20, 0.05));
    head.scale_weights(&Single, 0.5);
    assert_eq!(head.output_w[7], noise(122, 20, 0.05)[7] * 0.5);
    assert_eq!(head.input_w[9], noise(121, 1568, 0.05)[9] * 0.5);
}

#[test]
fn new_dense_layers_have_no_bias() {
    let params = initial_layers(&Single, 2, 2, &[1.0f32, 2.0, 3.0, 4.0, 5.0, 6.0, 7.0, 8.0]);
    assert_eq!(params, vec![1.0, 2.0, 3.0, 4.0, 0.0, 0.0, 5.0, 6.0, 7.0, 8.0, 0.0, 0.0]);
    assert_eq!(initial_layers(&Single, 3, 0, &[]), Vec::<f32>::new());
}

#[test]
fn new_layers_do_not_depend_on_the_chunks() {
    let drawn = noise(131, 7 * 9, 0.001);
    let mut parts = initial_layers(&Single, 3, 5, &drawn[..45]);
    parts.extend(initial_layers(&Single, 3, 2, &drawn[45..]));
    assert_eq!(parts, initial_layers(&Single, 3, 7, &drawn));
}
