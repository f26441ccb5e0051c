use deep_net::arith::{descend, filled, Arith};

struct Single;

impl Arith<f32> for Single {
    fn from_u64(&self, n: u64) -> f32 {
        n as f32
    }
    fn neg_infinity(&self) -> f32 {
        f32::NEG_INFINITY
    }
    fn least_probability(&self) -> f32 {
        1.0e-20
    }
    fn add(&self, a: f32, b: f32) -> f32 {
        a + b
    }
    fn sub(&self, a: f32, b: f32) -> f32 {
        a - b
    }
    fn mul(&self, a: f32, b: f32) -> f32 {
        a * b
    }
    fn div(&self, a: f32, b: f32) -> f32 {
        a / b
    }
    fn neg(&self, a: f32) -> f32 {
        -a
    }
    fn max(&self, a: f32, b: f32) -> f32 {
        a.max(b)
    }
    fn abs(&self, a: f32) -> f32 {
        a.abs()
    }
    fn tanh(&self, a: f32) -> f32 {
        a.tanh()
    }
    fn exp(&self, a: f32) -> f32 {
        a.exp()
    }
    fn ln(&self, a: f32) -> f32 {
        a.ln()
    }
    fn sqrt(&self, a: f32) -> f32 {
        a.sqrt()
    }
    fn same(&self, a: f32, b: f32) -> bool {
        a == b
    }
    fn above(&self, a: f32, b: f32) -> bool {
        a > b
    }
    fn at_most(&self, a: f32, b: f32) -> bool {
        a <= b
    }
}

#[test]
fn filled_repeats_its_value() {
    assert_eq!(filled(3, 7u8), vec![7u8, 7, 7]);
    assert_eq!(filled(0, 7u8), Vec::<u8>::new());
}

#[test]
fn descend_takes_the_scaled_gradient() {
    let mut w: Vec<f32> = vec![1.0, 2.0];
    descend(&Single, &mut w, &vec![4.0, -2.0], 0.5);
    assert_eq!(w, vec![-1.0, 3.0]);
}
