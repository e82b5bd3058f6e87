use llama::arith::{Arithmetic, Widen};
use llama::attention::{mlp, self_attention};
use llama::operators::{
    accumulate, dot, gather, masked_softmax, matmul_transb, rms_norm, rope, swiglu,
};
use llama::tensor::Tensor;

struct Single;

impl Arithmetic<f32> for Single {
    fn zero() -> f32 {
        0.0
    }

    fn one() -> f32 {
        1.0
    }

    fn plus(a: f32, b: f32) -> f32 {
        a + b
    }

    fn minus(a: f32, b: f32) -> f32 {
        a - b
    }

    fn times(a: f32, b: f32) -> f32 {
        a * b
    }

    fn over(a: f32, b: f32) -> f32 {
        a / b
    }

    fn negate(a: f32) -> f32 {
        -a
    }

    fn exp(a: f32) -> f32 {
        a.exp()
    }

    fn sqrt(a: f32) -> f32 {
        a.sqrt()
    }

    fn powf(a: f32, b: f32) -> f32 {
        a.powf(b)
    }

    fn sin_cos(a: f32) -> (f32, f32) {
        a.sin_cos()
    }

    fn larger(a: f32, b: f32) -> f32 {
        a.max(b)
    }

    fn smaller(a: f32, b: f32) -> f32 {
        a.min(b)
    }

    fn from_usize(n: usize) -> f32 {
        n as f32
    }

    fn to_bits(a: f32) -> u32 {
        a.to_bits()
    }

    fn from_bits(bits: u32) -> f32 {
        f32::from_bits(bits)
    }

    fn random() -> f32 {
        rand::random::<f32>()
    }
}

impl Widen<f32, f32> for Single {
    fn widen(u: f32) -> f32 {
        u
    }
}

impl Widen<u8, f32> for Single {
    fn widen(u: u8) -> f32 {
        u as f32
    }
}

fn float_eq(x: &f32, y: &f32, rel: f32) -> bool {
    (x - y).abs() <= rel * (x.abs() + y.abs()) / 2.0
}

fn close_to(x: &Tensor<f32>, y: &Tensor<f32>, rel: f32) -> bool {
    x.shape() == y.shape() && x.data().iter().zip(y.data()).all(|(a, b)| float_eq(a, b, rel))
}

#[test]
fn test_mlp() {
    let seq_len = 4;
    let d = 2;
    let di = 3;
    let mut residual = Tensor::<f32>::new(vec![1., 1., 1., 1., 1., 1., 1., 1.], &vec![seq_len, d]);
    let mut hidden_states = Tensor::<f32>::default(&vec![seq_len, d]);
    let mut gate_buf = Tensor::<f32>::default(&vec![seq_len, di]);
    let mut up_buf = Tensor::<f32>::default(&vec![seq_len, di]);
    let w_up = Tensor::<f32>::new(vec![0.1, 0.2, 0.3, 0.4, 0.5, 0.6], &vec![di, d]);
    let w_down = Tensor::<f32>::new(vec![0.1, 0.2, 0.3, 0.4, 0.5, 0.6], &vec![d, di]);
    let w_gate = Tensor::<f32>::new(vec![0.1, 0.2, 0.3, 0.4, 0.5, 0.6], &vec![di, d]);
    let rms_w = Tensor::<f32>::new(vec![1., 1.], &vec![d]);
    let eps = 1e-6;
    mlp::<f32, Single>(
        &mut residual,
        &mut hidden_states,
        &mut gate_buf,
        &mut up_buf,
        &w_up,
        &w_down,
        &w_gate,
        &rms_w,
        eps,
    );

    assert!(close_to(
        &residual,
        &Tensor::<f32>::new(
            vec![
                1.3429964, 1.7290739, 1.3429964, 1.7290739, 1.3429964, 1.7290739, 1.3429964,
                1.7290739
            ],
            &vec![seq_len, d]
        ),
        1e-3
    ))
}

#[test]
fn test_silu() {
    let mut y = Tensor::<f32>::new(vec![2., 3., 4.], &vec![1, 3]);
    let x = Tensor::<f32>::new(vec![1., 2., 3.], &vec![1, 3]);
    swiglu::<f32, Single>(&mut y, &x);
    assert!(close_to(
        &y,
        &Tensor::<f32>::new(vec![1.4621172, 5.2847824, 11.43089], &vec![1, 3]),
        1e-3
    ));
}

#[test]
fn test_rms_norm() {
    let mut y = Tensor::<f32>::new(vec![1., 2., 3., 4.], &vec![2, 2]);
    let x = Tensor::<f32>::new(vec![1., 2., 3., 4.], &vec![2, 2]);
    let w = Tensor::<f32>::new(vec![1., 2.], &vec![2]);
    rms_norm::<f32, Single>(&mut y, &x, &w, 1e-6);
    assert!(close_to(
        &y,
        &Tensor::<f32>::new(
            vec![0.6324554, 2.5298216, 0.8485281, 2.2627416],
            &vec![2, 2]
        ),
        1e-3
    ));
}

#[test]
fn test_matmul_transb() {
    let mut c = Tensor::<f32>::new(vec![1., 2., 3., 4.], &vec![2, 2]);
    let a = Tensor::<f32>::new(vec![1., 2., 3., 4., 5., 6.], &vec![2, 3]);
    let b = Tensor::<f32>::new(vec![1., 2., 3., 4., 5., 6.], &vec![2, 3]);
    matmul_transb::<f32, f32, Single>(&mut c, 1., &a, &b, 1.);
    assert!(close_to(
        &c,
        &Tensor::<f32>::new(vec![15., 34., 35., 81.], &vec![2, 2]),
        1e-3
    ));
}

#[test]
fn product_weighs_both_terms() {
    let mut c = Tensor::<f32>::new(vec![10.], &vec![1, 1]);
    let a = Tensor::<f32>::new(vec![1., 2.], &vec![1, 2]);
    let b = Tensor::<u8>::new(vec![3, 4], &vec![1, 2]);
    matmul_transb::<u8, f32, Single>(&mut c, 0.5, &a, &b, 2.);
    assert_eq!(c.data(), [27.]);
}

#[test]
fn product_with_nothing_to_sum_scales() {
    let mut c = Tensor::<f32>::new(vec![10.], &vec![1, 1]);
    let a = Tensor::<f32>::new(vec![], &vec![1, 0]);
    let b = Tensor::<f32>::new(vec![], &vec![1, 0]);
    matmul_transb::<f32, f32, Single>(&mut c, 0.5, &a, &b, 2.);
    assert_eq!(c.data(), [5.]);
}

#[test]
fn gather_picks_rows() {
    let table = Tensor::<u8>::new(vec![1, 2, 3, 4, 5, 6], &vec![3, 2]);
    let indices = Tensor::<u32>::new(vec![2, 0, 2], &vec![3]);
    let mut y = Tensor::<f32>::default(&vec![3, 2]);
    gather::<u8, f32, Single>(&mut y, &indices, &table);
    assert_eq!(y.data(), [5., 6., 1., 2., 5., 6.]);
}

#[test]
fn rope_turns_pairs_by_their_position() {
    let mut y = Tensor::<f32>::new(vec![1., 0., 1., 0.], &vec![2, 1, 2]);
    rope::<f32, Single>(&mut y, 0, 10000.);
    let (sin, cos) = 1f32.sin_cos();
    assert_eq!(y.data(), [1., 0., cos, sin]);
}

#[test]
fn rope_pairs_entry_with_the_one_half_a_head_on() {
    let mut y = Tensor::<f32>::new(vec![1., 2., 3., 4.], &vec![1, 1, 4]);
    rope::<f32, Single>(&mut y, 1, 16.);
    let (s0, c0) = 1f32.sin_cos();
    let (s1, c1) = 0.25f32.sin_cos();
    assert_eq!(
        y.data(),
        [1. * c0 - 3. * s0, 2. * c1 - 4. * s1, 3. * c0 + 1. * s0, 4. * c1 + 2. * s1]
    );
}

#[test]
fn rope_leaves_the_last_entry_of_an_odd_head_alone() {
    let mut y = Tensor::<f32>::new(vec![1., 0., 7.], &vec![1, 1, 3]);
    rope::<f32, Single>(&mut y, 1, 10000.);
    assert_eq!(y.data()[2], 7.);
}

#[test]
fn softmax_masks_later_positions() {
    let third = 3f32.ln();
    let mut y = Tensor::<f32>::new(vec![0., third, 9., 0., third, third], &vec![2, 3]);
    masked_softmax::<f32, Single>(&mut y);
    assert!(float_eq(&y.data()[0], &0.25, 1e-5));
    assert!(float_eq(&y.data()[1], &0.75, 1e-5));
    assert_eq!(y.data()[2], 0.);
    assert!(float_eq(&y.data()[3], &(1. / 7.), 1e-5));
    assert!(float_eq(&y.data()[4], &(3. / 7.), 1e-5));
    assert!(float_eq(&y.data()[5], &(3. / 7.), 1e-5));
}

#[test]
fn masked_scores_do_not_matter() {
    let mut x = Tensor::<f32>::new(vec![1., 2., 3., 4.], &vec![1, 2, 2]);
    let mut y = Tensor::<f32>::new(vec![1., -50., 3., 4.], &vec![1, 2, 2]);
    masked_softmax::<f32, Single>(&mut x);
    masked_softmax::<f32, Single>(&mut y);
    assert_eq!(x.data(), y.data());
}

#[test]
fn softmax_starts_again_for_each_batch() {
    let mut y = Tensor::<f32>::new(vec![5., 7., 1., 1., 5., 7., 1., 1.], &vec![2, 2, 2]);
    masked_softmax::<f32, Single>(&mut y);
    assert_eq!(y.data(), [1., 0., 0.5, 0.5, 1., 0., 0.5, 0.5]);
}

#[test]
fn dot_sums_products() {
    let x = Tensor::<f32>::new(vec![1., 2., 3.], &vec![3]);
    let y = Tensor::<f32>::new(vec![4., -5., 6.], &vec![3, 1]);
    assert_eq!(dot::<f32, Single>(&x, &y), 12.);
}

#[test]
fn accumulate_adds_entry_by_entry() {
    let mut y = Tensor::<f32>::new(vec![1., 2.], &vec![2]);
    let x = Tensor::<f32>::new(vec![10., 20.], &vec![2]);
    accumulate::<f32, Single>(&mut y, &x);
    assert_eq!(y.data(), [11., 22.]);
}

#[test]
fn attention_mixes_values_of_visible_positions() {
    let mut hidden = Tensor::<f32>::default(&vec![2, 1]);
    let mut scores = Tensor::<f32>::default(&vec![1, 1, 2, 2]);
    let q = Tensor::<f32>::new(vec![1., 1.], &vec![2, 1]);
    let k = Tensor::<f32>::new(vec![0., 2f32.ln()], &vec![2, 1]);
    let v = Tensor::<f32>::new(vec![3., 6.], &vec![2, 1]);
    self_attention::<f32, Single>(&mut hidden, &mut scores, &q, &k, &v, 1, 1, 2, 2, 1);
    assert!(close_to(&hidden, &Tensor::<f32>::new(vec![3., 5.], &vec![2, 1]), 1e-5));
    assert!(close_to(
        &scores,
        &Tensor::<f32>::new(vec![1., 0., 1. / 3., 2. / 3.], &vec![1, 1, 2, 2]),
        1e-5
    ));
}

#[test]
fn query_heads_of_a_group_share_keys_and_values() {
    let mut hidden = Tensor::<f32>::default(&vec![1, 4]);
    let mut scores = Tensor::<f32>::default(&vec![2, 2, 1, 1]);
    let q = Tensor::<f32>::new(vec![1., 2., 3., 4.], &vec![1, 4]);
    let k = Tensor::<f32>::new(vec![1., 1.], &vec![1, 2]);
    let v = Tensor::<f32>::new(vec![5., 6.], &vec![1, 2]);
    self_attention::<f32, Single>(&mut hidden, &mut scores, &q, &k, &v, 2, 2, 1, 1, 1);
    assert_eq!(hidden.data(), [5., 5., 6., 6.]);
}

#[test]
fn tokens_are_rotated_by_their_absolute_position() {
    let data: Vec<f32> = (0..24).map(|i| i as f32 / 7. - 1.).collect();
    let mut y = Tensor::<f32>::new(data.clone(), &vec![3, 2, 4]);
    rope::<f32, Single>(&mut y, 5, 100.);
    for t in 0..3 {
        let mut z = Tensor::<f32>::new(data[8 * t..8 * t + 8].to_vec(), &vec![1, 2, 4]);
        rope::<f32, Single>(&mut z, 5 + t, 100.);
        assert_eq!(y.data()[8 * t..8 * t + 8], z.data()[..]);
    }
}

#[test]
fn first_position_is_not_rotated() {
    let data = vec![1.5, -2., 0.25, 3.];
    let mut y = Tensor::<f32>::new(data.clone(), &vec![1, 1, 4]);
    rope::<f32, Single>(&mut y, 0, 100.);
    assert_eq!(y.data(), &data[..]);
}

#[test]
fn attention_ignores_later_positions() {
    let q = vec![0.5, -1., 2., 0.25, 1., 1.];
    let k = vec![0.1, 0.2, 0.3, 0.4, 0.5, 0.6, 0.7, 0.8];
    let v = vec![1., 2., 3., 4., 5., 6., 7., 8.];
    let run = |q: Vec<f32>, k: Vec<f32>, v: Vec<f32>| {
        let mut hidden = Tensor::<f32>::default(&vec![3, 2]);
        let mut scores = Tensor::<f32>::default(&vec![1, 1, 3, 4]);
        let q = Tensor::<f32>::new(q, &vec![3, 2]);
        let k = Tensor::<f32>::new(k, &vec![4, 2]);
        let v = Tensor::<f32>::new(v, &vec![4, 2]);
        self_attention::<f32, Single>(&mut hidden, &mut scores, &q, &k, &v, 1, 1, 3, 4, 2);
        (hidden, scores)
    };
    let (h1, s1) = run(q.clone(), k.clone(), v.clone());
    let (mut q2, mut k2, mut v2) = (q, k, v);
    q2[4] = -9.;
    k2[6] = 9.;
    v2[7] = -9.;
    let (h2, s2) = run(q2, k2, v2);
    assert_eq!(h1.data()[..4], h2.data()[..4]);
    assert_eq!(s1.data()[..8], s2.data()[..8]);
    assert_ne!(h1.data()[4..], h2.data()[4..]);
}
