use llama::arith::{Arithmetic, Widen};
use llama::model::Llama;
use llama::params::LLamaParams;
use llama::tensor::Tensor;

struct Single;

impl Arithmetic<f32> for Single {
    fn zero() -> f32 {
        0.0
    }

    fn one() -> f32 {
        1.0
    }

    fn plus(a: f32, b: f32) -> f32 {
        a + b
    }

    fn minus(a: f32, b: f32) -> f32 {
        a - b
    }

    fn times(a: f32, b: f32) -> f32 {
        a * b
    }

    fn over(a: f32, b: f32) -> f32 {
        a / b
    }

    fn negate(a: f32) -> f32 {
        -a
    }

    fn exp(a: f32) -> f32 {
        a.exp()
    }

    fn sqrt(a: f32) -> f32 {
        a.sqrt()
    }

    fn powf(a: f32, b: f32) -> f32 {
        a.powf(b)
    }

    fn sin_cos(a: f32) -> (f32, f32) {
        a.sin_cos()
    }

    fn larger(a: f32, b: f32) -> f32 {
        a.max(b)
    }

    fn smaller(a: f32, b: f32) -> f32 {
        a.min(b)
    }

    fn from_usize(n: usize) -> f32 {
        n as f32
    }

    fn to_bits(a: f32) -> u32 {
        a.to_bits()
    }

    fn from_bits(bits: u32) -> f32 {
        f32::from_bits(bits)
    }

    fn random() -> f32 {
        rand::random::<f32>()
    }
}

impl Widen<f32, f32> for Single {
    fn widen(u: f32) -> f32 {
        u
    }
}

fn float_eq(x: &f32, y: &f32, rel: f32) -> bool {
    (x - y).abs() <= rel * (x.abs() + y.abs()) / 2.0
}

fn tensor(data: Vec<f32>, shape: Vec<usize>) -> Tensor<f32> {
    Tensor::<f32>::new(data, &shape)
}

/// A model whose layer changes nothing: token 0 is followed by 1, 1 by 2 and 2 by 2.
fn chain(eos_token_id: u32) -> Llama<f32> {
    let identity = vec![1., 0., 0., 1.];
    Llama {
        vocab: 3,
        n_layers: 1,
        n_q_h: 1,
        n_kv_h: 1,
        d: 2,
        dqkv: 2,
        di: 1,
        eps: 0.,
        rope_theta: 10000.,
        max_seq_len: 8,
        params: LLamaParams {
            embedding_table: tensor(vec![1., 0., 0., 1., 1., 1.], vec![3, 2]),
            rms_att_w: vec![tensor(vec![1., 1.], vec![2])],
            wq: vec![tensor(identity.clone(), vec![2, 2])],
            wk: vec![tensor(identity.clone(), vec![2, 2])],
            wv: vec![tensor(identity, vec![2, 2])],
            wo: vec![tensor(vec![0.; 4], vec![2, 2])],
            rms_ffn_w: vec![tensor(vec![1., 1.], vec![2])],
            w_up: vec![tensor(vec![0.; 2], vec![1, 2])],
            w_gate: vec![tensor(vec![0.; 2], vec![1, 2])],
            w_down: vec![tensor(vec![0.; 2], vec![2, 1])],
            rms_out_w: tensor(vec![1., 1.], vec![2]),
            lm_head: tensor(vec![-1., -1., 1., 0., 0., 1.], vec![3, 2]),
        },
        bos_token_id: 0,
        eos_token_id,
    }
}

fn matrix(rows: usize, cols: usize, seed: usize) -> Tensor<f32> {
    let mut data = Vec::new();
    for i in 0..rows {
        for j in 0..cols {
            data.push(((7 * i * cols + 3 * j + seed) % 11) as f32 / 10. - 0.5);
        }
    }
    tensor(data, vec![rows, cols])
}

/// A model with two query heads for one head of keys and values.
fn grouped() -> Llama<f32> {
    Llama {
        vocab: 3,
        n_layers: 1,
        n_q_h: 2,
        n_kv_h: 1,
        d: 4,
        dqkv: 2,
        di: 3,
        eps: 1e-5,
        rope_theta: 10000.,
        max_seq_len: 4,
        params: LLamaParams {
            embedding_table: matrix(3, 4, 1),
            rms_att_w: vec![tensor(vec![1., 0.5, 2., 1.5], vec![4])],
            wq: vec![matrix(4, 4, 2)],
            wk: vec![matrix(2, 4, 3)],
            wv: vec![matrix(2, 4, 4)],
            wo: vec![matrix(4, 4, 5)],
            rms_ffn_w: vec![tensor(vec![0.5, 1., 1.5, 2.], vec![4])],
            w_up: vec![matrix(3, 4, 6)],
            w_gate: vec![matrix(3, 4, 7)],
            w_down: vec![matrix(4, 3, 8)],
            rms_out_w: tensor(vec![1.; 4], vec![4]),
            lm_head: matrix(3, 4, 9),
        },
        bos_token_id: 0,
        eos_token_id: 2,
    }
}

fn tokens(ids: Vec<u32>) -> Tensor<u32> {
    let n = ids.len();
    Tensor::<u32>::new(ids, &vec![n])
}

fn all_close(x: &[f32], y: &[f32]) -> bool {
    x.len() == y.len() && x.iter().zip(y).all(|(a, b)| float_eq(a, b, 1e-4))
}

const AFTER_ONE: [f32; 3] = [0.66317738, -0.59965467, 0.67987138];
const AFTER_TWO: [f32; 3] = [0.025153394, -0.15744571, -0.35917479];
const AFTER_THREE: [f32; 3] = [-0.17085814, 0.1107602, 0.10845938];

#[test]
fn forward_computes_the_scores() {
    let model = grouped();
    assert!(model.is_consistent());
    let mut cache = model.new_cache();
    let logits = model.forward::<Single>(&tokens(vec![0, 2, 1]), &mut cache);
    assert_eq!(logits.shape(), &vec![1, 3]);
    assert!(all_close(logits.data(), &AFTER_THREE));
    assert_eq!(cache.len(), 3);
    assert!(all_close(
        cache.k_cache(0, 0).data(),
        &[-0.19166621, -0.088461328, 1.8355912, 0.99602197, 0.22627252, -0.80625227]
    ));
}

#[test]
fn forward_goes_on_from_the_cache() {
    let model = grouped();
    let mut cache = model.new_cache();
    let first = model.forward::<Single>(&tokens(vec![0]), &mut cache);
    assert!(all_close(first.data(), &AFTER_ONE));
    let second = model.forward::<Single>(&tokens(vec![2]), &mut cache);
    assert!(all_close(second.data(), &AFTER_TWO));
    let third = model.forward::<Single>(&tokens(vec![1]), &mut cache);
    assert!(all_close(third.data(), &AFTER_THREE));
}

#[test]
fn forward_keeps_earlier_rows_of_the_cache() {
    let model = grouped();
    let mut cache = model.new_cache();
    model.forward::<Single>(&tokens(vec![0, 2]), &mut cache);
    let keys = cache.k_cache(0, 0);
    let values = cache.v_cache(0, 0);
    model.forward::<Single>(&tokens(vec![1]), &mut cache);
    assert_eq!(cache.k_cache(0, 0).data()[..4], keys.data()[..]);
    assert_eq!(cache.v_cache(0, 0).data()[..4], values.data()[..]);
    assert_eq!(cache.k_cache(0, 2).shape(), &vec![1, 2]);
}

#[test]
fn tokens_that_do_not_fit_are_refused() {
    let model = grouped();
    let mut cache = model.new_cache();
    assert!(model.try_forward::<Single>(&tokens(vec![]), &mut cache).is_none());
    assert!(model.try_forward::<Single>(&tokens(vec![3]), &mut cache).is_none());
    assert!(model.try_forward::<Single>(&tokens(vec![0; 5]), &mut cache).is_none());
    assert_eq!(cache.len(), 0);
    assert!(model.can_accept(&[0; 4], &cache));
    assert!(model.try_forward::<Single>(&tokens(vec![0; 4]), &mut cache).is_some());
    assert!(!model.can_accept(&[0], &cache));
}

#[test]
fn inconsistent_models_are_found() {
    let mut model = grouped();
    model.vocab = 4;
    assert!(!model.is_consistent());
    let mut model = grouped();
    model.params.wq.pop();
    assert!(!model.is_consistent());
    let mut model = grouped();
    model.n_kv_h = 0;
    assert!(!model.is_consistent());
}

#[test]
fn generation_ends_with_the_end_token() {
    let model = chain(2);
    assert!(model.is_consistent());
    assert_eq!(model.generate::<Single>(&[0], 5, 1., 1, 1.), Some(vec![0, 1, 2]));
}

#[test]
fn generation_ends_at_the_limit() {
    let model = chain(9);
    assert_eq!(model.generate::<Single>(&[0], 3, 1., 1, 1.), Some(vec![0, 1, 2, 2]));
    assert_eq!(model.generate::<Single>(&[0, 1], 0, 1., 1, 1.), Some(vec![0, 1]));
}

#[test]
fn generation_from_nothing_begins_with_the_start_token() {
    let model = chain(2);
    assert_eq!(model.generate::<Single>(&[], 1, 1., 1, 1.), Some(vec![0, 1]));
}

#[test]
fn generation_takes_in_the_last_token_twice() {
    let model = chain(9);
    assert_eq!(model.generate::<Single>(&[0], 7, 1., 1, 1.).unwrap().len(), 8);
    assert_eq!(model.generate::<Single>(&[0], 8, 1., 1, 1.), None);
    assert_eq!(model.generate::<Single>(&[7], 1, 1., 1, 1.), None);
}

#[test]
fn random_generation_stays_in_the_vocabulary() {
    let model = chain(9);
    let text = model.generate::<Single>(&[0, 1], 5, 0.9, 3, 1.).unwrap();
    assert_eq!(text.len(), 7);
    assert_eq!(text[..2], [0, 1]);
    assert!(text.iter().all(|t| *t < 3));
}

#[test]
fn stored_rows_are_read_back() {
    let mut cache = chain(2).new_cache();
    cache.increment(3);
    let k = tensor(vec![1., 2., 3., 4.], vec![2, 2]);
    let v = tensor(vec![5., 6., 7., 8.], vec![2, 2]);
    cache.store(0, 1, &k, &v);
    assert_eq!(cache.k_cache(0, 1).data(), k.data());
    assert_eq!(cache.v_cache(0, 1).data(), v.data());
    assert_eq!(cache.k_cache(0, 0).data(), [0., 0., 1., 2., 3., 4.]);
}

#[test]
fn pieces_give_what_the_whole_gives() {
    let model = grouped();
    let mut at_once = model.new_cache();
    let whole = model.forward::<Single>(&tokens(vec![0, 2, 1, 1]), &mut at_once);
    let mut in_pieces = model.new_cache();
    model.forward::<Single>(&tokens(vec![0, 2, 1]), &mut in_pieces);
    let last = model.forward::<Single>(&tokens(vec![1]), &mut in_pieces);
    assert!(all_close(last.data(), whole.data()));
    assert_eq!(in_pieces.len(), at_once.len());
    assert!(all_close(in_pieces.k_cache(0, 0).data(), at_once.k_cache(0, 0).data()));
    assert!(all_close(in_pieces.v_cache(0, 0).data(), at_once.v_cache(0, 0).data()));
}

#[test]
fn without_projections_only_the_last_token_matters() {
    let mut model = grouped();
    model.params.wo = vec![tensor(vec![0.; 16], vec![4, 4])];
    model.params.w_down = vec![tensor(vec![0.; 12], vec![4, 3])];
    let mut cache = model.new_cache();
    let alone = model.forward::<Single>(&tokens(vec![1]), &mut cache);
    let mut cache = model.new_cache();
    let behind = model.forward::<Single>(&tokens(vec![0, 2, 1]), &mut cache);
    assert_eq!(alone.data(), behind.data());
    let e = &model.params.embedding_table.data()[4..8];
    let norm = (e.iter().map(|x| x * x).sum::<f32>() / 4. + model.eps).sqrt();
    for t in 0..3 {
        let head = &model.params.lm_head.data()[4 * t..4 * t + 4];
        let score: f32 = head.iter().zip(e).map(|(a, b)| a * b / norm).sum();
        assert!(float_eq(&alone.data()[t], &score, 1e-4));
    }
}

#[test]
fn a_model_without_layers_needs_no_heads() {
    let mut model = grouped();
    model.n_layers = 0;
    model.dqkv = 200;
    model.params.rms_att_w.clear();
    model.params.wq.clear();
    model.params.wk.clear();
    model.params.wv.clear();
    model.params.wo.clear();
    model.params.rms_ffn_w.clear();
    model.params.w_up.clear();
    model.params.w_gate.clear();
    model.params.w_down.clear();
    assert!(model.is_consistent());
    let mut cache = model.new_cache();
    let logits = model.forward::<Single>(&tokens(vec![1]), &mut cache);
    assert_eq!(logits.shape(), &vec![1, 3]);
}

#[test]
fn caches_of_other_models_are_found() {
    let model = grouped();
    assert!(model.is_owner(&model.new_cache()));
    assert!(!model.is_owner(&chain(2).new_cache()));
}

#[test]
fn nothing_can_be_chosen_from_an_empty_vocabulary() {
    let mut model = chain(2);
    model.vocab = 0;
    model.params.lm_head = tensor(vec![], vec![0, 2]);
    assert!(model.is_consistent());
    assert_eq!(model.generate::<Single>(&[0], 1, 1., 1, 1.), None);
    assert_eq!(model.generate::<Single>(&[0], 0, 1., 1, 1.), Some(vec![0]));
}
