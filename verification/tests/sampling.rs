use llama::arith::Arithmetic;
use llama::sampling::{
    compare_at_least, is_not_positive, pick_largest, random_sample, rank_entries, sample_with,
};
use llama::tensor::Tensor;

struct Single;

impl Arithmetic<f32> for Single {
    fn zero() -> f32 {
        0.0
    }

    fn one() -> f32 {
        1.0
    }

    fn plus(a: f32, b: f32) -> f32 {
        a + b
    }

    fn minus(a: f32, b: f32) -> f32 {
        a - b
    }

    fn times(a: f32, b: f32) -> f32 {
        a * b
    }

    fn over(a: f32, b: f32) -> f32 {
        a / b
    }

    fn negate(a: f32) -> f32 {
        -a
    }

    fn exp(a: f32) -> f32 {
        a.exp()
    }

    fn sqrt(a: f32) -> f32 {
        a.sqrt()
    }

    fn powf(a: f32, b: f32) -> f32 {
        a.powf(b)
    }

    fn sin_cos(a: f32) -> (f32, f32) {
        a.sin_cos()
    }

    fn larger(a: f32, b: f32) -> f32 {
        a.max(b)
    }

    fn smaller(a: f32, b: f32) -> f32 {
        a.min(b)
    }

    fn from_usize(n: usize) -> f32 {
        n as f32
    }

    fn to_bits(a: f32) -> u32 {
        a.to_bits()
    }

    fn from_bits(bits: u32) -> f32 {
        f32::from_bits(bits)
    }

    fn random() -> f32 {
        rand::random::<f32>()
    }
}

fn vector(data: Vec<f32>) -> Tensor<f32> {
    let n = data.len();
    Tensor::<f32>::new(data, &vec![n])
}

fn bits(data: Vec<f32>) -> Vec<u32> {
    data.iter().map(|x| x.to_bits()).collect()
}

fn graded() -> Tensor<f32> {
    vector(vec![0., 2f32.ln(), 4f32.ln()])
}

#[test]
fn comparison_follows_the_numbers() {
    let values = [
        f32::NEG_INFINITY,
        -2.5,
        -0.0,
        0.0,
        f32::MIN_POSITIVE,
        1.0,
        f32::INFINITY,
        f32::NAN,
        -f32::NAN,
    ];
    for a in values {
        assert_eq!(is_not_positive(a.to_bits()), a <= 0.);
        for b in values {
            assert_eq!(compare_at_least(a.to_bits(), b.to_bits()), a >= b);
        }
    }
}

#[test]
fn ranking_follows_the_total_order() {
    let values = vec![1., f32::NAN, -0.0, 2., 0.0, -f32::NAN, 2., f32::NEG_INFINITY];
    assert_eq!(rank_entries(&bits(values)), [1, 3, 6, 0, 4, 2, 7, 5]);
}

#[test]
fn ranking_of_nothing_is_empty() {
    assert!(rank_entries(&vec![]).is_empty());
}

#[test]
fn ranking_starts_with_the_largest() {
    let values = bits(vec![3., -1., 9., 4.]);
    let order = rank_entries(&values);
    assert!(values.iter().all(|x| compare_at_least(values[order[0] as usize], *x)));
}

#[test]
fn largest_is_the_last_of_equals() {
    assert_eq!(pick_largest(&bits(vec![1., 3., 3., -4.])), Some(2));
    assert_eq!(pick_largest(&bits(vec![0.0, -0.0])), Some(1));
}

#[test]
fn largest_needs_comparable_values() {
    assert_eq!(pick_largest(&vec![]), None);
    assert_eq!(pick_largest(&bits(vec![1., f32::NAN])), None);
    assert_eq!(pick_largest(&bits(vec![f32::NAN])), Some(0));
}

#[test]
fn choice_is_the_largest_where_chance_is_ruled_out() {
    let x = vector(vec![1., 5., 2.]);
    assert_eq!(random_sample::<f32, Single>(&x, 0.9, 10, 0.), Some(1));
    assert_eq!(random_sample::<f32, Single>(&x, 0.9, 10, -1.), Some(1));
    assert_eq!(random_sample::<f32, Single>(&x, 0.9, 1, 1.), Some(1));
    assert_eq!(random_sample::<f32, Single>(&x, 0., 10, 1.), Some(1));
    assert_eq!(random_sample::<f32, Single>(&vector(vec![7.]), 0., 10, 1.), Some(0));
    assert_eq!(random_sample::<f32, Single>(&vector(vec![7.]), 0.9, 10, 1.), Some(0));
}

#[test]
fn random_choice_is_one_of_the_most_likely() {
    let x = vector(vec![0., 0.1, 0.2, -0.1]);
    for _ in 0..100 {
        let t = random_sample::<f32, Single>(&x, 1., 2, 1.).unwrap();
        assert!(t == 1 || t == 2);
    }
}

#[test]
fn random_choice_reaches_several_tokens() {
    let x = vector(vec![0., 0.]);
    let mut seen = [false; 2];
    for _ in 0..200 {
        seen[random_sample::<f32, Single>(&x, 1., 2, 1.).unwrap() as usize] = true;
    }
    assert_eq!(seen, [true, true]);
}

#[test]
fn draw_decides_by_running_sums() {
    let x = graded();
    assert_eq!(sample_with::<f32, Single>(&x, 1., 3, 1., 0.), Some(2));
    assert_eq!(sample_with::<f32, Single>(&x, 1., 3, 1., 0.5), Some(2));
    assert_eq!(sample_with::<f32, Single>(&x, 1., 3, 1., 0.6), Some(1));
    assert_eq!(sample_with::<f32, Single>(&x, 1., 3, 1., 0.9), Some(0));
}

#[test]
fn draw_stays_in_top_k() {
    assert_eq!(sample_with::<f32, Single>(&graded(), 1., 2, 1., 0.99), Some(1));
    assert_eq!(sample_with::<f32, Single>(&graded(), 1., 1, 1., 0.99), Some(2));
}

#[test]
fn draw_stays_in_top_p() {
    assert_eq!(sample_with::<f32, Single>(&graded(), 0.5, 3, 1., 0.99), Some(2));
}

#[test]
fn high_temperature_levels_the_weights() {
    let x = vector(vec![0., 4f32.ln()]);
    assert_eq!(sample_with::<f32, Single>(&x, 1., 2, 1., 0.75), Some(1));
    assert_eq!(sample_with::<f32, Single>(&x, 1., 2, 2., 0.75), Some(0));
}

#[test]
fn equal_weights_are_taken_by_index() {
    let x = vector(vec![1., 1.]);
    assert_eq!(sample_with::<f32, Single>(&x, 1., 2, 1., 0.4), Some(0));
    assert_eq!(sample_with::<f32, Single>(&x, 1., 2, 1., 0.9), Some(1));
}

#[test]
fn draw_without_comparable_limit_gives_nothing() {
    assert_eq!(sample_with::<f32, Single>(&graded(), 1., 3, 1., f32::NAN), None);
}

#[test]
fn larger_draws_give_no_earlier_rank() {
    let x = vector(vec![0.3, 1.2, -0.5, 1.2, 0.9]);
    let mut last = 0;
    for i in 0..100 {
        let token = sample_with::<f32, Single>(&x, 0.95, 5, 0.8, i as f32 / 100.).unwrap();
        let order = [1, 3, 4, 0, 2];
        let rank = order.iter().position(|t| *t == token).unwrap();
        assert!(rank >= last);
        last = rank;
    }
    assert!(last > 1);
}

#[test]
fn smallest_draw_gives_the_first_of_the_largest() {
    let x = vector(vec![0.3, 1.2, -0.5, 1.2, 0.9]);
    assert_eq!(sample_with::<f32, Single>(&x, 0.95, 5, 0.8, 0.), Some(1));
}
