//! What the choice of a token means in terms of the numbers that the encodings stand for, and of
//! the scores and their weights.

use crate::arith::{plus, Arithmetic};
use crate::determined::determined;
use crate::formulas::{computed_by, Ops};
use crate::laws::lemma_ranked;
use crate::sampling::{
    are_running_sums, at_least, chosen, encoded, is_ranking, is_weight, not_positive, picked_first,
    picked_largest, sample_steps, sampled, value_key, weight_added, SampleTrace,
};
use vstd::arithmetic::power2::{lemma_pow2_pos, lemma_pow2_unfold, pow2};
use vstd::prelude::*;

verus! {

/// The number that a magnitude stands for, in units of the smallest one: 23 bits of fraction, and
/// above them an exponent, which is 0 for the numbers without a leading 1. Infinity comes out as
/// the power of two that follows the largest number.
pub open spec fn scaled_magnitude(m: int) -> int {
    let exponent = m / 0x80_0000;
    let fraction = m % 0x80_0000;
    if exponent == 0 {
        fraction
    } else {
        (0x80_0000 + fraction) * pow2((exponent - 1) as nat)
    }
}

/// The number that an encoding stands for, in units of the smallest positive one.
pub open spec fn scaled(bits: u32) -> int {
    if bits >= 0x8000_0000 {
        -scaled_magnitude(bits - 0x8000_0000)
    } else {
        scaled_magnitude(bits as int)
    }
}

/// The encoding stands for a number or an infinity.
pub open spec fn has_value(bits: u32) -> bool {
    bits <= 0x7f80_0000 || 0x8000_0000 <= bits <= 0xff80_0000
}

/// What the encodings stand for: the numbers up to the second power of two are counted one by one,
/// from there on a larger exponent doubles the number, and the sign bit negates it.
pub proof fn law_encoded_numbers(bits: u32)
    requires
        bits < 0x8000_0000,
    ensures
        bits < 0x100_0000 ==> scaled(bits) == bits,
        bits >= 0x80_0000 && bits + 0x80_0000 < 0x8000_0000 ==> scaled((bits + 0x80_0000) as u32)
            == 2 * scaled(bits),
        scaled((bits + 0x8000_0000) as u32) == -scaled(bits),
{
    let m = bits as int;
    let e = m / 0x80_0000;
    let r = m % 0x80_0000;
    assert(m == e * 0x80_0000 + r);
    assert(pow2(0) == 1) by {
        vstd::arithmetic::power2::lemma2_to64();
    }
    if m < 0x100_0000 && m >= 0x80_0000 {
        assert(e == 1);
        assert((0x80_0000 + r) * 1 == m);
    }
    if m >= 0x80_0000 {
        assert((m + 0x80_0000) / 0x80_0000 == e + 1 && (m + 0x80_0000) % 0x80_0000 == r);
        lemma_pow2_unfold(e as nat);
        let p = pow2((e - 1) as nat) as int;
        assert((0x80_0000 + r) * (2 * p) == 2 * ((0x80_0000 + r) * p)) by (nonlinear_arith);
    }
}

proof fn lemma_next_magnitude(m: int)
    requires
        0 <= m,
    ensures
        0 <= scaled_magnitude(m) < scaled_magnitude(m + 1),
{
    let e = m / 0x80_0000;
    let r = m % 0x80_0000;
    assert(m == e * 0x80_0000 + r);
    if r + 1 < 0x80_0000 {
        assert((m + 1) / 0x80_0000 == e && (m + 1) % 0x80_0000 == r + 1);
        if e > 0 {
            let p = pow2((e - 1) as nat) as int;
            lemma_pow2_pos((e - 1) as nat);
            assert(0 <= (0x80_0000 + r) * p < (0x80_0000 + (r + 1)) * p) by (nonlinear_arith)
                requires
                    0 <= r,
                    0 < p,
            ;
        }
    } else {
        assert((m + 1) / 0x80_0000 == e + 1 && (m + 1) % 0x80_0000 == 0);
        let q = pow2(e as nat) as int;
        lemma_pow2_pos(e as nat);
        if e > 0 {
            let p = pow2((e - 1) as nat) as int;
            lemma_pow2_pos((e - 1) as nat);
            lemma_pow2_unfold(e as nat);
            assert(q == 2 * p);
            assert(0 <= (0x80_0000 + r) * p < 0x80_0000 * q) by (nonlinear_arith)
                requires
                    0 <= r < 0x80_0000,
                    0 < p,
                    q == 2 * p,
            ;
        } else {
            assert(r < 0x80_0000 * q) by (nonlinear_arith)
                requires
                    r < 0x80_0000,
                    1 <= q,
            ;
        }
    }
}

/// Larger magnitudes stand for larger numbers.
proof fn lemma_magnitudes_ordered(a: int, b: int)
    requires
        0 <= a < b,
    ensures
        scaled_magnitude(a) < scaled_magnitude(b),
    decreases b - a,
{
    lemma_next_magnitude(b - 1);
    if a < b - 1 {
        lemma_magnitudes_ordered(a, b - 1);
    }
}

proof fn lemma_key_order(a: u32, b: u32)
    ensures
        value_key(a) >= value_key(b) <==> scaled(a) >= scaled(b),
{
    let m: int = if a >= 0x8000_0000 {
        a - 0x8000_0000
    } else {
        a as int
    };
    let n: int = if b >= 0x8000_0000 {
        b - 0x8000_0000
    } else {
        b as int
    };
    assert(scaled_magnitude(0) == 0);
    lemma_next_magnitude(m);
    lemma_next_magnitude(n);
    if m > 0 {
        lemma_magnitudes_ordered(0, m);
    }
    if n > 0 {
        lemma_magnitudes_ordered(0, n);
    }
    if m < n {
        lemma_magnitudes_ordered(m, n);
    } else if n < m {
        lemma_magnitudes_ordered(n, m);
    }
}

/// Encodings compare as the numbers do that they stand for. Values that are not numbers compare
/// with nothing.
pub proof fn law_comparisons_follow_the_values(a: u32, b: u32)
    ensures
        at_least(a, b) <==> has_value(a) && has_value(b) && scaled(a) >= scaled(b),
        not_positive(a) <==> has_value(a) && scaled(a) <= 0,
{
    lemma_key_order(a, b);
    assert(scaled_magnitude(0) == 0);
    lemma_key_order(0, a);
}

/// Picking the largest gives the last of the largest numbers. It fails only where there is nothing
/// to pick from, or where values that are not numbers would have to be compared.
pub proof fn law_largest_follows_the_values(bits: Seq<u32>, r: Option<u32>, i: int)
    requires
        picked_largest(bits, r),
        0 <= i < bits.len(),
    ensures
        match r {
            Some(t) => {
                &&& t < bits.len()
                &&& bits.len() == 1 || has_value(bits[i])
                &&& scaled(bits[i]) <= scaled(bits[t as int])
                &&& i > t ==> scaled(bits[i]) < scaled(bits[t as int])
            },
            None => bits.len() > 1 && exists|k: int|
                0 <= k < bits.len() && !has_value(#[trigger] bits[k]),
        },
{
    if let Some(t) = r {
        lemma_key_order(bits[i], bits[t as int]);
        lemma_key_order(bits[t as int], bits[i]);
    }
}

/// A ranking goes from the largest number to the smallest, equal numbers in the order of their
/// places, and 0 before -0. Values that are not numbers stand at the front if their sign is
/// positive, and at the end if it is negative. Each entry is ranked.
pub proof fn law_ranking_follows_the_values(bits: Seq<u32>, order: Seq<u32>, i: int, j: int)
    requires
        is_ranking(bits, order),
        0 <= i < j < order.len(),
    ensures
        ({
            let a = bits[order[i] as int];
            let b = bits[order[j] as int];
            &&& has_value(a) && has_value(b) ==> scaled(a) > scaled(b) || (a == b && order[i]
                < order[j]) || (a == 0 && b == 0x8000_0000)
            &&& !has_value(b) && b < 0x8000_0000 ==> !has_value(a) && b <= a < 0x8000_0000
            &&& !has_value(a) && a >= 0x8000_0000 ==> !has_value(b) && a <= b
        }),
{
    let a = bits[order[i] as int];
    let b = bits[order[j] as int];
    lemma_key_order(a, b);
    lemma_key_order(b, a);
}

/// Each entry has a rank, and one only.
pub proof fn law_each_entry_has_one_rank(bits: Seq<u32>, order: Seq<u32>, t: u32)
    requires
        is_ranking(bits, order),
        t < bits.len(),
    ensures
        order.len() == bits.len(),
        exists|i: int| 0 <= i < order.len() && #[trigger] order[i] == t,
        forall|i: int, j: int|
            0 <= i < order.len() && 0 <= j < order.len() && #[trigger] order[i] == t
                && #[trigger] order[j] == t ==> i == j,
{
    let i = lemma_ranked(bits, order, t);
    assert(order[i] == t);
}

/// The running sums start at 1, and each further one adds
/// `exp((score - largest score) / temperature)`.
pub proof fn law_running_sums_formula<T, A: Arithmetic<T>>(
    f: Ops<T>,
    x: Seq<T>,
    order: Seq<u32>,
    temperature: T,
    sums: Seq<T>,
    i: int,
)
    requires
        computed_by::<T, A>(f),
        are_running_sums::<T, A>(x, order, temperature, sums),
        0 <= i < sums.len(),
    ensures
        sums[i] == if i == 0 {
            f.one
        } else {
            (f.plus)(
                sums[i - 1],
                (f.exp)(
                    (f.over)((f.minus)(x[order[i] as int], x[order[0] as int]), temperature),
                ),
            )
        },
{
    if i > 0 {
        assert(weight_added::<T, A>(
            sums[i - 1],
            x[order[i] as int],
            x[order[0] as int],
            temperature,
            sums[i],
        ));
    }
}

/// What a token adds to the running sums depends on its own score, the largest score and the
/// temperature only: not on its rank, nor on any of the other scores.
pub proof fn law_weight_depends_on_own_score<T, A: Arithmetic<T>>(
    x1: Seq<T>,
    order1: Seq<u32>,
    sums1: Seq<T>,
    i: int,
    x2: Seq<T>,
    order2: Seq<u32>,
    sums2: Seq<T>,
    j: int,
    temperature: T,
)
    requires
        determined::<T, A>(),
        are_running_sums::<T, A>(x1, order1, temperature, sums1),
        are_running_sums::<T, A>(x2, order2, temperature, sums2),
        1 <= i < sums1.len(),
        1 <= j < sums2.len(),
        x1[order1[i] as int] == x2[order2[j] as int],
        x1[order1[0] as int] == x2[order2[0] as int],
    ensures
        exists|w: T| #[trigger]
            plus::<T, A>(sums1[i - 1], w, sums1[i]) && plus::<T, A>(sums2[j - 1], w, sums2[j]),
        sums1[i - 1] == sums2[j - 1] ==> sums1[i] == sums2[j],
{
    let s = x1[order1[i] as int];
    let max = x1[order1[0] as int];
    assert(weight_added::<T, A>(sums1[i - 1], s, max, temperature, sums1[i]));
    assert(weight_added::<T, A>(sums2[j - 1], s, max, temperature, sums2[j]));
    let w1 = choose|w: T| #[trigger]
        is_weight::<T, A>(s, max, temperature, w) && plus::<T, A>(sums1[i - 1], w, sums1[i]);
    let w2 = choose|w: T| #[trigger]
        is_weight::<T, A>(s, max, temperature, w) && plus::<T, A>(sums2[j - 1], w, sums2[j]);
    assert(w1 == w2);
    assert(plus::<T, A>(sums1[i - 1], w1, sums1[i]));
}

/// The codes of scores.
pub open spec fn codes<T>(f: Ops<T>, x: Seq<T>) -> Seq<u32> {
    Seq::new(x.len(), |i: int| (f.code)(x[i]))
}

/// There is one code for each score.
pub proof fn law_codes<T>(f: Ops<T>, x: Seq<T>, i: int)
    requires
        0 <= i < x.len(),
    ensures
        codes(f, x).len() == x.len(),
        codes(f, x)[i] == (f.code)(x[i]),
{
}

/// A drawn token is the first in the ranking whose running sum of weights reaches
/// `draw * min(sum of the first top_k weights, top_p * sum of all weights)`, and there is none only
/// if no running sum does.
pub proof fn law_draw_formula<T, A: Arithmetic<T>>(
    f: Ops<T>,
    x: Seq<T>,
    top_p: T,
    top_k: u32,
    temperature: T,
    draw: T,
    r: Option<u32>,
)
    requires
        computed_by::<T, A>(f),
        x.len() > 0,
        top_k > 0,
        sampled::<T, A>(x, top_p, top_k, temperature, draw, r),
    ensures
        exists|order: Seq<u32>, sums: Seq<T>|
            {
                let n = x.len() as int;
                let k = if top_k < n {
                    top_k as int
                } else {
                    n
                };
                let limit = (f.code)(
                    (f.times)(draw, (f.smaller)(sums[k - 1], (f.times)(sums[n - 1], top_p))),
                );
                &&& #[trigger] is_ranking(codes(f, x), order)
                &&& #[trigger] sums.len() == n
                &&& sums[0] == f.one
                &&& forall|i: int|
                    1 <= i < n ==> sums[i] == (f.plus)(
                        sums[i - 1],
                        (f.exp)(
                            (f.over)(
                                (f.minus)(x[(#[trigger] order[i]) as int], x[order[0] as int]),
                                temperature,
                            ),
                        ),
                    )
                &&& match r {
                    Some(t) => exists|i: int|
                        {
                            &&& 0 <= i < n
                            &&& t == #[trigger] order[i]
                            &&& at_least((f.code)(sums[i]), limit)
                            &&& forall|j: int|
                                0 <= j < i ==> !at_least((f.code)(#[trigger] sums[j]), limit)
                        },
                    None => forall|j: int|
                        0 <= j < n ==> !at_least((f.code)(#[trigger] sums[j]), limit),
                }
            },
{
    let t = choose|t: SampleTrace<T>| #[trigger]
        sample_steps::<T, A>(x, top_p, top_k, temperature, draw, t, r);
    let n = x.len() as int;
    assert(t.bits =~= codes(f, x));
    assert forall|i: int| 1 <= i < n implies t.sums[i] == (f.plus)(
        t.sums[i - 1],
        (f.exp)(
            (f.over)(
                (f.minus)(x[(#[trigger] t.order[i]) as int], x[t.order[0] as int]),
                temperature,
            ),
        ),
    ) by {
        law_running_sums_formula::<T, A>(f, x, t.order, temperature, t.sums, i);
    }
    let k = if top_k < n {
        top_k as int
    } else {
        n
    };
    let limit = (f.times)(draw, (f.smaller)(t.sums[k - 1], (f.times)(t.sums[n - 1], top_p)));
    assert(t.limit == limit);
    assert(t.limit_bits == (f.code)(limit));
    assert(picked_first::<T, A>(t.order, t.sums, t.limit_bits, t.codes, r));
    assert forall|i: int| 0 <= i < t.codes.len() implies #[trigger] t.codes[i] == (f.code)(
        t.sums[i],
    ) by {}
    match r {
        Some(token) => {
            let i = t.codes.len() - 1;
            assert(t.codes[i] == (f.code)(t.sums[i]));
            assert(token == t.order[i]);
            assert forall|j: int| 0 <= j < i implies !at_least(
                (f.code)(#[trigger] t.sums[j]),
                (f.code)(limit),
            ) by {
                assert(!at_least(t.codes[j], t.limit_bits));
            }
        },
        None => {
            assert forall|j: int| 0 <= j < n implies !at_least(
                (f.code)(#[trigger] t.sums[j]),
                (f.code)(limit),
            ) by {
                assert(!at_least(t.codes[j], t.limit_bits));
            }
        },
    }
    assert(is_ranking(codes(f, x), t.order));
}

/// The token is the largest if the temperature or the share is a number that is not positive, or
/// if fewer than two tokens are asked for. Otherwise it is drawn with a random number.
pub proof fn law_choice_formula<T, A: Arithmetic<T>>(
    f: Ops<T>,
    x: Seq<T>,
    top_p: T,
    top_k: u32,
    temperature: T,
    r: Option<u32>,
)
    requires
        computed_by::<T, A>(f),
        chosen::<T, A>(x, top_p, top_k, temperature, r),
    ensures
        ({
            let tc = (f.code)(temperature);
            let pc = (f.code)(top_p);
            if (has_value(tc) && scaled(tc) <= 0) || top_k <= 1 || (has_value(pc) && scaled(pc)
                <= 0) {
                picked_largest(codes(f, x), r)
            } else {
                exists|draw: T| #[trigger]
                    call_ensures(A::random, (), draw) && sampled::<T, A>(
                        x,
                        top_p,
                        top_k,
                        temperature,
                        draw,
                        r,
                    )
            }
        }),
{
    let tc = (f.code)(temperature);
    let pc = (f.code)(top_p);
    law_comparisons_follow_the_values(tc, tc);
    law_comparisons_follow_the_values(pc, pc);
    assert forall|bits: Seq<u32>| #[trigger] encoded::<T, A>(x, bits) implies bits == codes(
        f,
        x,
    ) by {
        assert(bits =~= codes(f, x));
    }
}

} // verus!
