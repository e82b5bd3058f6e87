//! The choice of the next token.
//!
//! Scalars are compared by their single-precision encodings: the top bit is the sign, the other
//! bits are the magnitude, and magnitudes above [`INFINITY`] encode values that are not numbers.

use crate::arith::{
    drawn, encodes, is_exp, is_one, is_smaller, minus, over, plus, times, Arithmetic,
};
use crate::tensor::Tensor;
use vstd::prelude::*;

verus! {

/// The sign bit of an encoding.
pub const SIGN: u32 = 0x8000_0000;

/// The encoding of positive infinity.
pub const INFINITY: u32 = 0x7f80_0000;

/// The magnitude of an encoded value.
pub open spec fn magnitude(bits: u32) -> u32 {
    if bits < SIGN {
        bits
    } else {
        (bits - SIGN) as u32
    }
}

/// The encoding stands for a number, or for an infinity.
pub open spec fn is_numeric(bits: u32) -> bool {
    magnitude(bits) <= INFINITY
}

/// An integer by which encoded numbers compare as the numbers do; the two zeros are equal.
pub open spec fn value_key(bits: u32) -> int {
    if bits < SIGN {
        bits as int
    } else {
        -(magnitude(bits) as int)
    }
}

/// `a >= b` for the encoded values: false if one of them is not a number.
pub open spec fn at_least(a: u32, b: u32) -> bool {
    is_numeric(a) && is_numeric(b) && value_key(a) >= value_key(b)
}

/// `a <= 0` for the encoded value: false if it is not a number.
pub open spec fn not_positive(a: u32) -> bool {
    is_numeric(a) && value_key(a) <= 0
}

/// An integer by which all encoded values are totally ordered: negative values that are not
/// numbers, negative numbers from minus infinity to minus zero, positive numbers from zero to
/// infinity, positive values that are not numbers.
pub open spec fn total_key(bits: u32) -> int {
    if bits < SIGN {
        bits as int
    } else {
        -(magnitude(bits) as int) - 1
    }
}

/// `bits` can be the encodings of `x`.
pub open spec fn encoded<T, A: Arithmetic<T>>(x: Seq<T>, bits: Seq<u32>) -> bool {
    &&& bits.len() == x.len()
    &&& forall|i: int| 0 <= i < x.len() ==> encodes::<T, A>(x[i], #[trigger] bits[i])
}

/// Entry `r` is the last of the largest encoded values.
pub open spec fn is_last_largest(bits: Seq<u32>, r: int) -> bool {
    &&& 0 <= r < bits.len()
    &&& forall|i: int| 0 <= i <= r ==> value_key(#[trigger] bits[i]) <= value_key(bits[r])
    &&& forall|i: int| r < i < bits.len() ==> value_key(#[trigger] bits[i]) < value_key(bits[r])
}

/// The largest of the encoded values can be told: there is one, and none of those that have to be
/// compared is not a number.
pub open spec fn is_comparable(bits: Seq<u32>) -> bool {
    &&& bits.len() > 0
    &&& bits.len() == 1 || forall|i: int|
        0 <= i < bits.len() ==> is_numeric(#[trigger] bits[i])
}

/// What picking the largest value gives.
pub open spec fn picked_largest(bits: Seq<u32>, r: Option<u32>) -> bool {
    match r {
        Some(t) => is_comparable(bits) && is_last_largest(bits, t as int),
        None => !is_comparable(bits),
    }
}

/// `order` lists all the entries from the largest to the smallest, equal ones by their index.
pub open spec fn is_ranking(bits: Seq<u32>, order: Seq<u32>) -> bool {
    &&& order.len() == bits.len()
    &&& order.no_duplicates()
    &&& forall|i: int| 0 <= i < order.len() ==> (#[trigger] order[i]) < bits.len()
    &&& forall|i: int, j: int|
        0 <= i < j < order.len() ==> {
            let a = total_key(bits[(#[trigger] order[i]) as int]);
            let b = total_key(bits[(#[trigger] order[j]) as int]);
            a > b || (a == b && order[i] < order[j])
        }
}

/// `w` can be `exp((x - max) / temperature)`.
pub open spec fn is_weight<T, A: Arithmetic<T>>(x: T, max: T, temperature: T, w: T) -> bool {
    exists|d: T, q: T| #[trigger]
        minus::<T, A>(x, max, d) && #[trigger] over::<T, A>(d, temperature, q) && is_exp::<T, A>(
            q,
            w,
        )
}

/// `next` can be `last` increased by the weight of `x`.
pub open spec fn weight_added<T, A: Arithmetic<T>>(
    last: T,
    x: T,
    max: T,
    temperature: T,
    next: T,
) -> bool {
    exists|w: T| #[trigger]
        is_weight::<T, A>(x, max, temperature, w) && plus::<T, A>(last, w, next)
}

/// `sums` can be the running sums of the weights of the entries of `x` in the given order. The
/// first weight is 1.
pub open spec fn are_running_sums<T, A: Arithmetic<T>>(
    x: Seq<T>,
    order: Seq<u32>,
    temperature: T,
    sums: Seq<T>,
) -> bool {
    &&& is_one::<T, A>(sums[0])
    &&& forall|i: int|
        1 <= i < sums.len() ==> weight_added::<T, A>(
            sums[i - 1],
            x[order[i] as int],
            x[order[0] as int],
            temperature,
            #[trigger] sums[i],
        )
}

/// The number of entries that take part: `top_k` of them, or all if there are fewer.
pub open spec fn taking_part(n: int, top_k: u32) -> int {
    if top_k < n {
        top_k as int
    } else {
        n
    }
}

/// `limit` can be `draw * min(weight of the first top_k entries, top_p * weight of all)`.
pub open spec fn is_limit<T, A: Arithmetic<T>>(
    sums: Seq<T>,
    top_p: T,
    top_k: u32,
    draw: T,
    limit: T,
) -> bool {
    exists|pp: T, m: T| #[trigger]
        times::<T, A>(sums.last(), top_p, pp) && #[trigger] is_smaller::<T, A>(
            sums[taking_part(sums.len() as int, top_k) - 1],
            pp,
            m,
        ) && times::<T, A>(draw, m, limit)
}

/// The first of the running sums that reaches the limit decides; `codes` are the encodings of the
/// sums up to and including that one.
pub open spec fn picked_first<T, A: Arithmetic<T>>(
    order: Seq<u32>,
    sums: Seq<T>,
    limit: u32,
    codes: Seq<u32>,
    r: Option<u32>,
) -> bool {
    &&& codes.len() <= sums.len()
    &&& forall|i: int| 0 <= i < codes.len() ==> encodes::<T, A>(sums[i], #[trigger] codes[i])
    &&& match r {
        Some(t) => {
            &&& codes.len() > 0
            &&& at_least(codes.last(), limit)
            &&& forall|i: int|
                0 <= i < codes.len() - 1 ==> !at_least(#[trigger] codes[i], limit)
            &&& t == order[codes.len() - 1]
        },
        None => {
            &&& codes.len() == sums.len()
            &&& forall|i: int| 0 <= i < codes.len() ==> !at_least(#[trigger] codes[i], limit)
        },
    }
}

/// The values that a draw from the most likely tokens goes through.
pub struct SampleTrace<T> {
    pub bits: Seq<u32>,
    pub order: Seq<u32>,
    pub sums: Seq<T>,
    pub limit: T,
    pub limit_bits: u32,
    pub codes: Seq<u32>,
}

/// `t` can be the values on the way from `x` and `draw` to the result `r`.
pub open spec fn sample_steps<T, A: Arithmetic<T>>(
    x: Seq<T>,
    top_p: T,
    top_k: u32,
    temperature: T,
    draw: T,
    t: SampleTrace<T>,
    r: Option<u32>,
) -> bool {
    &&& encoded::<T, A>(x, t.bits)
    &&& is_ranking(t.bits, t.order)
    &&& t.sums.len() == x.len()
    &&& are_running_sums::<T, A>(x, t.order, temperature, t.sums)
    &&& is_limit::<T, A>(t.sums, top_p, top_k, draw, t.limit)
    &&& encodes::<T, A>(t.limit, t.limit_bits)
    &&& picked_first::<T, A>(t.order, t.sums, t.limit_bits, t.codes, r)
}

/// `r` can be the token drawn from `x` with the random number `draw`.
pub open spec fn sampled<T, A: Arithmetic<T>>(
    x: Seq<T>,
    top_p: T,
    top_k: u32,
    temperature: T,
    draw: T,
    r: Option<u32>,
) -> bool {
    exists|t: SampleTrace<T>| #[trigger]
        sample_steps::<T, A>(x, top_p, top_k, temperature, draw, t, r)
}

fn is_numeric_bits(bits: u32) -> (b: bool)
    ensures
        b == is_numeric(bits),
{
    if bits < SIGN {
        bits <= INFINITY
    } else {
        bits - SIGN <= INFINITY
    }
}

/// `a >= b` for numbers.
fn key_at_least(a: u32, b: u32) -> (r: bool)
    ensures
        r == (value_key(a) >= value_key(b)),
{
    if a < SIGN {
        if b < SIGN {
            a >= b
        } else {
            true
        }
    } else if b < SIGN {
        a == SIGN && b == 0
    } else {
        a <= b
    }
}

/// `a >= b` for the encoded values.
pub fn compare_at_least(a: u32, b: u32) -> (r: bool)
    ensures
        r == at_least(a, b),
{
    is_numeric_bits(a) && is_numeric_bits(b) && key_at_least(a, b)
}

/// `a <= 0` for the encoded value.
pub fn is_not_positive(a: u32) -> (r: bool)
    ensures
        r == not_positive(a),
{
    is_numeric_bits(a) && key_at_least(0, a)
}

/// The encodings of `x`.
fn encode_all<T: Copy, A: Arithmetic<T>>(x: &Vec<T>) -> (bits: Vec<u32>)
    ensures
        encoded::<T, A>(x@, bits@),
{
    let mut bits: Vec<u32> = Vec::with_capacity(x.len());
    for i in 0..x.len()
        invariant
            bits@.len() == i,
            forall|k: int| 0 <= k < i ==> encodes::<T, A>(x@[k], #[trigger] bits@[k]),
    {
        let code = A::to_bits(x[i]);
        bits.push(code);
    }
    bits
}

/// The index of the largest of the encoded values, the last one if there are several. Nothing if
/// there is no value or if values that are not numbers would have to be compared.
pub fn pick_largest(bits: &Vec<u32>) -> (r: Option<u32>)
    requires
        bits@.len() <= 0x1_0000_0000,
    ensures
        picked_largest(bits@, r),
{
    let n = bits.len();
    if n == 0 {
        return None;
    }
    let mut best: usize = 0;
    for i in 1..n
        invariant
            n == bits@.len(),
            best < i,
            i > 1 ==> forall|k: int| 0 <= k < i ==> is_numeric(#[trigger] bits@[k]),
            forall|k: int| 0 <= k <= best ==> value_key(#[trigger] bits@[k]) <= value_key(
                bits@[best as int],
            ),
            forall|k: int| best < k < i ==> value_key(#[trigger] bits@[k]) < value_key(
                bits@[best as int],
            ),
    {
        if !(is_numeric_bits(bits[best]) && is_numeric_bits(bits[i])) {
            return None;
        }
        if key_at_least(bits[i], bits[best]) {
            best = i;
        }
    }
    Some(best as u32)
}

/// The order of pairs by the first entry, equal ones by the second.
pub open spec fn pair_le(a: (u32, u32), b: (u32, u32)) -> bool {
    a.0 < b.0 || (a.0 == b.0 && a.1 <= b.1)
}

/// Calls the standard library's `sort_unstable` for slices: afterwards the same pairs stand in
/// ascending order, the first entry counting before the second.
#[verifier::external_body]
fn sort_pairs(v: &mut Vec<(u32, u32)>)
    ensures
        final(v)@.to_multiset() == old(v)@.to_multiset(),
        forall|i: int, j: int|
            0 <= i < j < final(v)@.len() ==> pair_le(
                #[trigger] final(v)@[i],
                #[trigger] final(v)@[j],
            ),
{
    v.sort_unstable()
}

/// Ascending in this number means descending in the total order.
spec fn rank(bits: u32) -> u32 {
    if bits < SIGN {
        (SIGN - 1 - bits) as u32
    } else {
        bits
    }
}

/// The sorted pairs list every entry once.
proof fn lemma_sorted_pairs(bits: Seq<u32>, pairs: Seq<(u32, u32)>, sorted: Seq<(u32, u32)>)
    requires
        bits.len() <= 0x1_0000_0000,
        pairs.len() == bits.len(),
        forall|i: int|
            0 <= i < pairs.len() ==> #[trigger] pairs[i] == (rank(bits[i]), i as u32),
        sorted.to_multiset() == pairs.to_multiset(),
        forall|i: int, j: int|
            0 <= i < j < sorted.len() ==> pair_le(#[trigger] sorted[i], #[trigger] sorted[j]),
    ensures
        is_ranking(bits, sorted.map_values(|p: (u32, u32)| p.1)),
{
    broadcast use vstd::seq_lib::group_to_multiset_ensures;

    let order = sorted.map_values(|p: (u32, u32)| p.1);
    assert(pairs.no_duplicates());
    pairs.lemma_multiset_has_no_duplicates();
    sorted.lemma_multiset_has_no_duplicates_conv();
    assert(sorted.len() == sorted.to_multiset().len());
    assert(pairs.len() == pairs.to_multiset().len());
    assert forall|i: int| 0 <= i < sorted.len() implies (#[trigger] sorted[i]).1 < bits.len()
        && sorted[i].0 == rank(bits[sorted[i].1 as int]) by {
        assert(sorted.contains(sorted[i]));
        assert(sorted.to_multiset().count(sorted[i]) > 0);
        assert(pairs.contains(sorted[i]));
        let k = choose|k: int| 0 <= k < pairs.len() && pairs[k] == sorted[i];
    }
    assert forall|i: int, j: int| 0 <= i < j < order.len() implies {
        let a = total_key(bits[(#[trigger] order[i]) as int]);
        let b = total_key(bits[(#[trigger] order[j]) as int]);
        a > b || (a == b && order[i] < order[j])
    } by {
        assert(pair_le(sorted[i], sorted[j]));
        assert(sorted[i] != sorted[j]);
    }
    assert forall|i: int, j: int|
        0 <= i < order.len() && 0 <= j < order.len() && i != j implies order[i] != order[j] by {
        assert(sorted[i] != sorted[j]);
    }
}

/// The indices of the entries from the largest to the smallest, equal ones by their index.
pub fn rank_entries(bits: &Vec<u32>) -> (order: Vec<u32>)
    requires
        bits@.len() <= 0x1_0000_0000,
    ensures
        is_ranking(bits@, order@),
{
    let n = bits.len();
    let mut pairs: Vec<(u32, u32)> = Vec::with_capacity(n);
    for i in 0..n
        invariant
            n == bits@.len(),
            n <= 0x1_0000_0000,
            pairs@.len() == i,
            forall|k: int|
                0 <= k < i ==> #[trigger] pairs@[k] == (rank(bits@[k]), k as u32),
    {
        let code = bits[i];
        let key = if code < SIGN {
            SIGN - 1 - code
        } else {
            code
        };
        pairs.push((key, i as u32));
    }
    let ghost unsorted = pairs@;
    sort_pairs(&mut pairs);
    proof {
        lemma_sorted_pairs(bits@, unsorted, pairs@);
    }
    let ghost full = pairs@.map_values(|p: (u32, u32)| p.1);
    let mut order: Vec<u32> = Vec::with_capacity(n);
    for i in 0..pairs.len()
        invariant
            full == pairs@.map_values(|p: (u32, u32)| p.1),
            order@ == full.take(i as int),
    {
        order.push(pairs[i].1);
        assert(order@ =~= full.take(i + 1));
    }
    assert(order@ =~= full);
    order
}

/// The running sums of the weights of the entries of `x` in the given order.
fn running_sums<T: Copy, A: Arithmetic<T>>(
    x: &Vec<T>,
    order: &Vec<u32>,
    temperature: T,
) -> (sums: Vec<T>)
    requires
        x@.len() > 0,
        order@.len() == x@.len(),
        forall|i: int| 0 <= i < order@.len() ==> (#[trigger] order@[i]) < x@.len(),
    ensures
        sums@.len() == x@.len(),
        are_running_sums::<T, A>(x@, order@, temperature, sums@),
{
    let n = order.len();
    let max = x[order[0] as usize];
    let mut sums: Vec<T> = Vec::with_capacity(n);
    sums.push(A::one());
    for i in 1..n
        invariant
            n == order@.len(),
            n == x@.len(),
            forall|k: int| 0 <= k < n ==> (#[trigger] order@[k]) < x@.len(),
            max == x@[order@[0] as int],
            sums@.len() == i,
            are_running_sums::<T, A>(x@, order@, temperature, sums@),
    {
        let value = x[order[i] as usize];
        let d = A::minus(value, max);
        let q = A::over(d, temperature);
        let w = A::exp(q);
        let last = sums[i - 1];
        let next = A::plus(last, w);
        proof {
            assert(minus::<T, A>(value, max, d));
            assert(over::<T, A>(d, temperature, q));
            assert(is_weight::<T, A>(value, max, temperature, w));
            assert(weight_added::<T, A>(last, value, max, temperature, next));
        }
        sums.push(next);
    }
    sums
}

/// The token drawn from `x` with the random number `draw`: among the `top_k` most likely ones, and
/// among those that together have the share `top_p` of the weight. Nothing if no running sum
/// compares with the limit.
#[verifier::rlimit(40)]
pub fn sample_with<T: Copy, A: Arithmetic<T>>(
    x: &Tensor<T>,
    top_p: T,
    top_k: u32,
    temperature: T,
    draw: T,
) -> (r: Option<u32>)
    requires
        0 < x.data@.len() <= 0x1_0000_0000,
        top_k > 0,
    ensures
        sampled::<T, A>(x.data@, top_p, top_k, temperature, draw, r),
{
    let n = x.size();
    let bits = encode_all::<T, A>(&x.data);
    let order = rank_entries(&bits);
    let sums = running_sums::<T, A>(&x.data, &order, temperature);
    let k = if (top_k as usize) < n {
        top_k as usize
    } else {
        n
    };
    let pk = sums[k - 1];
    let pp = A::times(sums[n - 1], top_p);
    let m = A::smaller(pk, pp);
    let limit = A::times(draw, m);
    let limit_bits = A::to_bits(limit);
    assert(is_limit::<T, A>(sums@, top_p, top_k, draw, limit)) by {
        assert(times::<T, A>(sums@.last(), top_p, pp));
        assert(is_smaller::<T, A>(sums@[taking_part(n as int, top_k) - 1], pp, m));
    }
    let ghost mut codes: Seq<u32> = Seq::empty();
    for i in 0..n
        invariant
            n == x.data@.len(),
            n == sums@.len(),
            n == order@.len(),
            encoded::<T, A>(x.data@, bits@),
            is_ranking(bits@, order@),
            are_running_sums::<T, A>(x.data@, order@, temperature, sums@),
            is_limit::<T, A>(sums@, top_p, top_k, draw, limit),
            encodes::<T, A>(limit, limit_bits),
            codes.len() == i,
            forall|j: int| 0 <= j < i ==> encodes::<T, A>(sums@[j], #[trigger] codes[j]),
            forall|j: int| 0 <= j < i ==> !at_least(#[trigger] codes[j], limit_bits),
    {
        let code = A::to_bits(sums[i]);
        proof {
            codes = codes.push(code);
        }
        if compare_at_least(code, limit_bits) {
            let token = order[i];
            proof {
                let t = SampleTrace {
                    bits: bits@,
                    order: order@,
                    sums: sums@,
                    limit,
                    limit_bits,
                    codes,
                };
                assert(picked_first::<T, A>(order@, sums@, limit_bits, codes, Some(token)));
                assert(sample_steps::<T, A>(
                    x.data@,
                    top_p,
                    top_k,
                    temperature,
                    draw,
                    t,
                    Some(token),
                ));
            }
            return Some(token);
        }
    }
    proof {
        let t = SampleTrace { bits: bits@, order: order@, sums: sums@, limit, limit_bits, codes };
        assert(sample_steps::<T, A>(x.data@, top_p, top_k, temperature, draw, t, None));
    }
    None
}

/// The parameters ask for the most likely token instead of a draw.
pub open spec fn asks_for_largest(temperature: u32, top_k: u32, top_p: u32) -> bool {
    not_positive(temperature) || top_k < 2 || not_positive(top_p)
}

/// `r` can be the token chosen from `x`.
pub open spec fn chosen<T, A: Arithmetic<T>>(
    x: Seq<T>,
    top_p: T,
    top_k: u32,
    temperature: T,
    r: Option<u32>,
) -> bool {
    exists|tb: u32, pb: u32| #[trigger]
        encodes::<T, A>(temperature, tb) && #[trigger] encodes::<T, A>(top_p, pb)
            && if asks_for_largest(tb, top_k, pb) {
            exists|bits: Seq<u32>| #[trigger] encoded::<T, A>(x, bits) && picked_largest(bits, r)
        } else {
            exists|draw: T| #[trigger]
                drawn::<T, A>(draw) && sampled::<T, A>(x, top_p, top_k, temperature, draw, r)
        }
}

/// Chooses an index of `x`, which holds one number for each token: the index of the largest
/// number if `temperature` or `top_p` is not positive or `top_k` is below 2, and otherwise a
/// random one. Nothing if the numbers do not allow a choice.
pub fn random_sample<T: Copy, A: Arithmetic<T>>(
    x: &Tensor<T>,
    top_p: T,
    top_k: u32,
    temperature: T,
) -> (r: Option<u32>)
    requires
        x.shape@.len() > 0,
        x.shape@.last() == x.data@.len(),
        0 < x.data@.len() <= 0x1_0000_0000,
    ensures
        chosen::<T, A>(x.data@, top_p, top_k, temperature, r),
        r matches Some(t) ==> t < x.data@.len(),
{
    let tb = A::to_bits(temperature);
    let pb = A::to_bits(top_p);
    assert(encodes::<T, A>(temperature, tb));
    assert(encodes::<T, A>(top_p, pb));
    if is_not_positive(tb) || top_k < 2 || is_not_positive(pb) {
        let bits = encode_all::<T, A>(&x.data);
        assert(encoded::<T, A>(x.data@, bits@));
        return pick_largest(&bits);
    }
    let draw = A::random();
    assert(drawn::<T, A>(draw));
    sample_with::<T, A>(x, top_p, top_k, temperature, draw)
}

} // verus!
