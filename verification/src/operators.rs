//! The numeric operators that a transformer is made of.

use crate::arith::{
    is_dot, is_exp, is_largest, is_number, is_one, is_power, is_sin_cos, is_sqrt, is_sum, is_zero,
    lemma_dot_step, lemma_largest_step, lemma_sum_step, minus, negated, over, plus, times, widened,
    widens, Arithmetic, Widen,
};
use crate::layout::{at, lemma_flat_bound, lemma_row_bound, lemma_set_at, row, set_row};
use crate::tensor::{entries, lemma_entries_2, lemma_entries_3, Tensor};
use vstd::prelude::*;

verus! {

/// `y` can hold the rows of `table` that `indices` lists, converted entry by entry.
pub open spec fn gathered<U, T, A: Widen<U, T>>(
    indices: Seq<u32>,
    table: Seq<U>,
    dim: int,
    y: Seq<T>,
) -> bool {
    &&& y.len() == indices.len() * dim
    &&& forall|i: int, j: int|
        0 <= i < indices.len() && 0 <= j < dim ==> widens::<U, T, A>(
            at(table, dim, indices[i] as int, j),
            #[trigger] at(y, dim, i, j),
        )
}

/// Copies the rows of the two-dimensional `table` that `indices` lists to `y`.
pub fn gather<U: Copy, T: Copy, A: Widen<U, T>>(
    y: &mut Tensor<T>,
    indices: &Tensor<u32>,
    table: &Tensor<U>,
)
    requires
        table.wf(),
        table.shape@.len() == 2,
        old(y).data@.len() == indices.data@.len() * table.shape@[1],
        forall|i: int|
            0 <= i < indices.data@.len() ==> (#[trigger] indices.data@[i] + 1) * table.shape@[1]
                <= table.data@.len(),
    ensures
        final(y).shape == old(y).shape,
        gathered::<U, T, A>(
            indices.data@,
            table.data@,
            table.shape@[1] as int,
            final(y).data@,
        ),
{
    let length = indices.size();
    let dim = table.shape[1];
    let size = table.size();
    let places = y.size();
    for i in 0..length
        invariant
            length == indices.data@.len(),
            size == table.data@.len(),
            places == length * dim,
            dim == table.shape@[1],
            y.shape == old(y).shape,
            y.data@.len() == places,
            forall|k: int|
                0 <= k < length ==> (#[trigger] indices.data@[k] + 1) * dim <= size,
            forall|i2: int, j2: int|
                0 <= i2 < i && 0 <= j2 < dim ==> widens::<U, T, A>(
                    at(table.data@, dim as int, indices.data@[i2] as int, j2),
                    #[trigger] at(y.data@, dim as int, i2, j2),
                ),
    {
        let index = indices.data[i] as usize;
        for j in 0..dim
            invariant
                i < length,
                length == indices.data@.len(),
                size == table.data@.len(),
                places == length * dim,
                index == indices.data@[i as int],
                (index + 1) * dim <= size,
                y.shape == old(y).shape,
                y.data@.len() == places,
                forall|i2: int, j2: int|
                    (0 <= i2 < i && 0 <= j2 < dim) || (i2 == i && 0 <= j2 < j) ==> widens::<
                        U,
                        T,
                        A,
                    >(
                        at(table.data@, dim as int, indices.data@[i2] as int, j2),
                        #[trigger] at(y.data@, dim as int, i2, j2),
                    ),
        {
            proof {
                lemma_flat_bound(index + 1, dim as int, index as int, j as int);
                lemma_flat_bound(length as int, dim as int, i as int, j as int);
            }
            let value = A::widen(table.data[index * dim + j]);
            proof {
                lemma_set_at(y.data@, length as int, dim as int, i as int, j as int, value);
                assert(widens::<U, T, A>(
                    at(table.data@, dim as int, index as int, j as int),
                    value,
                ));
            }
            y.data.set(i * dim + j, value);
        }
    }
}

/// `f` can be `pos / theta^(2 i / d)`, the angle by which position `pos` turns pair `i`.
pub open spec fn is_angle<T, A: Arithmetic<T>>(
    pos: usize,
    i: usize,
    d: usize,
    theta: T,
    f: T,
) -> bool {
    exists|p: T, n: T, m: T, e: T, w: T| #[trigger]
        is_number::<T, A>(pos, p) && #[trigger] is_number::<T, A>((i * 2) as usize, n)
            && #[trigger] is_number::<T, A>(d, m) && #[trigger] over::<T, A>(n, m, e)
            && #[trigger] is_power::<T, A>(theta, e, w) && over::<T, A>(p, w, f)
}

fn angle<T: Copy, A: Arithmetic<T>>(pos: usize, i: usize, d: usize, theta: T) -> (f: T)
    requires
        i * 2 <= usize::MAX,
    ensures
        is_angle::<T, A>(pos, i, d, theta, f),
{
    let p = A::from_usize(pos);
    let n = A::from_usize(i * 2);
    let m = A::from_usize(d);
    let e = A::over(n, m);
    let w = A::powf(theta, e);
    let f = A::over(p, w);
    assert(is_number::<T, A>(pos, p));
    assert(is_number::<T, A>((i * 2) as usize, n));
    assert(is_number::<T, A>(d, m));
    assert(over::<T, A>(n, m, e));
    assert(is_power::<T, A>(theta, e, w));
    f
}

/// The pair `(a1, b1)` can be `(a0, b0)` turned by the angle `f`.
pub open spec fn turned<T, A: Arithmetic<T>>(f: T, a0: T, b0: T, a1: T, b1: T) -> bool {
    exists|s: T, c: T, ac: T, bs: T, bc: T, az: T| #[trigger]
        is_sin_cos::<T, A>(f, s, c) && #[trigger] times::<T, A>(a0, c, ac) && #[trigger] times::<
            T,
            A,
        >(b0, s, bs) && #[trigger] times::<T, A>(b0, c, bc) && #[trigger] times::<T, A>(a0, s, az)
            && minus::<T, A>(ac, bs, a1) && plus::<T, A>(bc, az, b1)
}

fn turn<T: Copy, A: Arithmetic<T>>(f: T, a: T, b: T) -> (r: (T, T))
    ensures
        turned::<T, A>(f, a, b, r.0, r.1),
{
    let (sin, cos) = A::sin_cos(f);
    let ac = A::times(a, cos);
    let bs = A::times(b, sin);
    let bc = A::times(b, cos);
    let az = A::times(a, sin);
    assert(is_sin_cos::<T, A>(f, sin, cos));
    assert(times::<T, A>(a, cos, ac));
    assert(times::<T, A>(b, sin, bs));
    assert(times::<T, A>(b, cos, bc));
    assert(times::<T, A>(a, sin, az));
    (A::minus(ac, bs), A::plus(bc, az))
}

/// `(a1, b1)` can be pair `i` of a vector of length `d` at position `pos`, given that the pair was
/// `(a0, b0)` before.
pub open spec fn pair_rotated<T, A: Arithmetic<T>>(
    pos: usize,
    i: usize,
    d: usize,
    theta: T,
    a0: T,
    b0: T,
    a1: T,
    b1: T,
) -> bool {
    exists|f: T| #[trigger]
        is_angle::<T, A>(pos, i, d, theta, f) && turned::<T, A>(f, a0, b0, a1, b1)
}

/// `y1` can be `y0` after rotary position embedding. `y0` holds `rows` vectors of length `d`,
/// `n_heads` for each token, and the first token is at position `start`. Entry `i` of the first
/// half of a vector and entry `i` of its second half form a pair.
pub open spec fn rotated<T, A: Arithmetic<T>>(
    y0: Seq<T>,
    rows: int,
    n_heads: int,
    d: usize,
    start: int,
    theta: T,
    y1: Seq<T>,
) -> bool {
    &&& y1.len() == y0.len()
    &&& forall|r: int, i: int|
        0 <= r < rows && 0 <= i < d / 2 ==> pair_rotated::<T, A>(
            (start + r / n_heads) as usize,
            i as usize,
            d,
            theta,
            at(y0, d as int, r, i),
            at(y0, d as int, r, i + d / 2),
            #[trigger] at(y1, d as int, r, i),
            at(y1, d as int, r, i + d / 2),
        )
    &&& forall|r: int, i: int|
        0 <= r < rows && (d / 2) * 2 <= i < d ==> #[trigger] at(y1, d as int, r, i) == at(
            y0,
            d as int,
            r,
            i,
        )
}

/// Rotary position embedding of a tensor of shape (tokens, heads, vector), whose first token is
/// at position `start_pos`.
pub fn rope<T: Copy, A: Arithmetic<T>>(y: &mut Tensor<T>, start_pos: usize, theta: T)
    requires
        old(y).wf(),
        old(y).shape@.len() == 3,
        start_pos + old(y).shape@[0] <= usize::MAX + 1,
    ensures
        final(y).shape == old(y).shape,
        rotated::<T, A>(
            old(y).data@,
            old(y).shape@[0] * old(y).shape@[1],
            old(y).shape@[1] as int,
            old(y).shape@[2],
            start_pos as int,
            theta,
            final(y).data@,
        ),
{
    let seq_len = y.shape[0];
    let n_heads = y.shape[1];
    let d = y.shape[2];
    let half = d / 2;
    let size = y.size();
    let ghost y0 = y.data@;
    let ghost rows = seq_len * n_heads;
    proof {
        lemma_entries_3(seq_len, n_heads, d);
        assert(y.shape@ =~= seq![seq_len, n_heads, d]);
        assert(rows * d == size);
        assert(0 * n_heads == 0);
    }
    for tok in 0..seq_len
        invariant
            half == d / 2,
            rows == seq_len * n_heads,
            rows * d == size,
            y0.len() == size,
            start_pos + seq_len <= usize::MAX + 1,
            y.shape == old(y).shape,
            rotated_until::<T, A>(
                y0,
                rows,
                n_heads as int,
                d,
                start_pos as int,
                theta,
                y.data@,
                tok * n_heads,
                0,
            ),
    {
        let pos = start_pos + tok;
        for head in 0..n_heads
            invariant
                tok < seq_len,
                pos == start_pos + tok,
                half == d / 2,
                rows == seq_len * n_heads,
                rows * d == size,
                y0.len() == size,
                y.shape == old(y).shape,
                rotated_until::<T, A>(
                    y0,
                    rows,
                    n_heads as int,
                    d,
                    start_pos as int,
                    theta,
                    y.data@,
                    tok * n_heads + head,
                    0,
                ),
        {
            let ghost r = tok * n_heads + head;
            proof {
                lemma_flat_bound(seq_len as int, n_heads as int, tok as int, head as int);
                lemma_row_of(n_heads as int, tok as int, head as int);
                lemma_row_bound(rows, d as int, r);
                assert(tok * n_heads * d + head * d == r * d) by (nonlinear_arith)
                    requires
                        r == tok * n_heads + head,
                ;
                assert(tok * n_heads * d <= r * d) by (nonlinear_arith)
                    requires
                        r == tok * n_heads + head,
                        0 <= head,
                        0 <= d,
                ;
                assert(tok * n_heads <= tok * n_heads * d || d == 0) by (nonlinear_arith)
                    requires
                        0 <= tok,
                        0 <= n_heads,
                        0 <= d,
                ;
            }
            for i in 0..half
                invariant
                    tok < seq_len,
                    head < n_heads,
                    pos == start_pos + tok,
                    half == d / 2,
                    rows * d == size,
                    y0.len() == size,
                    0 <= r < rows,
                    r == tok * n_heads + head,
                    r / (n_heads as int) == tok,
                    tok * n_heads * d + head * d == r * d,
                    tok * n_heads * d <= r * d <= r * d + d <= size,
                    tok * n_heads <= tok * n_heads * d || d == 0,
                    0 <= tok * n_heads,
                    0 <= head * d,
                    y.shape == old(y).shape,
                    rotated_until::<T, A>(
                        y0,
                        rows,
                        n_heads as int,
                        d,
                        start_pos as int,
                        theta,
                        y.data@,
                        r,
                        i as int,
                    ),
            {
                let first = tok * n_heads * d + head * d + i;
                let second = first + half;
                let f = angle::<T, A>(pos, i, d, theta);
                let (a, b) = turn::<T, A>(f, y.data[first], y.data[second]);
                proof {
                    let y1 = y.data@.update(first as int, a);
                    assert(at(y.data@, d as int, r, i as int) == at(y0, d as int, r, i as int));
                    assert(at(y.data@, d as int, r, i + half) == at(y0, d as int, r, i + half));
                    lemma_set_at(y.data@, rows, d as int, r, i as int, a);
                    lemma_set_at(y1, rows, d as int, r, i + half, b);
                    assert(pair_rotated::<T, A>(
                        pos,
                        i,
                        d,
                        theta,
                        at(y0, d as int, r, i as int),
                        at(y0, d as int, r, i + half),
                        a,
                        b,
                    ));
                }
                y.data.set(first, a);
                y.data.set(second, b);
            }
            assert(rotated_until::<T, A>(
                y0,
                rows,
                n_heads as int,
                d,
                start_pos as int,
                theta,
                y.data@,
                r + 1,
                0,
            ));
        }
        assert((tok + 1) * n_heads == tok * n_heads + n_heads) by (nonlinear_arith);
    }
}

/// [`rotated`] for all the pairs before pair `i1` of row `r1`, and nothing changed elsewhere.
spec fn rotated_until<T, A: Arithmetic<T>>(
    y0: Seq<T>,
    rows: int,
    n_heads: int,
    d: usize,
    start: int,
    theta: T,
    y1: Seq<T>,
    r1: int,
    i1: int,
) -> bool {
    &&& y1.len() == y0.len()
    &&& forall|r: int, i: int|
        0 <= r < rows && 0 <= i < d / 2 && (r < r1 || (r == r1 && i < i1)) ==> pair_rotated::<
            T,
            A,
        >(
            (start + r / n_heads) as usize,
            i as usize,
            d,
            theta,
            at(y0, d as int, r, i),
            at(y0, d as int, r, i + d / 2),
            #[trigger] at(y1, d as int, r, i),
            at(y1, d as int, r, i + d / 2),
        )
    &&& forall|r: int, i: int|
        0 <= r < rows && 0 <= i < d && (r > r1 || (r == r1 && i1 <= i < d / 2) || (r == r1 && i1 + d
            / 2 <= i) || (d / 2) * 2 <= i) ==> #[trigger] at(y1, d as int, r, i) == at(
            y0,
            d as int,
            r,
            i,
        )
}

/// Row `i * n + j` belongs to block `i` of `n` rows.
proof fn lemma_row_of(n: int, i: int, j: int)
    requires
        0 <= j < n,
    ensures
        (i * n + j) / n == i,
{
    vstd::arithmetic::div_mod::lemma_fundamental_div_mod_converse(i * n + j, n, i, j);
}

/// `e` can be `exp(x - m)`.
pub open spec fn is_exp_of_difference<T, A: Arithmetic<T>>(x: T, m: T, e: T) -> bool {
    exists|t: T| #[trigger] minus::<T, A>(x, m, t) && is_exp::<T, A>(t, e)
}

/// `e` can be `exp(x - m)`, entry by entry.
pub open spec fn are_exps_of_differences<T, A: Arithmetic<T>>(x: Seq<T>, m: T, e: Seq<T>) -> bool {
    &&& e.len() == x.len()
    &&& forall|j: int|
        0 <= j < x.len() ==> is_exp_of_difference::<T, A>(x[j], m, #[trigger] e[j])
}

/// `y` can be the row `x` after softmax of its first `n` entries; the others are masked.
pub open spec fn softmax_row<T, A: Arithmetic<T>>(x: Seq<T>, n: int, y: Seq<T>) -> bool {
    &&& y.len() == x.len()
    &&& exists|m: T, e: Seq<T>, s: T| #[trigger]
        is_largest::<T, A>(x[0], x.take(n), m) && are_exps_of_differences::<T, A>(x.take(n), m, e)
            && #[trigger] is_sum::<T, A>(e, s) && forall|j: int|
            0 <= j < n ==> over::<T, A>(e[j], s, #[trigger] y[j])
    &&& forall|j: int| n <= j < x.len() ==> is_zero::<T, A>(#[trigger] y[j])
}

/// How many entries of row `r` the causal mask leaves: the last of `seq_len` rows sees all
/// `total` entries, and each row before it one less than the next.
pub open spec fn visible(seq_len: int, total: int, r: int) -> int {
    total - seq_len + r % seq_len + 1
}

/// `y1` can be `y0`, `rows` rows of length `total`, after softmax of each row under the mask.
pub open spec fn softmaxed<T, A: Arithmetic<T>>(
    y0: Seq<T>,
    rows: int,
    seq_len: int,
    total: int,
    y1: Seq<T>,
) -> bool {
    &&& y1.len() == y0.len()
    &&& forall|r: int|
        0 <= r < rows ==> softmax_row::<T, A>(
            row(y0, total, r),
            visible(seq_len, total, r),
            #[trigger] row(y1, total, r),
        )
}

/// Softmax of the first `n` of the entries of a row, which start at `offset`; zeros after them.
fn softmax_of<T: Copy, A: Arithmetic<T>>(
    data: &Vec<T>,
    offset: usize,
    total: usize,
    n: usize,
) -> (y: Vec<T>)
    requires
        offset + total <= data@.len(),
        1 <= n <= total,
    ensures
        softmax_row::<T, A>(data@.subrange(offset as int, offset + total), n as int, y@),
{
    let size = data.len();
    let ghost x = data@.subrange(offset as int, offset + total);
    let first = data[offset];
    let mut max = first;
    assert(is_largest::<T, A>(first, x.take(n as int).take(0), max));
    for j in 0..n
        invariant
            size == data@.len(),
            offset + total <= size,
            n <= total,
            x == data@.subrange(offset as int, offset + total),
            is_largest::<T, A>(first, x.take(n as int).take(j as int), max),
    {
        let larger = A::larger(max, data[offset + j]);
        proof {
            lemma_largest_step::<T, A>(first, x.take(n as int), j as int, max, larger);
        }
        max = larger;
    }
    assert(x.take(n as int).take(n as int) =~= x.take(n as int));
    let mut exps: Vec<T> = Vec::with_capacity(n);
    let mut sum = A::zero();
    assert(is_sum::<T, A>(exps@, sum));
    for j in 0..n
        invariant
            size == data@.len(),
            offset + total <= size,
            n <= total,
            x == data@.subrange(offset as int, offset + total),
            exps@.len() == j,
            forall|k: int|
                0 <= k < j ==> is_exp_of_difference::<T, A>(x[k], max, #[trigger] exps@[k]),
            is_sum::<T, A>(exps@, sum),
    {
        let t = A::minus(data[offset + j], max);
        let e = A::exp(t);
        let s = A::plus(sum, e);
        assert(minus::<T, A>(x[j as int], max, t));
        let ghost before = exps@;
        exps.push(e);
        proof {
            assert(exps@.take(j as int) =~= before);
            lemma_sum_step::<T, A>(exps@, j as int, sum, s);
            assert(exps@.take(j + 1) =~= exps@);
        }
        sum = s;
    }
    let mut y: Vec<T> = Vec::with_capacity(total);
    for j in 0..n
        invariant
            n == exps@.len(),
            y@.len() == j,
            forall|k: int| 0 <= k < j ==> over::<T, A>(exps@[k], sum, #[trigger] y@[k]),
    {
        let q = A::over(exps[j], sum);
        y.push(q);
    }
    for j in n..total
        invariant
            y@.len() == j,
            n <= total,
            forall|k: int| 0 <= k < n ==> over::<T, A>(exps@[k], sum, #[trigger] y@[k]),
            forall|k: int| n <= k < j ==> is_zero::<T, A>(#[trigger] y@[k]),
    {
        y.push(A::zero());
    }
    assert(are_exps_of_differences::<T, A>(x.take(n as int), max, exps@));
    assert(is_largest::<T, A>(x[0], x.take(n as int), max));
    assert(is_sum::<T, A>(exps@, sum));
    y
}

/// The number of entries is that of the matrices times the number of matrices.
proof fn lemma_entries_split(shape: Seq<usize>)
    requires
        shape.len() >= 2,
    ensures
        entries(shape) == entries(shape.take(shape.len() - 2)) * (shape[shape.len() - 2]
            * shape[shape.len() - 1]),
{
    let head = shape.drop_last();
    assert(head.drop_last() =~= shape.take(shape.len() - 2));
    assert(entries(head) == entries(head.drop_last()) * head.last() as nat);
    assert(entries(shape) == entries(head) * shape.last() as nat);
    let b = entries(shape.take(shape.len() - 2)) as int;
    let s = shape[shape.len() - 2] as int;
    let t = shape[shape.len() - 1] as int;
    assert(b * s * t == b * (s * t)) by (nonlinear_arith);
}

/// Softmax of every row of the matrices that `y` holds, under the causal mask:
/// `exp(x - max) / sum(exp(x - max))` for what the row may see and 0 for the rest.
pub fn masked_softmax<T: Copy, A: Arithmetic<T>>(y: &mut Tensor<T>)
    requires
        old(y).wf(),
        old(y).shape@.len() >= 2,
        ({
            let seq_len = old(y).shape@[old(y).shape@.len() - 2];
            let total = old(y).shape@[old(y).shape@.len() - 1];
            &&& 0 < seq_len
            &&& 0 < total
            &&& seq_len * total <= usize::MAX
            &&& seq_len <= total || old(y).data@.len() == 0
        }),
    ensures
        final(y).shape == old(y).shape,
        ({
            let seq_len = old(y).shape@[old(y).shape@.len() - 2] as int;
            let total = old(y).shape@[old(y).shape@.len() - 1] as int;
            softmaxed::<T, A>(
                old(y).data@,
                old(y).data@.len() as int / total,
                seq_len,
                total,
                final(y).data@,
            )
        }),
{
    let ndim = y.shape.len();
    let seq_len = y.shape[ndim - 2];
    let total = y.shape[ndim - 1];
    let size = y.size();
    proof {
        assert(seq_len * total > 0) by (nonlinear_arith)
            requires
                seq_len > 0,
                total > 0,
        ;
    }
    let batch = size / (seq_len * total);
    let ghost y0 = y.data@;
    proof {
        lemma_entries_split(y.shape@);
        let b = entries(y.shape@.take(ndim - 2)) as int;
        vstd::arithmetic::div_mod::lemma_div_multiples_vanish(b, seq_len * total);
        assert(b * (seq_len * total) == (seq_len * total) * b) by (nonlinear_arith);
        assert(batch == b);
        assert(batch * seq_len * total == size) by (nonlinear_arith)
            requires
                size == batch * (seq_len * total),
        ;
        assert(0 <= batch * seq_len <= batch * seq_len * total) by (nonlinear_arith)
            requires
                total >= 1,
                batch >= 0,
                seq_len >= 0,
        ;
        assert(0 * seq_len == 0);
    }
    let rows = batch * seq_len;
    proof {
        assert(total * rows == rows * total) by (nonlinear_arith);
        vstd::arithmetic::div_mod::lemma_div_multiples_vanish(rows as int, total as int);
    }
    for b in 0..batch
        invariant
            0 < seq_len,
            seq_len <= total || batch == 0,
            rows == batch * seq_len,
            rows * total == size,
            rows <= size,
            y0.len() == size,
            y.shape == old(y).shape,
            y.data@.len() == size,
            forall|r: int|
                0 <= r < b * seq_len ==> softmax_row::<T, A>(
                    row(y0, total as int, r),
                    visible(seq_len as int, total as int, r),
                    #[trigger] row(y.data@, total as int, r),
                ),
            forall|r: int|
                b * seq_len <= r < rows ==> #[trigger] row(y.data@, total as int, r) == row(
                    y0,
                    total as int,
                    r,
                ),
    {
        for i in 0..seq_len
            invariant
                b < batch,
                0 < seq_len <= total,
                rows == batch * seq_len,
                rows * total == size,
                rows <= size,
                y0.len() == size,
                y.shape == old(y).shape,
                y.data@.len() == size,
                forall|r: int|
                    0 <= r < b * seq_len + i ==> softmax_row::<T, A>(
                        row(y0, total as int, r),
                        visible(seq_len as int, total as int, r),
                        #[trigger] row(y.data@, total as int, r),
                    ),
                forall|r: int|
                    b * seq_len + i <= r < rows ==> #[trigger] row(y.data@, total as int, r) == row(
                        y0,
                        total as int,
                        r,
                    ),
        {
            proof {
                lemma_flat_bound(batch as int, seq_len as int, b as int, i as int);
                lemma_row_bound(rows as int, total as int, b * seq_len + i);
                vstd::arithmetic::div_mod::lemma_fundamental_div_mod_converse(
                    b * seq_len + i,
                    seq_len as int,
                    b as int,
                    i as int,
                );
            }
            let r = b * seq_len + i;
            let boundary = total - seq_len + i + 1;
            assert(row(y.data@, total as int, r as int) == row(y0, total as int, r as int));
            let values = softmax_of::<T, A>(&y.data, r * total, total, boundary);
            set_row(&mut y.data, rows, total, r, &values);
        }
        assert((b + 1) * seq_len == b * seq_len + seq_len) by (nonlinear_arith);
    }
}

/// `f` can be the root of the mean square of `x`, shifted by `epsilon`:
/// `sqrt(sum(x^2) / len + epsilon)`.
pub open spec fn is_norm<T, A: Arithmetic<T>>(x: Seq<T>, epsilon: T, f: T) -> bool {
    exists|q: T, n: T, m: T, t: T| #[trigger]
        is_dot::<T, A>(x, x, q) && #[trigger] is_number::<T, A>(x.len() as usize, n)
            && #[trigger] over::<T, A>(q, n, m) && #[trigger] plus::<T, A>(m, epsilon, t)
            && is_sqrt::<T, A>(t, f)
}

/// `y` can be `w * x / f`.
pub open spec fn is_scaled<T, A: Arithmetic<T>>(w: T, x: T, f: T, y: T) -> bool {
    exists|p: T| #[trigger] times::<T, A>(w, x, p) && over::<T, A>(p, f, y)
}

/// `y` can be the row `x` divided by its norm and weighted by `w`.
pub open spec fn normed_row<T, A: Arithmetic<T>>(
    x: Seq<T>,
    w: Seq<T>,
    epsilon: T,
    y: Seq<T>,
) -> bool {
    &&& y.len() == x.len()
    &&& exists|f: T| #[trigger]
        is_norm::<T, A>(x, epsilon, f) && forall|j: int|
            0 <= j < x.len() ==> is_scaled::<T, A>(w[j], x[j], f, #[trigger] y[j])
}

/// `y` can be `x`, rows of length `n`, after the root-mean-square normalization of each row.
pub open spec fn normed<T, A: Arithmetic<T>>(
    x: Seq<T>,
    w: Seq<T>,
    n: int,
    epsilon: T,
    y: Seq<T>,
) -> bool {
    &&& y.len() == x.len()
    &&& forall|b: int|
        0 <= b < x.len() as int / n ==> normed_row::<T, A>(
            row(x, n, b),
            w,
            epsilon,
            #[trigger] row(y, n, b),
        )
}

/// The row of length `n` of `x` that starts at `offset`, divided by its norm and weighted by `w`.
fn norm_row<T: Copy, A: Arithmetic<T>>(
    x: &Vec<T>,
    offset: usize,
    n: usize,
    w: &Vec<T>,
    epsilon: T,
) -> (y: Vec<T>)
    requires
        offset + n <= x@.len(),
        w@.len() == n,
    ensures
        normed_row::<T, A>(x@.subrange(offset as int, offset + n), w@, epsilon, y@),
{
    let size = x.len();
    let ghost xs = x@.subrange(offset as int, offset + n);
    let mut sum = A::zero();
    assert(is_dot::<T, A>(xs.take(0), xs.take(0), sum));
    for j in 0..n
        invariant
            size == x@.len(),
            offset + n <= size,
            xs == x@.subrange(offset as int, offset + n),
            is_dot::<T, A>(xs.take(j as int), xs.take(j as int), sum),
    {
        let value = x[offset + j];
        let square = A::times(value, value);
        let s = A::plus(sum, square);
        proof {
            lemma_dot_step::<T, A>(xs, xs, j as int, sum, square, s);
        }
        sum = s;
    }
    assert(xs.take(n as int) =~= xs);
    let count = A::from_usize(n);
    let mean = A::over(sum, count);
    let shifted = A::plus(mean, epsilon);
    let factor = A::sqrt(shifted);
    assert(is_norm::<T, A>(xs, epsilon, factor)) by {
        assert(is_dot::<T, A>(xs, xs, sum));
        assert(is_number::<T, A>(n, count));
        assert(over::<T, A>(sum, count, mean));
        assert(plus::<T, A>(mean, epsilon, shifted));
    }
    let mut y: Vec<T> = Vec::with_capacity(n);
    for j in 0..n
        invariant
            size == x@.len(),
            offset + n <= size,
            xs == x@.subrange(offset as int, offset + n),
            w@.len() == n,
            y@.len() == j,
            forall|k: int| 0 <= k < j ==> is_scaled::<T, A>(w@[k], xs[k], factor, #[trigger] y@[k]),
    {
        let p = A::times(w[j], x[offset + j]);
        let q = A::over(p, factor);
        assert(times::<T, A>(w@[j as int], xs[j as int], p));
        y.push(q);
    }
    y
}

/// The number of entries is that of the rows times the number of rows.
proof fn lemma_entries_rows(shape: Seq<usize>)
    requires
        shape.len() >= 1,
        shape.last() > 0,
    ensures
        (entries(shape) as int / shape.last() as int) * shape.last() == entries(shape),
{
    let b = entries(shape.drop_last()) as int;
    let n = shape.last() as int;
    assert(entries(shape) == b * n);
    assert(b * n == n * b) by (nonlinear_arith);
    vstd::arithmetic::div_mod::lemma_div_multiples_vanish(b, n);
}

/// Root-mean-square normalization of the rows of `x`, with the weights `w`.
pub fn rms_norm<T: Copy, A: Arithmetic<T>>(
    y: &mut Tensor<T>,
    x: &Tensor<T>,
    w: &Tensor<T>,
    epsilon: T,
)
    requires
        x.wf(),
        x.shape@.len() >= 1,
        x.shape@.last() > 0,
        old(y).data@.len() == x.data@.len(),
        w.data@.len() == x.shape@.last(),
    ensures
        final(y).shape == old(y).shape,
        normed::<T, A>(x.data@, w.data@, x.shape@.last() as int, epsilon, final(y).data@),
{
    let n = x.shape[x.shape.len() - 1];
    let total = x.size();
    let batch = total / n;
    proof {
        lemma_entries_rows(x.shape@);
    }
    for b in 0..batch
        invariant
            n == x.shape@.last(),
            n > 0,
            total == x.data@.len(),
            batch * n == total,
            w.data@.len() == n,
            y.shape == old(y).shape,
            y.data@.len() == total,
            forall|k: int|
                0 <= k < b ==> normed_row::<T, A>(
                    row(x.data@, n as int, k),
                    w.data@,
                    epsilon,
                    #[trigger] row(y.data@, n as int, k),
                ),
    {
        proof {
            lemma_row_bound(batch as int, n as int, b as int);
        }
        let values = norm_row::<T, A>(&x.data, b * n, n, &w.data, epsilon);
        set_row(&mut y.data, batch, n, b, &values);
    }
}

/// `y1` can be `silu(x) * y0`, with `silu(x) = x * (1 / (1 + exp(-x)))`.
pub open spec fn gated_by<T, A: Arithmetic<T>>(y0: T, x: T, y1: T) -> bool {
    exists|o: T, n: T, e: T, t: T, g: T, s: T|
        is_one::<T, A>(o) && #[trigger] negated::<T, A>(x, n) && #[trigger] is_exp::<T, A>(n, e)
            && #[trigger] plus::<T, A>(o, e, t) && #[trigger] over::<T, A>(o, t, g)
            && #[trigger] times::<T, A>(x, g, s) && times::<T, A>(y0, s, y1)
}

/// `y1` can be `silu(x) * y0`, entry by entry.
pub open spec fn gated<T, A: Arithmetic<T>>(y0: Seq<T>, x: Seq<T>, y1: Seq<T>) -> bool {
    &&& y1.len() == y0.len()
    &&& forall|i: int| 0 <= i < y0.len() ==> gated_by::<T, A>(y0[i], x[i], #[trigger] y1[i])
}

fn gate<T: Copy, A: Arithmetic<T>>(y: T, x: T) -> (r: T)
    ensures
        gated_by::<T, A>(y, x, r),
{
    let one = A::one();
    let n = A::negate(x);
    let e = A::exp(n);
    let t = A::plus(one, e);
    let sigmoid = A::over(one, t);
    let silu = A::times(x, sigmoid);
    assert(negated::<T, A>(x, n));
    assert(is_exp::<T, A>(n, e));
    assert(plus::<T, A>(one, e, t));
    assert(over::<T, A>(one, t, sigmoid));
    assert(times::<T, A>(x, sigmoid, silu));
    A::times(y, silu)
}

/// `y = silu(x) * y`, entry by entry.
pub fn swiglu<T: Copy, A: Arithmetic<T>>(y: &mut Tensor<T>, x: &Tensor<T>)
    requires
        old(y).data@.len() == x.data@.len(),
    ensures
        final(y).shape == old(y).shape,
        gated::<T, A>(old(y).data@, x.data@, final(y).data@),
{
    let len = y.size();
    let ghost y0 = y.data@;
    for i in 0..len
        invariant
            len == y0.len(),
            x.data@.len() == len,
            y.shape == old(y).shape,
            y.data@.len() == len,
            forall|k: int|
                0 <= k < i ==> gated_by::<T, A>(y0[k], x.data@[k], #[trigger] y.data@[k]),
            forall|k: int| i <= k < len ==> y.data@[k] == y0[k],
    {
        let value = gate::<T, A>(y.data[i], x.data[i]);
        y.data.set(i, value);
    }
}

/// `c1` can be `beta * c0 + alpha * (a . b)`, where `b` is converted first.
pub open spec fn product_entry<U, T, A: Arithmetic<T> + Widen<U, T>>(
    c0: T,
    beta: T,
    a: Seq<T>,
    b: Seq<U>,
    alpha: T,
    c1: T,
) -> bool {
    exists|w: Seq<T>, s: T, u: T, v: T|
        widened::<U, T, A>(b, w) && #[trigger] is_dot::<T, A>(a, w, s) && #[trigger] times::<T, A>(
            beta,
            c0,
            u,
        ) && #[trigger] times::<T, A>(alpha, s, v) && plus::<T, A>(u, v, c1)
}

/// `c1` can be `beta * c0 + alpha * a @ b^T`, where `a` is `m` by `k`, `b` is `n` by `k` and `c0`
/// is `m` by `n`.
pub open spec fn multiplied<U, T, A: Arithmetic<T> + Widen<U, T>>(
    c0: Seq<T>,
    beta: T,
    a: Seq<T>,
    b: Seq<U>,
    alpha: T,
    m: int,
    k: int,
    n: int,
    c1: Seq<T>,
) -> bool {
    &&& c1.len() == c0.len()
    &&& forall|i: int, j: int|
        0 <= i < m && 0 <= j < n ==> product_entry::<U, T, A>(
            at(c0, n, i, j),
            beta,
            row(a, k, i),
            row(b, k, j),
            alpha,
            #[trigger] at(c1, n, i, j),
        )
}

/// `beta * c + alpha * (a . b)` for a row of `a` and a row of `b`, both of length `k`.
fn entry_of_product<U: Copy, T: Copy, A: Arithmetic<T> + Widen<U, T>>(
    c: T,
    beta: T,
    a: &Vec<T>,
    a_start: usize,
    b: &Vec<U>,
    b_start: usize,
    k: usize,
    alpha: T,
) -> (r: T)
    requires
        a_start + k <= a@.len(),
        b_start + k <= b@.len(),
    ensures
        product_entry::<U, T, A>(
            c,
            beta,
            a@.subrange(a_start as int, a_start + k),
            b@.subrange(b_start as int, b_start + k),
            alpha,
            r,
        ),
{
    let a_size = a.len();
    let b_size = b.len();
    let ghost xs = a@.subrange(a_start as int, a_start + k);
    let ghost us = b@.subrange(b_start as int, b_start + k);
    let ghost mut ws: Seq<T> = Seq::empty();
    let mut sum = A::zero();
    assert(is_dot::<T, A>(xs.take(0), ws, sum));
    for p in 0..k
        invariant
            a_size == a@.len(),
            b_size == b@.len(),
            a_start + k <= a_size,
            b_start + k <= b_size,
            xs == a@.subrange(a_start as int, a_start + k),
            us == b@.subrange(b_start as int, b_start + k),
            ws.len() == p,
            forall|q: int| 0 <= q < p ==> widens::<U, T, A>(us[q], #[trigger] ws[q]),
            is_dot::<T, A>(xs.take(p as int), ws, sum),
    {
        let w = A::widen(b[b_start + p]);
        let m = A::times(a[a_start + p], w);
        let s = A::plus(sum, m);
        proof {
            let before = ws;
            ws = ws.push(w);
            assert(ws.take(p as int) =~= before);
            lemma_dot_step::<T, A>(xs, ws, p as int, sum, m, s);
            assert(ws.take(p + 1) =~= ws);
        }
        sum = s;
    }
    assert(xs.take(k as int) =~= xs);
    let u = A::times(beta, c);
    let v = A::times(alpha, sum);
    assert(is_dot::<T, A>(xs, ws, sum));
    assert(times::<T, A>(beta, c, u));
    assert(times::<T, A>(alpha, sum, v));
    A::plus(u, v)
}

/// `c = beta * c + alpha * a @ b^T`
pub fn matmul_transb<U: Copy, T: Copy, A: Arithmetic<T> + Widen<U, T>>(
    c: &mut Tensor<T>,
    beta: T,
    a: &Tensor<T>,
    b: &Tensor<U>,
    alpha: T,
)
    requires
        a.wf(),
        b.wf(),
        old(c).wf(),
        a.shape@.len() == 2,
        b.shape@.len() == 2,
        b.shape@[1] == a.shape@[1],
        old(c).shape@ == seq![a.shape@[0], b.shape@[0]],
    ensures
        final(c).shape == old(c).shape,
        multiplied::<U, T, A>(
            old(c).data@,
            beta,
            a.data@,
            b.data@,
            alpha,
            a.shape@[0] as int,
            a.shape@[1] as int,
            b.shape@[0] as int,
            final(c).data@,
        ),
{
    let m = a.shape[0];
    let k = a.shape[1];
    let n = b.shape[0];
    let a_size = a.size();
    let b_size = b.size();
    let c_size = c.size();
    let ghost c0 = c.data@;
    proof {
        lemma_entries_2(m, k);
        lemma_entries_2(n, k);
        lemma_entries_2(m, n);
        assert(a.shape@ =~= seq![m, k]);
        assert(b.shape@ =~= seq![n, k]);
        assert(c.shape@ =~= seq![m, n]);
    }
    for i in 0..m
        invariant
            a_size == a.data@.len(),
            b_size == b.data@.len(),
            c_size == c0.len(),
            a_size == m * k,
            b_size == n * k,
            c_size == m * n,
            c.shape == old(c).shape,
            c.data@.len() == c_size,
            forall|i2: int, j2: int|
                0 <= i2 < i && 0 <= j2 < n ==> product_entry::<U, T, A>(
                    at(c0, n as int, i2, j2),
                    beta,
                    row(a.data@, k as int, i2),
                    row(b.data@, k as int, j2),
                    alpha,
                    #[trigger] at(c.data@, n as int, i2, j2),
                ),
            forall|i2: int, j2: int|
                i <= i2 < m && 0 <= j2 < n ==> #[trigger] at(c.data@, n as int, i2, j2) == at(
                    c0,
                    n as int,
                    i2,
                    j2,
                ),
    {
        for j in 0..n
            invariant
                i < m,
                a_size == a.data@.len(),
                b_size == b.data@.len(),
                c_size == c0.len(),
                a_size == m * k,
                b_size == n * k,
                c_size == m * n,
                c.shape == old(c).shape,
                c.data@.len() == c_size,
                forall|i2: int, j2: int|
                    0 <= i2 < m && 0 <= j2 < n && (i2 < i || (i2 == i && j2 < j))
                        ==> product_entry::<U, T, A>(
                        at(c0, n as int, i2, j2),
                        beta,
                        row(a.data@, k as int, i2),
                        row(b.data@, k as int, j2),
                        alpha,
                        #[trigger] at(c.data@, n as int, i2, j2),
                    ),
                forall|i2: int, j2: int|
                    0 <= i2 < m && 0 <= j2 < n && (i2 > i || (i2 == i && j2 >= j))
                        ==> #[trigger] at(c.data@, n as int, i2, j2) == at(
                        c0,
                        n as int,
                        i2,
                        j2,
                    ),
        {
            proof {
                lemma_row_bound(m as int, k as int, i as int);
                lemma_row_bound(n as int, k as int, j as int);
                lemma_flat_bound(m as int, n as int, i as int, j as int);
                assert(at(c.data@, n as int, i as int, j as int) == at(
                    c0,
                    n as int,
                    i as int,
                    j as int,
                ));
            }
            let value = entry_of_product::<U, T, A>(
                c.data[i * n + j],
                beta,
                &a.data,
                i * k,
                &b.data,
                j * k,
                k,
                alpha,
            );
            proof {
                lemma_set_at(c.data@, m as int, n as int, i as int, j as int, value);
            }
            c.data.set(i * n + j, value);
        }
    }
}

/// The sum of the products of the entries of `x` and `y`.
pub fn dot<T: Copy, A: Arithmetic<T>>(x: &Tensor<T>, y: &Tensor<T>) -> (s: T)
    requires
        x.data@.len() == y.data@.len(),
    ensures
        is_dot::<T, A>(x.data@, y.data@, s),
{
    let len = x.size();
    let mut sum = A::zero();
    assert(is_dot::<T, A>(x.data@.take(0), y.data@.take(0), sum));
    for i in 0..len
        invariant
            len == x.data@.len(),
            len == y.data@.len(),
            is_dot::<T, A>(x.data@.take(i as int), y.data@.take(i as int), sum),
    {
        let m = A::times(x.data[i], y.data[i]);
        let s = A::plus(sum, m);
        proof {
            lemma_dot_step::<T, A>(x.data@, y.data@, i as int, sum, m, s);
        }
        sum = s;
    }
    assert(x.data@.take(len as int) =~= x.data@);
    assert(y.data@.take(len as int) =~= y.data@);
    sum
}

/// `y1` can be `y0 + x`, entry by entry.
pub open spec fn added<T, A: Arithmetic<T>>(y0: Seq<T>, x: Seq<T>, y1: Seq<T>) -> bool {
    &&& y1.len() == y0.len()
    &&& forall|i: int| 0 <= i < y0.len() ==> plus::<T, A>(y0[i], x[i], #[trigger] y1[i])
}

/// `y = y + x`, entry by entry.
pub fn accumulate<T: Copy, A: Arithmetic<T>>(y: &mut Tensor<T>, x: &Tensor<T>)
    requires
        old(y).data@.len() <= x.data@.len(),
    ensures
        final(y).shape == old(y).shape,
        added::<T, A>(old(y).data@, x.data@, final(y).data@),
{
    let len = y.size();
    let ghost y0 = y.data@;
    for i in 0..len
        invariant
            len == y0.len(),
            x.data@.len() >= len,
            y.shape == old(y).shape,
            y.data@.len() == len,
            forall|k: int| 0 <= k < i ==> plus::<T, A>(y0[k], x.data@[k], #[trigger] y.data@[k]),
            forall|k: int| i <= k < len ==> y.data@[k] == y0[k],
    {
        let value = A::plus(y.data[i], x.data[i]);
        y.data.set(i, value);
    }
}

} // verus!
