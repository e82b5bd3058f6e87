//! What the operators compute, as formulas over the entries that go in and come out.
//!
//! The formulas are written with functions that give the results of the scalar operations, and
//! with the places of the entries in row-major order.

use crate::arith::{
    is_dot, is_larger, is_largest, is_number, is_power, is_sqrt, is_sum, over, plus, times,
    widened, widens, Arithmetic, Widen,
};
use crate::attention::{
    attended, head_entries, head_vector, is_scale, is_score, mixed_row, score_row, scored, Heads,
};
use crate::causality::{lemma_output_place, lemma_score_place};
use crate::determined::{determined, lemma_row_count};
use crate::layout::{at, lemma_flat_bound, lemma_row_bound, row};
use crate::operators::{
    added, are_exps_of_differences, gated, gated_by, gathered, is_angle, is_exp_of_difference,
    is_norm, is_scaled, multiplied, normed, normed_row, pair_rotated, product_entry, rotated,
    softmax_row, softmaxed, turned,
};
use vstd::arithmetic::div_mod::lemma_fundamental_div_mod_converse;
use vstd::prelude::*;

verus! {

/// Functions that give the results of the scalar operations.
#[verifier::reject_recursive_types(T)]
pub struct Ops<T> {
    pub zero: T,
    pub one: T,
    pub plus: spec_fn(T, T) -> T,
    pub minus: spec_fn(T, T) -> T,
    pub times: spec_fn(T, T) -> T,
    pub over: spec_fn(T, T) -> T,
    pub negate: spec_fn(T) -> T,
    pub exp: spec_fn(T) -> T,
    pub sqrt: spec_fn(T) -> T,
    pub power: spec_fn(T, T) -> T,
    pub sine: spec_fn(T) -> T,
    pub cosine: spec_fn(T) -> T,
    pub larger: spec_fn(T, T) -> T,
    pub smaller: spec_fn(T, T) -> T,
    pub number: spec_fn(usize) -> T,
    pub code: spec_fn(T) -> u32,
}

/// The operations give what the functions give.
pub open spec fn computed_by<T, A: Arithmetic<T>>(f: Ops<T>) -> bool {
    &&& forall|r: T| #[trigger] call_ensures(A::zero, (), r) ==> r == f.zero
    &&& forall|r: T| #[trigger] call_ensures(A::one, (), r) ==> r == f.one
    &&& forall|a: T, b: T, r: T| #[trigger]
        call_ensures(A::plus, (a, b), r) ==> r == (f.plus)(a, b)
    &&& forall|a: T, b: T, r: T| #[trigger]
        call_ensures(A::minus, (a, b), r) ==> r == (f.minus)(a, b)
    &&& forall|a: T, b: T, r: T| #[trigger]
        call_ensures(A::times, (a, b), r) ==> r == (f.times)(a, b)
    &&& forall|a: T, b: T, r: T| #[trigger]
        call_ensures(A::over, (a, b), r) ==> r == (f.over)(a, b)
    &&& forall|a: T, r: T| #[trigger] call_ensures(A::negate, (a,), r) ==> r == (f.negate)(a)
    &&& forall|a: T, r: T| #[trigger] call_ensures(A::exp, (a,), r) ==> r == (f.exp)(a)
    &&& forall|a: T, r: T| #[trigger] call_ensures(A::sqrt, (a,), r) ==> r == (f.sqrt)(a)
    &&& forall|a: T, b: T, r: T| #[trigger]
        call_ensures(A::powf, (a, b), r) ==> r == (f.power)(a, b)
    &&& forall|a: T, s: T, c: T| #[trigger]
        call_ensures(A::sin_cos, (a,), (s, c)) ==> s == (f.sine)(a) && c == (f.cosine)(a)
    &&& forall|a: T, b: T, r: T| #[trigger]
        call_ensures(A::larger, (a, b), r) ==> r == (f.larger)(a, b)
    &&& forall|a: T, b: T, r: T| #[trigger]
        call_ensures(A::smaller, (a, b), r) ==> r == (f.smaller)(a, b)
    &&& forall|n: usize, r: T| #[trigger]
        call_ensures(A::from_usize, (n,), r) ==> r == (f.number)(n)
    &&& forall|a: T, c: u32| #[trigger] call_ensures(A::to_bits, (a,), c) ==> c == (f.code)(a)
}

/// The conversion gives what the function gives.
pub open spec fn widened_by<U, T, A: Widen<U, T>>(w: spec_fn(U) -> T) -> bool {
    forall|u: U, r: T| #[trigger] call_ensures(A::widen, (u,), r) ==> r == w(u)
}

/// `term(0) + term(1) + ... + term(n - 1)`, added up from the left, starting at 0.
pub open spec fn total<T>(f: Ops<T>, n: int, term: spec_fn(int) -> T) -> T
    decreases n,
{
    if n <= 0 {
        f.zero
    } else {
        (f.plus)(total(f, n - 1, term), term(n - 1))
    }
}

/// The largest of `first` and `term(0)`, ..., `term(n - 1)`, taken in from the left.
pub open spec fn most<T>(f: Ops<T>, first: T, n: int, term: spec_fn(int) -> T) -> T
    decreases n,
{
    if n <= 0 {
        first
    } else {
        (f.larger)(most(f, first, n - 1, term), term(n - 1))
    }
}

/// A sum of no terms is 0, and each further term is added at the end.
pub proof fn law_total_adds_each_term<T>(f: Ops<T>, n: int, term: spec_fn(int) -> T)
    requires
        0 <= n,
    ensures
        total(f, 0, term) == f.zero,
        total(f, n + 1, term) == (f.plus)(total(f, n, term), term(n)),
{
}

/// The largest of no terms is the first value, and each further term is compared at the end.
pub proof fn law_most_compares_each_term<T>(f: Ops<T>, first: T, n: int, term: spec_fn(int) -> T)
    requires
        0 <= n,
    ensures
        most(f, first, 0, term) == first,
        most(f, first, n + 1, term) == (f.larger)(most(f, first, n, term), term(n)),
{
}

proof fn lemma_total_same<T>(
    f: Ops<T>,
    n: int,
    t1: spec_fn(int) -> T,
    t2: spec_fn(int) -> T,
)
    requires
        forall|i: int| 0 <= i < n ==> #[trigger] t1(i) == t2(i),
    ensures
        total(f, n, t1) == total(f, n, t2),
    decreases n,
{
    if n > 0 {
        lemma_total_same(f, n - 1, t1, t2);
        assert(t1(n - 1) == t2(n - 1));
    }
}

proof fn lemma_most_same<T>(
    f: Ops<T>,
    first: T,
    n: int,
    t1: spec_fn(int) -> T,
    t2: spec_fn(int) -> T,
)
    requires
        forall|i: int| 0 <= i < n ==> #[trigger] t1(i) == t2(i),
    ensures
        most(f, first, n, t1) == most(f, first, n, t2),
    decreases n,
{
    if n > 0 {
        lemma_most_same(f, first, n - 1, t1, t2);
        assert(t1(n - 1) == t2(n - 1));
    }
}

proof fn lemma_sum_total<T, A: Arithmetic<T>>(f: Ops<T>, x: Seq<T>, s: T)
    requires
        computed_by::<T, A>(f),
        is_sum::<T, A>(x, s),
    ensures
        s == total(f, x.len() as int, |p: int| x[p]),
    decreases x.len(),
{
    if x.len() > 0 {
        let y = x.drop_last();
        let t = choose|t: T| is_sum::<T, A>(y, t) && #[trigger] plus::<T, A>(t, x.last(), s);
        lemma_sum_total::<T, A>(f, y, t);
        lemma_total_same(f, y.len() as int, |p: int| y[p], |p: int| x[p]);
    }
}

proof fn lemma_largest_most<T, A: Arithmetic<T>>(f: Ops<T>, first: T, x: Seq<T>, m: T)
    requires
        computed_by::<T, A>(f),
        is_largest::<T, A>(first, x, m),
    ensures
        m == most(f, first, x.len() as int, |p: int| x[p]),
    decreases x.len(),
{
    if x.len() > 0 {
        let y = x.drop_last();
        let t = choose|t: T|
            is_largest::<T, A>(first, y, t) && #[trigger] is_larger::<T, A>(t, x.last(), m);
        lemma_largest_most::<T, A>(f, first, y, t);
        lemma_most_same(f, first, y.len() as int, |p: int| y[p], |p: int| x[p]);
    }
}

/// The dot product is the sum of the products of the entries.
pub proof fn law_dot_is_the_sum_of_products<T, A: Arithmetic<T>>(
    f: Ops<T>,
    x: Seq<T>,
    y: Seq<T>,
    s: T,
)
    requires
        computed_by::<T, A>(f),
        x.len() == y.len(),
        is_dot::<T, A>(x, y, s),
    ensures
        s == total(f, x.len() as int, |p: int| (f.times)(x[p], y[p])),
    decreases x.len(),
{
    if x.len() > 0 {
        let x1 = x.drop_last();
        let y1 = y.drop_last();
        let (t, m) = choose|t: T, m: T|
            is_dot::<T, A>(x1, y1, t) && #[trigger] times::<T, A>(x.last(), y.last(), m)
                && #[trigger] plus::<T, A>(t, m, s);
        law_dot_is_the_sum_of_products::<T, A>(f, x1, y1, t);
        lemma_total_same(
            f,
            x1.len() as int,
            |p: int| (f.times)(x1[p], y1[p]),
            |p: int| (f.times)(x[p], y[p]),
        );
    }
}

/// Entry `(i, j)` of `beta * c + alpha * a @ b^T`.
pub proof fn law_product_formula<U, T, A: Arithmetic<T> + Widen<U, T>>(
    f: Ops<T>,
    w: spec_fn(U) -> T,
    c0: Seq<T>,
    beta: T,
    a: Seq<T>,
    b: Seq<U>,
    alpha: T,
    m: int,
    k: int,
    n: int,
    c1: Seq<T>,
    i: int,
    j: int,
)
    requires
        computed_by::<T, A>(f),
        widened_by::<U, T, A>(w),
        0 <= k,
        0 <= i < m,
        0 <= j < n,
        a.len() == m * k,
        b.len() == n * k,
        c0.len() == m * n,
        multiplied::<U, T, A>(c0, beta, a, b, alpha, m, k, n, c1),
    ensures
        c1.len() == m * n,
        c1[i * n + j] == (f.plus)(
            (f.times)(beta, c0[i * n + j]),
            (f.times)(
                alpha,
                total(f, k, |p: int| (f.times)(a[i * k + p], w(b[j * k + p]))),
            ),
        ),
{
    lemma_row_bound(m, k, i);
    lemma_row_bound(n, k, j);
    lemma_flat_bound(m, n, i, j);
    let ar = row(a, k, i);
    let br = row(b, k, j);
    assert(product_entry::<U, T, A>(at(c0, n, i, j), beta, ar, br, alpha, at(c1, n, i, j)));
    let (ws, s, u, v) = choose|ws: Seq<T>, s: T, u: T, v: T|
        widened::<U, T, A>(br, ws) && #[trigger] is_dot::<T, A>(ar, ws, s)
            && #[trigger] times::<T, A>(beta, at(c0, n, i, j), u) && #[trigger] times::<T, A>(
            alpha,
            s,
            v,
        ) && plus::<T, A>(u, v, at(c1, n, i, j));
    law_dot_is_the_sum_of_products::<T, A>(f, ar, ws, s);
    let t1 = |p: int| (f.times)(ar[p], ws[p]);
    let t2 = |p: int| (f.times)(a[i * k + p], w(b[j * k + p]));
    assert forall|p: int| 0 <= p < k implies #[trigger] t1(p) == t2(p) by {
        assert(widens::<U, T, A>(br[p], ws[p]));
    }
    lemma_total_same(f, k, t1, t2);
}

/// Entry `j` of row `i` of what is gathered is entry `j` of the row of the table that index `i`
/// names.
pub proof fn law_gather_formula<U, T, A: Widen<U, T>>(
    w: spec_fn(U) -> T,
    indices: Seq<u32>,
    table: Seq<U>,
    dim: int,
    y: Seq<T>,
    i: int,
    j: int,
)
    requires
        widened_by::<U, T, A>(w),
        gathered::<U, T, A>(indices, table, dim, y),
        0 <= i < indices.len(),
        0 <= j < dim,
    ensures
        y.len() == indices.len() * dim,
        y[i * dim + j] == w(table[indices[i] * dim + j]),
{
    assert(widens::<U, T, A>(at(table, dim, indices[i] as int, j), at(y, dim, i, j)));
}

/// Rotary position embedding: entries `i` and `i + d / 2` of the vector of head `head` of token
/// `tok` are turned by `(start + tok) / theta^(2 i / d)`.
pub proof fn law_rotation_formula<T, A: Arithmetic<T>>(
    f: Ops<T>,
    y0: Seq<T>,
    seq_len: int,
    n_heads: int,
    d: usize,
    start: int,
    theta: T,
    y1: Seq<T>,
    tok: int,
    head: int,
    i: int,
)
    requires
        computed_by::<T, A>(f),
        0 <= start,
        start + seq_len <= usize::MAX + 1,
        0 <= tok < seq_len,
        0 <= head < n_heads,
        0 <= i < d / 2,
        y0.len() == seq_len * n_heads * d,
        rotated::<T, A>(y0, seq_len * n_heads, n_heads, d, start, theta, y1),
    ensures
        ({
            let first = tok * n_heads * d + head * d + i;
            let second = first + d / 2;
            let a = y0[first];
            let b = y0[second];
            let angle = (f.over)(
                (f.number)((start + tok) as usize),
                (f.power)(theta, (f.over)((f.number)((2 * i) as usize), (f.number)(d))),
            );
            &&& y1[first] == (f.minus)(
                (f.times)(a, (f.cosine)(angle)),
                (f.times)(b, (f.sine)(angle)),
            )
            &&& y1[second] == (f.plus)(
                (f.times)(b, (f.cosine)(angle)),
                (f.times)(a, (f.sine)(angle)),
            )
        }),
{
    let r = tok * n_heads + head;
    let n = d as int;
    lemma_flat_bound(seq_len, n_heads, tok, head);
    lemma_fundamental_div_mod_converse(r, n_heads, tok, head);
    assert(tok * n_heads * n + head * n == r * n) by (nonlinear_arith)
        requires
            r == tok * n_heads + head,
    ;
    let a = at(y0, n, r, i);
    let b = at(y0, n, r, i + d / 2);
    let a1 = at(y1, n, r, i);
    let b1 = at(y1, n, r, i + d / 2);
    assert(pair_rotated::<T, A>((start + tok) as usize, i as usize, d, theta, a, b, a1, b1));
    let g = choose|g: T| #[trigger]
        is_angle::<T, A>((start + tok) as usize, i as usize, d, theta, g) && turned::<T, A>(
            g,
            a,
            b,
            a1,
            b1,
        );
    assert(i * 2 == 2 * i);
}

/// Rotary position embedding leaves the last entry of a vector of odd length as it is.
pub proof fn law_rotation_leaves_the_odd_entry<T, A: Arithmetic<T>>(
    y0: Seq<T>,
    seq_len: int,
    n_heads: int,
    d: usize,
    start: int,
    theta: T,
    y1: Seq<T>,
    tok: int,
    head: int,
)
    requires
        0 <= tok < seq_len,
        0 <= head < n_heads,
        d % 2 == 1,
        y0.len() == seq_len * n_heads * d,
        rotated::<T, A>(y0, seq_len * n_heads, n_heads, d, start, theta, y1),
    ensures
        y1.len() == y0.len(),
        y1[tok * n_heads * d + head * d + d - 1] == y0[tok * n_heads * d + head * d + d - 1],
{
    let r = tok * n_heads + head;
    let n = d as int;
    lemma_flat_bound(seq_len, n_heads, tok, head);
    assert(tok * n_heads * n + head * n == r * n) by (nonlinear_arith)
        requires
            r == tok * n_heads + head,
    ;
    assert(at(y1, n, r, n - 1) == at(y0, n, r, n - 1));
}

/// Equal fractions are equal: `2 i / d` is `4 i / (2 d)`.
pub open spec fn fraction_is_reduced<T, A: Arithmetic<T>>(i: usize, d: usize) -> bool {
    forall|n1: T, m1: T, e1: T, n2: T, m2: T, e2: T| #[trigger]
        is_number::<T, A>((2 * i) as usize, n1) && #[trigger] is_number::<T, A>(d, m1)
            && #[trigger] over::<T, A>(n1, m1, e1) && #[trigger] is_number::<T, A>(
            (4 * i) as usize,
            n2,
        ) && #[trigger] is_number::<T, A>((2 * d) as usize, m2) && #[trigger] over::<T, A>(
            n2,
            m2,
            e2,
        ) ==> e1 == e2
}

/// A pair turns by an angle that depends on its position in the vector as a fraction of the
/// length: pair `i` of a vector of length `d` turns by the same angle as pair `2 i` of a vector of
/// length `2 d`.
pub proof fn law_angle_depends_on_the_fraction<T, A: Arithmetic<T>>(
    pos: usize,
    i: usize,
    d: usize,
    theta: T,
    f1: T,
    f2: T,
)
    requires
        determined::<T, A>(),
        4 * i <= usize::MAX,
        2 * d <= usize::MAX,
        fraction_is_reduced::<T, A>(i, d),
        is_angle::<T, A>(pos, i, d, theta, f1),
        is_angle::<T, A>(pos, (2 * i) as usize, (2 * d) as usize, theta, f2),
    ensures
        f1 == f2,
{
    let j = (2 * i) as usize;
    let (p1, n1, m1, e1, w1) = choose|p: T, n: T, m: T, e: T, w: T| #[trigger]
        is_number::<T, A>(pos, p) && #[trigger] is_number::<T, A>((i * 2) as usize, n)
            && #[trigger] is_number::<T, A>(d, m) && #[trigger] over::<T, A>(n, m, e)
            && #[trigger] is_power::<T, A>(theta, e, w) && over::<T, A>(p, w, f1);
    let (p2, n2, m2, e2, w2) = choose|p: T, n: T, m: T, e: T, w: T| #[trigger]
        is_number::<T, A>(pos, p) && #[trigger] is_number::<T, A>((j * 2) as usize, n)
            && #[trigger] is_number::<T, A>((2 * d) as usize, m) && #[trigger] over::<T, A>(
            n,
            m,
            e,
        ) && #[trigger] is_power::<T, A>(theta, e, w) && over::<T, A>(p, w, f2);
    assert(i * 2 == 2 * i && j * 2 == 4 * i);
    assert(e1 == e2);
}

/// Softmax under the causal mask: row `i` of batch `b` sees the first `total - seq_len + i + 1` of
/// its `total` entries, each of which becomes `exp(x - max) / sum(exp(x - max))` over those; the
/// others become 0.
pub proof fn law_softmax_formula<T, A: Arithmetic<T>>(
    f: Ops<T>,
    y0: Seq<T>,
    batch: int,
    seq_len: int,
    all: int,
    y1: Seq<T>,
    b: int,
    i: int,
    j: int,
)
    requires
        computed_by::<T, A>(f),
        1 <= seq_len <= all,
        0 <= b < batch,
        0 <= i < seq_len,
        0 <= j < all,
        y0.len() == batch * seq_len * all,
        softmaxed::<T, A>(y0, batch * seq_len, seq_len, all, y1),
    ensures
        ({
            let offset = b * seq_len * all + i * all;
            let seen = all - seq_len + i + 1;
            let max = most(f, y0[offset], seen, |p: int| y0[offset + p]);
            y1[offset + j] == if j < seen {
                (f.over)(
                    (f.exp)((f.minus)(y0[offset + j], max)),
                    total(f, seen, |p: int| (f.exp)((f.minus)(y0[offset + p], max))),
                )
            } else {
                f.zero
            }
        }),
{
    let r = b * seq_len + i;
    let rows = batch * seq_len;
    lemma_flat_bound(batch, seq_len, b, i);
    lemma_fundamental_div_mod_converse(r, seq_len, b, i);
    lemma_row_bound(rows, all, r);
    let offset = b * seq_len * all + i * all;
    assert(offset == r * all) by (nonlinear_arith)
        requires
            offset == b * seq_len * all + i * all,
            r == b * seq_len + i,
    ;
    let x = row(y0, all, r);
    let y = row(y1, all, r);
    let n = all - seq_len + i + 1;
    assert(softmax_row::<T, A>(x, n, y));
    assert(y[j] == y1[offset + j]);
    let (m, e, s) = choose|m: T, e: Seq<T>, s: T| #[trigger]
        is_largest::<T, A>(x[0], x.take(n), m) && are_exps_of_differences::<T, A>(
            x.take(n),
            m,
            e,
        ) && #[trigger] is_sum::<T, A>(e, s) && forall|k: int|
            0 <= k < n ==> over::<T, A>(e[k], s, #[trigger] y[k]);
    let xs = x.take(n);
    let here = |p: int| y0[offset + p];
    lemma_largest_most::<T, A>(f, x[0], xs, m);
    lemma_most_same(f, x[0], n, |p: int| xs[p], here);
    lemma_sum_total::<T, A>(f, e, s);
    let t2 = |p: int| (f.exp)((f.minus)(y0[offset + p], m));
    let t1 = |p: int| e[p];
    assert forall|p: int| 0 <= p < n implies #[trigger] t1(p) == t2(p) by {
        assert(is_exp_of_difference::<T, A>(xs[p], m, e[p]));
    }
    lemma_total_same(f, n, t1, t2);
    if j < n {
        assert(t1(j) == t2(j));
        assert(over::<T, A>(e[j], s, y[j]));
    }
}

/// Root-mean-square normalization: entry `j` of row `b`.
pub proof fn law_norm_formula<T, A: Arithmetic<T>>(
    f: Ops<T>,
    x: Seq<T>,
    w: Seq<T>,
    rows: int,
    n: int,
    epsilon: T,
    y: Seq<T>,
    b: int,
    j: int,
)
    requires
        computed_by::<T, A>(f),
        0 <= b < rows,
        0 <= j < n <= usize::MAX,
        x.len() == rows * n,
        normed::<T, A>(x, w, n, epsilon, y),
    ensures
        ({
            let squares = total(f, n, |p: int| (f.times)(x[b * n + p], x[b * n + p]));
            let norm = (f.sqrt)(
                (f.plus)((f.over)(squares, (f.number)(n as usize)), epsilon),
            );
            y[b * n + j] == (f.over)((f.times)(w[j], x[b * n + j]), norm)
        }),
{
    lemma_row_count(rows, n);
    lemma_row_bound(rows, n, b);
    let xr = row(x, n, b);
    let yr = row(y, n, b);
    assert(normed_row::<T, A>(xr, w, epsilon, yr));
    let g = choose|g: T| #[trigger]
        is_norm::<T, A>(xr, epsilon, g) && forall|k: int|
            0 <= k < xr.len() ==> is_scaled::<T, A>(w[k], xr[k], g, #[trigger] yr[k]);
    let (q, c, m, t) = choose|q: T, c: T, m: T, t: T| #[trigger]
        is_dot::<T, A>(xr, xr, q) && #[trigger] is_number::<T, A>(xr.len() as usize, c)
            && #[trigger] over::<T, A>(q, c, m) && #[trigger] plus::<T, A>(m, epsilon, t)
            && is_sqrt::<T, A>(t, g);
    law_dot_is_the_sum_of_products::<T, A>(f, xr, xr, q);
    lemma_total_same(
        f,
        n,
        |p: int| (f.times)(xr[p], xr[p]),
        |p: int| (f.times)(x[b * n + p], x[b * n + p]),
    );
    assert(is_scaled::<T, A>(w[j], xr[j], g, yr[j]));
    assert(yr[j] == y[b * n + j]);
}

/// SwiGLU: `y` becomes `y * x / (1 + exp(-x))`, with the quotient computed first.
pub proof fn law_swiglu_formula<T, A: Arithmetic<T>>(
    f: Ops<T>,
    y0: Seq<T>,
    x: Seq<T>,
    y1: Seq<T>,
    i: int,
)
    requires
        computed_by::<T, A>(f),
        gated::<T, A>(y0, x, y1),
        0 <= i < y0.len(),
    ensures
        y1.len() == y0.len(),
        y1[i] == (f.times)(
            y0[i],
            (f.times)(
                x[i],
                (f.over)(f.one, (f.plus)(f.one, (f.exp)((f.negate)(x[i])))),
            ),
        ),
{
    assert(gated_by::<T, A>(y0[i], x[i], y1[i]));
}

/// The residual connection adds entry by entry.
pub proof fn law_residual_formula<T, A: Arithmetic<T>>(
    f: Ops<T>,
    y0: Seq<T>,
    x: Seq<T>,
    y1: Seq<T>,
    i: int,
)
    requires
        computed_by::<T, A>(f),
        added::<T, A>(y0, x, y1),
        0 <= i < y0.len(),
    ensures
        y1.len() == y0.len(),
        y1[i] == (f.plus)(y0[i], x[i]),
{
    assert(plus::<T, A>(y0[i], x[i], y1[i]));
}

/// Grouped-query attention: the output of query head `group` of key head `kv` at new position `i`.
/// The scores are `q . k / sqrt(d)` against all positions, softmax is taken over those that the
/// position sees, and the values are weighted by the result.
pub proof fn law_attention_formula<T, A: Arithmetic<T>>(
    f: Ops<T>,
    dims: Heads,
    q: Seq<T>,
    k: Seq<T>,
    v: Seq<T>,
    att: Seq<T>,
    h0: Seq<T>,
    h1: Seq<T>,
    kv: int,
    group: int,
    i: int,
    j: int,
    p: int,
)
    requires
        computed_by::<T, A>(f),
        dims.valid(),
        dims.dqkv <= usize::MAX,
        dims.seq_len * (dims.n_kv_h * dims.n_groups) * dims.dqkv <= q.len(),
        dims.seq_len * (dims.n_kv_h * dims.n_groups) * dims.dqkv <= h0.len(),
        dims.total * dims.n_kv_h * dims.dqkv <= k.len(),
        dims.total * dims.n_kv_h * dims.dqkv <= v.len(),
        attended::<T, A>(q, k, v, dims, att, h0, h1),
        0 <= kv < dims.n_kv_h,
        0 <= group < dims.n_groups,
        0 <= i < dims.seq_len,
        0 <= j < dims.total,
        0 <= p < dims.dqkv,
    ensures
        ({
            let d = dims.dqkv;
            let query = (i * (dims.n_kv_h * dims.n_groups) + kv * dims.n_groups + group) * d;
            let score = |j: int|
                (f.times)(
                    total(
                        f,
                        d,
                        |e: int|
                            (f.times)(q[query + e], k[(j * dims.n_kv_h + kv) * d + e]),
                    ),
                    (f.over)(f.one, (f.sqrt)((f.number)(d as usize))),
                );
            let seen = dims.total - dims.seq_len + i + 1;
            let max = most(f, score(0), seen, score);
            let weight = |j: int|
                if j < seen {
                    (f.over)(
                        (f.exp)((f.minus)(score(j), max)),
                        total(f, seen, |a: int| (f.exp)((f.minus)(score(a), max))),
                    )
                } else {
                    f.zero
                };
            &&& att[((kv * dims.n_groups + group) * dims.seq_len + i) * dims.total + j]
                == weight(j)
            &&& h1[query + p] == total(
                f,
                dims.total,
                |a: int| (f.times)(weight(a), v[(a * dims.n_kv_h + kv) * d + p]),
            )
        }),
{
    let d = dims.dqkv;
    let heads = dims.n_kv_h * dims.n_groups;
    let h = kv * dims.n_groups + group;
    lemma_flat_bound(dims.n_kv_h, dims.n_groups, kv, group);
    lemma_fundamental_div_mod_converse(h, dims.n_groups, kv, group);
    lemma_score_place(dims, h, i);
    lemma_output_place(dims, h, i);
    let query = (i * heads + kv * dims.n_groups + group) * d;
    let score = |j: int|
        (f.times)(
            total(f, d, |e: int| (f.times)(q[query + e], k[(j * dims.n_kv_h + kv) * d + e])),
            (f.over)(f.one, (f.sqrt)((f.number)(d as usize))),
        );
    let seen = dims.total - dims.seq_len + i + 1;
    let max = most(f, score(0), seen, score);
    let (scale, raw) = choose|scale: T, raw: Seq<T>|
        is_scale::<T, A>(dims.dqkv as usize, scale) && #[trigger] scored::<T, A>(
            q,
            k,
            dims,
            scale,
            raw,
        ) && softmaxed::<T, A>(raw, dims.score_rows(), dims.seq_len, dims.total, att);
    let r = h * dims.seq_len + i;
    let x = row(raw, dims.total, r);
    assert(score_row::<T, A>(q, k, dims, scale, h, i, x));
    lemma_row_bound(dims.seq_len * heads, d, i * heads + h);
    let qv = head_vector(q, d, heads, i, h);
    assert forall|j: int| 0 <= j < dims.total implies x[j] == score(j) by {
        let kvec = head_vector(k, d, dims.n_kv_h, j, kv);
        lemma_flat_bound(dims.total, dims.n_kv_h, j, kv);
        lemma_row_bound(dims.total * dims.n_kv_h, d, j * dims.n_kv_h + kv);
        assert(is_score::<T, A>(qv, kvec, scale, x[j]));
        let s = choose|s: T| #[trigger]
            is_dot::<T, A>(qv, kvec, s) && times::<T, A>(s, scale, x[j]);
        law_dot_is_the_sum_of_products::<T, A>(f, qv, kvec, s);
        lemma_total_same(
            f,
            d,
            |e: int| (f.times)(qv[e], kvec[e]),
            |e: int| (f.times)(q[query + e], k[(j * dims.n_kv_h + kv) * d + e]),
        );
    }
    let y = row(att, dims.total, r);
    assert(softmax_row::<T, A>(x, seen, y));
    lemma_softmax_row_formula::<T, A>(f, x, seen, y, score);
    let weight = |j: int|
        if j < seen {
            (f.over)(
                (f.exp)((f.minus)(score(j), max)),
                total(f, seen, |a: int| (f.exp)((f.minus)(score(a), max))),
            )
        } else {
            f.zero
        };
    let out = row(h1, d, i * heads + h);
    assert(mixed_row::<T, A>(att, v, dims, h, i, out));
    let e = head_entries(v, d, dims.n_kv_h, kv, p, dims.total);
    assert(is_dot::<T, A>(y, e, out[p]));
    law_dot_is_the_sum_of_products::<T, A>(f, y, e, out[p]);
    let t1 = |j: int| (f.times)(y[j], e[j]);
    let t2 = |j: int| (f.times)(weight(j), v[(j * dims.n_kv_h + kv) * d + p]);
    assert forall|j: int| 0 <= j < dims.total implies #[trigger] t1(j) == t2(j) by {
        assert(y[j] == weight(j));
        assert(e[j] == at(v, d, j * dims.n_kv_h + kv, p));
    }
    lemma_total_same(f, dims.total, t1, t2);
    assert(out[p] == h1[query + p]);
    lemma_row_bound(dims.score_rows(), dims.total, r);
    assert(y[j] == att[r * dims.total + j]);
}

/// Attention writes the outputs of the query heads only.
pub proof fn law_attention_leaves_the_rest<T, A: Arithmetic<T>>(
    dims: Heads,
    q: Seq<T>,
    k: Seq<T>,
    v: Seq<T>,
    att: Seq<T>,
    h0: Seq<T>,
    h1: Seq<T>,
    x: int,
)
    requires
        attended::<T, A>(q, k, v, dims, att, h0, h1),
    ensures
        h1.len() == h0.len(),
        att.len() == dims.n_kv_h * dims.n_groups * dims.seq_len * dims.total,
        dims.seq_len * (dims.n_kv_h * dims.n_groups) * dims.dqkv <= x < h0.len() ==> h1[x]
            == h0[x],
{
}

/// Softmax of a row whose entries are `score(0)`, `score(1)` and so on.
proof fn lemma_softmax_row_formula<T, A: Arithmetic<T>>(
    f: Ops<T>,
    x: Seq<T>,
    n: int,
    y: Seq<T>,
    score: spec_fn(int) -> T,
)
    requires
        computed_by::<T, A>(f),
        1 <= n <= x.len(),
        softmax_row::<T, A>(x, n, y),
        forall|j: int| 0 <= j < x.len() ==> x[j] == #[trigger] score(j),
    ensures
        y.len() == x.len(),
        forall|j: int|
            0 <= j < x.len() ==> #[trigger] y[j] == {
                let max = most(f, score(0), n, score);
                if j < n {
                    (f.over)(
                        (f.exp)((f.minus)(score(j), max)),
                        total(f, n, |a: int| (f.exp)((f.minus)(score(a), max))),
                    )
                } else {
                    f.zero
                }
            },
{
    let (m, e, s) = choose|m: T, e: Seq<T>, s: T| #[trigger]
        is_largest::<T, A>(x[0], x.take(n), m) && are_exps_of_differences::<T, A>(
            x.take(n),
            m,
            e,
        ) && #[trigger] is_sum::<T, A>(e, s) && forall|k: int|
            0 <= k < n ==> over::<T, A>(e[k], s, #[trigger] y[k]);
    let xs = x.take(n);
    assert(score(0) == x[0]);
    lemma_largest_most::<T, A>(f, x[0], xs, m);
    let own = |p: int| xs[p];
    assert forall|p: int| 0 <= p < n implies #[trigger] own(p) == score(p) by {
        assert(x[p] == score(p));
    }
    lemma_most_same(f, x[0], n, own, score);
    lemma_sum_total::<T, A>(f, e, s);
    let t2 = |p: int| (f.exp)((f.minus)(score(p), m));
    let t1 = |p: int| e[p];
    assert forall|p: int| 0 <= p < n implies #[trigger] t1(p) == t2(p) by {
        assert(is_exp_of_difference::<T, A>(xs[p], m, e[p]));
        assert(x[p] == score(p));
    }
    lemma_total_same(f, n, t1, t2);
    assert forall|j: int| 0 <= j < x.len() implies #[trigger] y[j] == {
        let max = most(f, score(0), n, score);
        if j < n {
            (f.over)(
                (f.exp)((f.minus)(score(j), max)),
                total(f, n, |a: int| (f.exp)((f.minus)(score(a), max))),
            )
        } else {
            f.zero
        }
    } by {
        if j < n {
            assert(t1(j) == t2(j));
            assert(over::<T, A>(e[j], s, y[j]));
        }
    }
}

} // verus!
