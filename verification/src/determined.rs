//! Arithmetic whose operations have one result each, and what follows for the operators: equal
//! inputs give equal outputs, row by row.

use crate::arith::{
    encodes, is_dot, is_exp, is_larger, is_largest, is_number, is_one, is_power, is_sin_cos,
    is_sqrt, is_sum, is_zero, minus, negated, over, plus, times, widened, widens, Arithmetic,
    Widen,
};
use crate::layout::{at, lemma_place, lemma_row_bound, row};
use crate::operators::{
    added, are_exps_of_differences, gated, gated_by, gathered, is_angle, is_exp_of_difference,
    is_norm, is_scaled, multiplied, normed, normed_row, pair_rotated, product_entry, rotated,
    softmax_row, turned,
};
use vstd::arithmetic::div_mod::lemma_div_multiples_vanish;
use vstd::prelude::*;

verus! {

/// Each operation has one result only.
pub open spec fn determined<T, A: Arithmetic<T>>() -> bool {
    &&& forall|r1: T, r2: T| #[trigger] is_zero::<T, A>(r1) && #[trigger] is_zero::<T, A>(r2) ==> r1
        == r2
    &&& forall|r1: T, r2: T| #[trigger] is_one::<T, A>(r1) && #[trigger] is_one::<T, A>(r2) ==> r1
        == r2
    &&& forall|a: T, b: T, r1: T, r2: T| #[trigger]
        plus::<T, A>(a, b, r1) && #[trigger] plus::<T, A>(a, b, r2) ==> r1 == r2
    &&& forall|a: T, b: T, r1: T, r2: T| #[trigger]
        minus::<T, A>(a, b, r1) && #[trigger] minus::<T, A>(a, b, r2) ==> r1 == r2
    &&& forall|a: T, b: T, r1: T, r2: T| #[trigger]
        times::<T, A>(a, b, r1) && #[trigger] times::<T, A>(a, b, r2) ==> r1 == r2
    &&& forall|a: T, b: T, r1: T, r2: T| #[trigger]
        over::<T, A>(a, b, r1) && #[trigger] over::<T, A>(a, b, r2) ==> r1 == r2
    &&& forall|a: T, r1: T, r2: T| #[trigger]
        negated::<T, A>(a, r1) && #[trigger] negated::<T, A>(a, r2) ==> r1 == r2
    &&& forall|a: T, r1: T, r2: T| #[trigger]
        is_exp::<T, A>(a, r1) && #[trigger] is_exp::<T, A>(a, r2) ==> r1 == r2
    &&& forall|a: T, r1: T, r2: T| #[trigger]
        is_sqrt::<T, A>(a, r1) && #[trigger] is_sqrt::<T, A>(a, r2) ==> r1 == r2
    &&& forall|a: T, b: T, r1: T, r2: T| #[trigger]
        is_power::<T, A>(a, b, r1) && #[trigger] is_power::<T, A>(a, b, r2) ==> r1 == r2
    &&& forall|a: T, s1: T, c1: T, s2: T, c2: T| #[trigger]
        is_sin_cos::<T, A>(a, s1, c1) && #[trigger] is_sin_cos::<T, A>(a, s2, c2) ==> s1 == s2
            && c1 == c2
    &&& forall|a: T, b: T, r1: T, r2: T| #[trigger]
        is_larger::<T, A>(a, b, r1) && #[trigger] is_larger::<T, A>(a, b, r2) ==> r1 == r2
    &&& forall|n: usize, r1: T, r2: T| #[trigger]
        is_number::<T, A>(n, r1) && #[trigger] is_number::<T, A>(n, r2) ==> r1 == r2
    &&& forall|a: T, r1: u32, r2: u32| #[trigger]
        encodes::<T, A>(a, r1) && #[trigger] encodes::<T, A>(a, r2) ==> r1 == r2
}

/// Each stored table entry converts to one scalar only.
pub open spec fn widening_determined<U, T, A: Widen<U, T>>() -> bool {
    forall|u: U, r1: T, r2: T| #[trigger]
        widens::<U, T, A>(u, r1) && #[trigger] widens::<U, T, A>(u, r2) ==> r1 == r2
}

/// Matrices with the same rows are the same.
pub proof fn lemma_rows<T>(s1: Seq<T>, s2: Seq<T>, m: int, n: int)
    requires
        0 <= m,
        0 <= n,
        s1.len() == m * n,
        s2.len() == m * n,
        forall|i: int| 0 <= i < m ==> #[trigger] row(s1, n, i) == row(s2, n, i),
    ensures
        s1 == s2,
{
    assert forall|x: int| 0 <= x < s1.len() implies s1[x] == s2[x] by {
        lemma_place(m, n, x);
        let i = x / n;
        lemma_row_bound(m, n, i);
        assert(row(s1, n, i) == row(s2, n, i));
        assert(row(s1, n, i)[x % n] == s1[x] && row(s2, n, i)[x % n] == s2[x]);
    }
    assert(s1 =~= s2);
}

pub proof fn lemma_angle<T, A: Arithmetic<T>>(
    pos: usize,
    i: usize,
    d: usize,
    theta: T,
    f1: T,
    f2: T,
)
    requires
        determined::<T, A>(),
        is_angle::<T, A>(pos, i, d, theta, f1),
        is_angle::<T, A>(pos, i, d, theta, f2),
    ensures
        f1 == f2,
{
}

pub proof fn lemma_turned<T, A: Arithmetic<T>>(
    f: T,
    a0: T,
    b0: T,
    a1: T,
    b1: T,
    a2: T,
    b2: T,
)
    requires
        determined::<T, A>(),
        turned::<T, A>(f, a0, b0, a1, b1),
        turned::<T, A>(f, a0, b0, a2, b2),
    ensures
        a1 == a2,
        b1 == b2,
{
}

/// The pair that a position turns a pair to is determined.
pub proof fn lemma_pair_rotated<T, A: Arithmetic<T>>(
    pos: usize,
    i: usize,
    d: usize,
    theta: T,
    a0: T,
    b0: T,
    a1: T,
    b1: T,
    a2: T,
    b2: T,
)
    requires
        determined::<T, A>(),
        pair_rotated::<T, A>(pos, i, d, theta, a0, b0, a1, b1),
        pair_rotated::<T, A>(pos, i, d, theta, a0, b0, a2, b2),
    ensures
        a1 == a2,
        b1 == b2,
{
    let f1 = choose|f: T| #[trigger]
        is_angle::<T, A>(pos, i, d, theta, f) && turned::<T, A>(f, a0, b0, a1, b1);
    let f2 = choose|f: T| #[trigger]
        is_angle::<T, A>(pos, i, d, theta, f) && turned::<T, A>(f, a0, b0, a2, b2);
    lemma_angle::<T, A>(pos, i, d, theta, f1, f2);
    lemma_turned::<T, A>(f1, a0, b0, a1, b1, a2, b2);
}

pub proof fn lemma_sum<T, A: Arithmetic<T>>(x: Seq<T>, s1: T, s2: T)
    requires
        determined::<T, A>(),
        is_sum::<T, A>(x, s1),
        is_sum::<T, A>(x, s2),
    ensures
        s1 == s2,
    decreases x.len(),
{
    if x.len() > 0 {
        let t1 = choose|t: T|
            is_sum::<T, A>(x.drop_last(), t) && #[trigger] plus::<T, A>(t, x.last(), s1);
        let t2 = choose|t: T|
            is_sum::<T, A>(x.drop_last(), t) && #[trigger] plus::<T, A>(t, x.last(), s2);
        lemma_sum::<T, A>(x.drop_last(), t1, t2);
    }
}

pub proof fn lemma_dot<T, A: Arithmetic<T>>(x: Seq<T>, y: Seq<T>, s1: T, s2: T)
    requires
        determined::<T, A>(),
        is_dot::<T, A>(x, y, s1),
        is_dot::<T, A>(x, y, s2),
    ensures
        s1 == s2,
    decreases x.len(),
{
    if x.len() > 0 {
        let (t1, m1) = choose|t: T, m: T|
            is_dot::<T, A>(x.drop_last(), y.drop_last(), t) && #[trigger] times::<T, A>(
                x.last(),
                y.last(),
                m,
            ) && #[trigger] plus::<T, A>(t, m, s1);
        let (t2, m2) = choose|t: T, m: T|
            is_dot::<T, A>(x.drop_last(), y.drop_last(), t) && #[trigger] times::<T, A>(
                x.last(),
                y.last(),
                m,
            ) && #[trigger] plus::<T, A>(t, m, s2);
        lemma_dot::<T, A>(x.drop_last(), y.drop_last(), t1, t2);
    }
}

pub proof fn lemma_largest<T, A: Arithmetic<T>>(first: T, x: Seq<T>, m1: T, m2: T)
    requires
        determined::<T, A>(),
        is_largest::<T, A>(first, x, m1),
        is_largest::<T, A>(first, x, m2),
    ensures
        m1 == m2,
    decreases x.len(),
{
    if x.len() > 0 {
        let t1 = choose|t: T|
            is_largest::<T, A>(first, x.drop_last(), t) && #[trigger] is_larger::<T, A>(
                t,
                x.last(),
                m1,
            );
        let t2 = choose|t: T|
            is_largest::<T, A>(first, x.drop_last(), t) && #[trigger] is_larger::<T, A>(
                t,
                x.last(),
                m2,
            );
        lemma_largest::<T, A>(first, x.drop_last(), t1, t2);
    }
}

/// Softmax of two rows, of which the first `n` entries are visible and agree, agrees on those.
pub proof fn lemma_softmax_row<T, A: Arithmetic<T>>(
    x1: Seq<T>,
    y1: Seq<T>,
    x2: Seq<T>,
    y2: Seq<T>,
    n: int,
)
    requires
        determined::<T, A>(),
        1 <= n <= x1.len(),
        n <= x2.len(),
        x1.take(n) == x2.take(n),
        softmax_row::<T, A>(x1, n, y1),
        softmax_row::<T, A>(x2, n, y2),
    ensures
        y1.take(n) == y2.take(n),
{
    let x = x1.take(n);
    assert(x1[0] == x[0] && x2[0] == x2.take(n)[0]);
    let (m1, e1, s1) = choose|m: T, e: Seq<T>, s: T| #[trigger]
        is_largest::<T, A>(x1[0], x1.take(n), m) && are_exps_of_differences::<T, A>(
            x1.take(n),
            m,
            e,
        ) && #[trigger] is_sum::<T, A>(e, s) && forall|j: int|
            0 <= j < n ==> over::<T, A>(e[j], s, #[trigger] y1[j]);
    let (m2, e2, s2) = choose|m: T, e: Seq<T>, s: T| #[trigger]
        is_largest::<T, A>(x2[0], x2.take(n), m) && are_exps_of_differences::<T, A>(
            x2.take(n),
            m,
            e,
        ) && #[trigger] is_sum::<T, A>(e, s) && forall|j: int|
            0 <= j < n ==> over::<T, A>(e[j], s, #[trigger] y2[j]);
    lemma_largest::<T, A>(x1[0], x, m1, m2);
    assert forall|j: int| 0 <= j < n implies e1[j] == e2[j] by {
        assert(is_exp_of_difference::<T, A>(x[j], m1, e1[j]));
        assert(is_exp_of_difference::<T, A>(x[j], m1, e2[j]));
    }
    assert(e1 =~= e2);
    lemma_sum::<T, A>(e1, s1, s2);
    assert forall|j: int| 0 <= j < n implies y1.take(n)[j] == y2.take(n)[j] by {
        assert(over::<T, A>(e1[j], s1, y1[j]));
        assert(over::<T, A>(e1[j], s1, y2[j]));
    }
}

pub proof fn lemma_norm<T, A: Arithmetic<T>>(x: Seq<T>, epsilon: T, f1: T, f2: T)
    requires
        determined::<T, A>(),
        is_norm::<T, A>(x, epsilon, f1),
        is_norm::<T, A>(x, epsilon, f2),
    ensures
        f1 == f2,
{
    let (q1, n1, m1, t1) = choose|q: T, n: T, m: T, t: T| #[trigger]
        is_dot::<T, A>(x, x, q) && #[trigger] is_number::<T, A>(x.len() as usize, n)
            && #[trigger] over::<T, A>(q, n, m) && #[trigger] plus::<T, A>(m, epsilon, t)
            && is_sqrt::<T, A>(t, f1);
    let (q2, n2, m2, t2) = choose|q: T, n: T, m: T, t: T| #[trigger]
        is_dot::<T, A>(x, x, q) && #[trigger] is_number::<T, A>(x.len() as usize, n)
            && #[trigger] over::<T, A>(q, n, m) && #[trigger] plus::<T, A>(m, epsilon, t)
            && is_sqrt::<T, A>(t, f2);
    lemma_dot::<T, A>(x, x, q1, q2);
}

pub proof fn lemma_normed_row<T, A: Arithmetic<T>>(
    x: Seq<T>,
    w: Seq<T>,
    epsilon: T,
    y1: Seq<T>,
    y2: Seq<T>,
)
    requires
        determined::<T, A>(),
        normed_row::<T, A>(x, w, epsilon, y1),
        normed_row::<T, A>(x, w, epsilon, y2),
    ensures
        y1 == y2,
{
    let f1 = choose|f: T| #[trigger]
        is_norm::<T, A>(x, epsilon, f) && forall|j: int|
            0 <= j < x.len() ==> is_scaled::<T, A>(w[j], x[j], f, #[trigger] y1[j]);
    let f2 = choose|f: T| #[trigger]
        is_norm::<T, A>(x, epsilon, f) && forall|j: int|
            0 <= j < x.len() ==> is_scaled::<T, A>(w[j], x[j], f, #[trigger] y2[j]);
    lemma_norm::<T, A>(x, epsilon, f1, f2);
    assert forall|j: int| 0 <= j < x.len() implies y1[j] == y2[j] by {
        assert(is_scaled::<T, A>(w[j], x[j], f1, y1[j]));
        assert(is_scaled::<T, A>(w[j], x[j], f1, y2[j]));
    }
    assert(y1 =~= y2);
}

pub proof fn lemma_gated_by<T, A: Arithmetic<T>>(y0: T, x: T, y1: T, y2: T)
    requires
        determined::<T, A>(),
        gated_by::<T, A>(y0, x, y1),
        gated_by::<T, A>(y0, x, y2),
    ensures
        y1 == y2,
{
}

pub proof fn lemma_widened<U, T, A: Widen<U, T>>(u: Seq<U>, w1: Seq<T>, w2: Seq<T>)
    requires
        widening_determined::<U, T, A>(),
        widened::<U, T, A>(u, w1),
        widened::<U, T, A>(u, w2),
    ensures
        w1 == w2,
{
    assert forall|p: int| 0 <= p < u.len() implies w1[p] == w2[p] by {
        assert(widens::<U, T, A>(u[p], w1[p]) && widens::<U, T, A>(u[p], w2[p]));
    }
    assert(w1 =~= w2);
}

pub proof fn lemma_gathered<U, T, A: Widen<U, T>>(
    indices: Seq<u32>,
    table: Seq<U>,
    dim: int,
    y1: Seq<T>,
    y2: Seq<T>,
)
    requires
        widening_determined::<U, T, A>(),
        0 <= dim,
        gathered::<U, T, A>(indices, table, dim, y1),
        gathered::<U, T, A>(indices, table, dim, y2),
    ensures
        y1 == y2,
{
    assert forall|x: int| 0 <= x < y1.len() implies y1[x] == y2[x] by {
        lemma_place(indices.len() as int, dim, x);
        let i = x / dim;
        let j = x % dim;
        assert(at(y1, dim, i, j) == y1[x] && at(y2, dim, i, j) == y2[x]);
        assert(widens::<U, T, A>(at(table, dim, indices[i] as int, j), at(y1, dim, i, j)));
        assert(widens::<U, T, A>(at(table, dim, indices[i] as int, j), at(y2, dim, i, j)));
    }
    assert(y1 =~= y2);
}

pub proof fn lemma_normed<T, A: Arithmetic<T>>(
    x: Seq<T>,
    w: Seq<T>,
    m: int,
    n: int,
    epsilon: T,
    y1: Seq<T>,
    y2: Seq<T>,
)
    requires
        determined::<T, A>(),
        0 <= m,
        0 < n,
        x.len() == m * n,
        normed::<T, A>(x, w, n, epsilon, y1),
        normed::<T, A>(x, w, n, epsilon, y2),
    ensures
        y1 == y2,
{
    lemma_row_count(m, n);
    assert forall|b: int| 0 <= b < m implies #[trigger] row(y1, n, b) == row(y2, n, b) by {
        assert(normed_row::<T, A>(row(x, n, b), w, epsilon, row(y2, n, b)));
        lemma_normed_row::<T, A>(row(x, n, b), w, epsilon, row(y1, n, b), row(y2, n, b));
    }
    lemma_rows(y1, y2, m, n);
}

/// A matrix of `m * n` entries has `m` rows of length `n`.
pub proof fn lemma_row_count(m: int, n: int)
    requires
        0 < n,
    ensures
        m * n / n == m,
{
    assert(m * n == n * m) by (nonlinear_arith);
    lemma_div_multiples_vanish(m, n);
}

pub proof fn lemma_product_entry<U, T, A: Arithmetic<T> + Widen<U, T>>(
    c0: T,
    beta: T,
    a: Seq<T>,
    b: Seq<U>,
    alpha: T,
    c1: T,
    c2: T,
)
    requires
        determined::<T, A>(),
        widening_determined::<U, T, A>(),
        product_entry::<U, T, A>(c0, beta, a, b, alpha, c1),
        product_entry::<U, T, A>(c0, beta, a, b, alpha, c2),
    ensures
        c1 == c2,
{
    let (w1, s1, u1, v1) = choose|w: Seq<T>, s: T, u: T, v: T|
        widened::<U, T, A>(b, w) && #[trigger] is_dot::<T, A>(a, w, s) && #[trigger] times::<T, A>(
            beta,
            c0,
            u,
        ) && #[trigger] times::<T, A>(alpha, s, v) && plus::<T, A>(u, v, c1);
    let (w2, s2, u2, v2) = choose|w: Seq<T>, s: T, u: T, v: T|
        widened::<U, T, A>(b, w) && #[trigger] is_dot::<T, A>(a, w, s) && #[trigger] times::<T, A>(
            beta,
            c0,
            u,
        ) && #[trigger] times::<T, A>(alpha, s, v) && plus::<T, A>(u, v, c2);
    lemma_widened::<U, T, A>(b, w1, w2);
    lemma_dot::<T, A>(a, w1, s1, s2);
}

pub proof fn lemma_multiplied<U, T, A: Arithmetic<T> + Widen<U, T>>(
    c0: Seq<T>,
    beta: T,
    a: Seq<T>,
    b: Seq<U>,
    alpha: T,
    m: int,
    k: int,
    n: int,
    c1: Seq<T>,
    c2: Seq<T>,
)
    requires
        determined::<T, A>(),
        widening_determined::<U, T, A>(),
        0 <= m,
        0 <= n,
        c0.len() == m * n,
        multiplied::<U, T, A>(c0, beta, a, b, alpha, m, k, n, c1),
        multiplied::<U, T, A>(c0, beta, a, b, alpha, m, k, n, c2),
    ensures
        c1 == c2,
{
    assert forall|x: int| 0 <= x < c1.len() implies c1[x] == c2[x] by {
        lemma_place(m, n, x);
        let i = x / n;
        let j = x % n;
        assert(at(c1, n, i, j) == c1[x] && at(c2, n, i, j) == c2[x]);
        lemma_product_entry::<U, T, A>(
            at(c0, n, i, j),
            beta,
            row(a, k, i),
            row(b, k, j),
            alpha,
            at(c1, n, i, j),
            at(c2, n, i, j),
        );
    }
    assert(c1 =~= c2);
}

pub proof fn lemma_rotated<T, A: Arithmetic<T>>(
    y0: Seq<T>,
    rows: int,
    n_heads: int,
    d: usize,
    start: int,
    theta: T,
    y1: Seq<T>,
    y2: Seq<T>,
)
    requires
        determined::<T, A>(),
        0 <= rows,
        y0.len() == rows * d,
        rotated::<T, A>(y0, rows, n_heads, d, start, theta, y1),
        rotated::<T, A>(y0, rows, n_heads, d, start, theta, y2),
    ensures
        y1 == y2,
{
    let n = d as int;
    assert forall|x: int| 0 <= x < y0.len() implies y1[x] == y2[x] by {
        let r = x / n;
        let i = x % n;
        lemma_place(rows, n, x);
        assert(y1[x] == at(y1, n, r, i) && y2[x] == at(y2, n, r, i));
        if i < (d / 2) * 2 {
            let j = if i < d / 2 {
                i
            } else {
                i - d / 2
            };
            assert(at(y1, n, r, j) == y1[r * n + j] && at(y2, n, r, j) == y2[r * n + j]);
            lemma_pair_rotated::<T, A>(
                (start + r / n_heads) as usize,
                j as usize,
                d,
                theta,
                at(y0, n, r, j),
                at(y0, n, r, j + d / 2),
                at(y1, n, r, j),
                at(y1, n, r, j + d / 2),
                at(y2, n, r, j),
                at(y2, n, r, j + d / 2),
            );
        }
    }
    assert(y1 =~= y2);
}

pub proof fn lemma_gated<T, A: Arithmetic<T>>(y0: Seq<T>, x: Seq<T>, y1: Seq<T>, y2: Seq<T>)
    requires
        determined::<T, A>(),
        gated::<T, A>(y0, x, y1),
        gated::<T, A>(y0, x, y2),
    ensures
        y1 == y2,
{
    assert forall|i: int| 0 <= i < y0.len() implies y1[i] == y2[i] by {
        lemma_gated_by::<T, A>(y0[i], x[i], y1[i], y2[i]);
    }
    assert(y1 =~= y2);
}

pub proof fn lemma_added<T, A: Arithmetic<T>>(y0: Seq<T>, x: Seq<T>, y1: Seq<T>, y2: Seq<T>)
    requires
        determined::<T, A>(),
        added::<T, A>(y0, x, y1),
        added::<T, A>(y0, x, y2),
    ensures
        y1 == y2,
{
    assert forall|i: int| 0 <= i < y0.len() implies y1[i] == y2[i] by {
        assert(plus::<T, A>(y0[i], x[i], y1[i]) && plus::<T, A>(y0[i], x[i], y2[i]));
    }
    assert(y1 =~= y2);
}

} // verus!
