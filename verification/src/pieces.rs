//! What a pass computes for a position depends on the tokens up to that position, not on how they
//! are split into passes.

use crate::arith::{is_dot, is_one, is_zero, plus, times, widened, widens, Arithmetic, Widen};
use crate::attention::{attended, fed_forward, head_vector};
use crate::causality::{
    ignored, lemma_attended_row, lemma_token_rows, positions_agree, token_rows,
};
use crate::determined::{
    determined, lemma_dot, lemma_gated_by, lemma_multiplied, lemma_normed, lemma_normed_row,
    lemma_rotated, lemma_row_count, lemma_widened, widening_determined,
};
use crate::kvcache::{overwritten, KVCache};
use crate::laws::{law_rotation_depends_on_the_position, no_projections};
use crate::layout::{at, lemma_flat_bound, lemma_place, lemma_row_bound, row};
use crate::model::{lemma_layer_sizes, Buffers, LayerTrace, Llama, PassTrace};
use crate::operators::{
    added, gated, gated_by, gathered, multiplied, normed, normed_row, product_entry, rotated,
};
use crate::passes::{all_determined, lemma_blank, lemma_layer_fits};
use crate::tensor::{lemma_entries_2, Tensor};
use vstd::prelude::*;

verus! {

/// A product that is stored in place of `c` does not depend on `c`: what it is computed as,
/// `0 * c + 1 * s` for a sum of products `s`, is `1 * s`.
pub open spec fn replaceable<T, A: Arithmetic<T>>(c: T) -> bool {
    forall|z: T, u: T, o: T, x: Seq<T>, y: Seq<T>, s: T, v: T, r: T|
        is_zero::<T, A>(z) && #[trigger] times::<T, A>(z, c, u) && is_one::<T, A>(o)
            && #[trigger] is_dot::<T, A>(x, y, s) && #[trigger] times::<T, A>(o, s, v)
            && #[trigger] plus::<T, A>(u, v, r) ==> r == v
}

/// Products can be stored in place of all entries.
pub open spec fn all_replaceable<T, A: Arithmetic<T>>(s: Seq<T>) -> bool {
    forall|i: int| 0 <= i < s.len() ==> replaceable::<T, A>(#[trigger] s[i])
}

/// With the weight 0, no entry adds anything to a sum of products.
pub open spec fn all_ignored<T, A: Arithmetic<T>>(s: Seq<T>) -> bool {
    forall|i: int| 0 <= i < s.len() ==> ignored::<T, A>(#[trigger] s[i])
}

/// Adding `x * 0` to 0 gives 0.
pub open spec fn annihilated<T, A: Arithmetic<T>>(x: T) -> bool {
    forall|z: T, m: T, t: T, s: T|
        is_zero::<T, A>(z) && #[trigger] times::<T, A>(x, z, m) && is_zero::<T, A>(t)
            && #[trigger] plus::<T, A>(t, m, s) ==> is_zero::<T, A>(s)
}

/// Adding the product of any entry with 0 to 0 gives 0.
pub open spec fn all_annihilated<T, A: Arithmetic<T>>(s: Seq<T>) -> bool {
    forall|i: int| 0 <= i < s.len() ==> annihilated::<T, A>(#[trigger] s[i])
}

/// Adding `1 * 0` leaves `r` as it is.
pub open spec fn unmoved<T, A: Arithmetic<T>>(r: T) -> bool {
    forall|o: T, z: T, v: T, s: T|
        is_one::<T, A>(o) && is_zero::<T, A>(z) && #[trigger] times::<T, A>(o, z, v)
            && #[trigger] plus::<T, A>(r, v, s) ==> s == r
}

/// Adding `1 * 0` leaves all entries as they are.
pub open spec fn all_unmoved<T, A: Arithmetic<T>>(s: Seq<T>) -> bool {
    forall|i: int| 0 <= i < s.len() ==> unmoved::<T, A>(#[trigger] s[i])
}

/// 0 converts to 0.
pub open spec fn zero_widens_to_zero<T, A: Arithmetic<T> + Widen<T, T>>() -> bool {
    forall|z: T, w: T|
        is_zero::<T, A>(z) && #[trigger] widens::<T, T, A>(z, w) ==> is_zero::<T, A>(w)
}

pub proof fn lemma_normed_rows<T, A: Arithmetic<T>>(
    x1: Seq<T>,
    y1: Seq<T>,
    m1: int,
    i1: int,
    x2: Seq<T>,
    y2: Seq<T>,
    m2: int,
    i2: int,
    w: Seq<T>,
    n: int,
    epsilon: T,
)
    requires
        determined::<T, A>(),
        0 < n,
        0 <= i1 < m1,
        0 <= i2 < m2,
        x1.len() == m1 * n,
        x2.len() == m2 * n,
        normed::<T, A>(x1, w, n, epsilon, y1),
        normed::<T, A>(x2, w, n, epsilon, y2),
        row(x1, n, i1) == row(x2, n, i2),
    ensures
        row(y1, n, i1) == row(y2, n, i2),
{
    lemma_row_count(m1, n);
    lemma_row_count(m2, n);
    assert(normed_row::<T, A>(row(x1, n, i1), w, epsilon, row(y1, n, i1)));
    assert(normed_row::<T, A>(row(x2, n, i2), w, epsilon, row(y2, n, i2)));
    lemma_normed_row::<T, A>(row(x1, n, i1), w, epsilon, row(y1, n, i1), row(y2, n, i2));
}

/// An entry of a product does not depend on what it replaces.
pub proof fn lemma_fresh_entry<T, A: Arithmetic<T> + Widen<T, T>>(
    p: T,
    q: T,
    z: T,
    a: Seq<T>,
    b: Seq<T>,
    alpha: T,
    c1: T,
    c2: T,
)
    requires
        determined::<T, A>(),
        widening_determined::<T, T, A>(),
        replaceable::<T, A>(p),
        replaceable::<T, A>(q),
        is_zero::<T, A>(z),
        is_one::<T, A>(alpha),
        product_entry::<T, T, A>(p, z, a, b, alpha, c1),
        product_entry::<T, T, A>(q, z, a, b, alpha, c2),
    ensures
        c1 == c2,
{
    let (w1, s1, u1, v1) = choose|w: Seq<T>, s: T, u: T, v: T|
        widened::<T, T, A>(b, w) && #[trigger] is_dot::<T, A>(a, w, s) && #[trigger] times::<T, A>(
            z,
            p,
            u,
        ) && #[trigger] times::<T, A>(alpha, s, v) && plus::<T, A>(u, v, c1);
    let (w2, s2, u2, v2) = choose|w: Seq<T>, s: T, u: T, v: T|
        widened::<T, T, A>(b, w) && #[trigger] is_dot::<T, A>(a, w, s) && #[trigger] times::<T, A>(
            z,
            q,
            u,
        ) && #[trigger] times::<T, A>(alpha, s, v) && plus::<T, A>(u, v, c2);
    lemma_widened::<T, T, A>(b, w1, w2);
    lemma_dot::<T, A>(a, w1, s1, s2);
    assert(c1 == v1 && c2 == v2);
}

pub proof fn lemma_multiplied_rows<T, A: Arithmetic<T> + Widen<T, T>>(
    p1: Seq<T>,
    a1: Seq<T>,
    c1: Seq<T>,
    m1: int,
    i1: int,
    p2: Seq<T>,
    a2: Seq<T>,
    c2: Seq<T>,
    m2: int,
    i2: int,
    z: T,
    b: Seq<T>,
    alpha: T,
    k: int,
    n: int,
)
    requires
        determined::<T, A>(),
        widening_determined::<T, T, A>(),
        all_replaceable::<T, A>(p1),
        all_replaceable::<T, A>(p2),
        is_zero::<T, A>(z),
        is_one::<T, A>(alpha),
        0 <= n,
        0 <= i1 < m1,
        0 <= i2 < m2,
        p1.len() == m1 * n,
        p2.len() == m2 * n,
        multiplied::<T, T, A>(p1, z, a1, b, alpha, m1, k, n, c1),
        multiplied::<T, T, A>(p2, z, a2, b, alpha, m2, k, n, c2),
        row(a1, k, i1) == row(a2, k, i2),
    ensures
        row(c1, n, i1) == row(c2, n, i2),
{
    lemma_row_bound(m1, n, i1);
    lemma_row_bound(m2, n, i2);
    assert forall|j: int| 0 <= j < n implies row(c1, n, i1)[j] == row(c2, n, i2)[j] by {
        assert(replaceable::<T, A>(p1[i1 * n + j]) && replaceable::<T, A>(p2[i2 * n + j]));
        lemma_fresh_entry::<T, A>(
            at(p1, n, i1, j),
            at(p2, n, i2, j),
            z,
            row(a1, k, i1),
            row(b, k, j),
            alpha,
            at(c1, n, i1, j),
            at(c2, n, i2, j),
        );
    }
    assert(row(c1, n, i1) =~= row(c2, n, i2));
}

/// The vectors of a token are a row.
pub proof fn lemma_token_rows_are_a_row<T>(s: Seq<T>, n_heads: int, d: int, t: int)
    ensures
        token_rows(s, n_heads, d, t) == row(s, n_heads * d, t),
{
    assert(t * n_heads * d == t * (n_heads * d)) by (nonlinear_arith);
}

pub proof fn lemma_rotated_rows<T, A: Arithmetic<T>>(
    y1: Seq<T>,
    r1: Seq<T>,
    m1: int,
    start1: int,
    i1: int,
    y2: Seq<T>,
    r2: Seq<T>,
    m2: int,
    start2: int,
    i2: int,
    n_heads: int,
    d: usize,
    theta: T,
)
    requires
        determined::<T, A>(),
        0 <= n_heads,
        0 <= start1,
        0 <= start2,
        0 <= i1 < m1,
        0 <= i2 < m2,
        start1 + i1 == start2 + i2,
        y1.len() == m1 * n_heads * d,
        y2.len() == m2 * n_heads * d,
        rotated::<T, A>(y1, m1 * n_heads, n_heads, d, start1, theta, r1),
        rotated::<T, A>(y2, m2 * n_heads, n_heads, d, start2, theta, r2),
        row(y1, n_heads * d, i1) == row(y2, n_heads * d, i2),
    ensures
        row(r1, n_heads * d, i1) == row(r2, n_heads * d, i2),
{
    law_rotation_depends_on_the_position::<T, A>(y1, m1, n_heads, d, start1, theta, r1, i1);
    law_rotation_depends_on_the_position::<T, A>(y2, m2, n_heads, d, start2, theta, r2, i2);
    lemma_token_rows_are_a_row(y1, n_heads, d as int, i1);
    lemma_token_rows_are_a_row(y2, n_heads, d as int, i2);
    lemma_token_rows_are_a_row(r1, n_heads, d as int, i1);
    lemma_token_rows_are_a_row(r2, n_heads, d as int, i2);
    lemma_token_rows(y1, m1, n_heads, d as int, i1);
    lemma_rotated::<T, A>(
        token_rows(y1, n_heads, d as int, i1),
        n_heads,
        n_heads,
        d,
        start1 + i1,
        theta,
        token_rows(r1, n_heads, d as int, i1),
        token_rows(r2, n_heads, d as int, i2),
    );
}

pub proof fn lemma_added_rows<T, A: Arithmetic<T>>(
    y1: Seq<T>,
    x1: Seq<T>,
    s1: Seq<T>,
    m1: int,
    i1: int,
    y2: Seq<T>,
    x2: Seq<T>,
    s2: Seq<T>,
    m2: int,
    i2: int,
    n: int,
)
    requires
        determined::<T, A>(),
        0 <= n,
        0 <= i1 < m1,
        0 <= i2 < m2,
        y1.len() == m1 * n,
        x1.len() == m1 * n,
        y2.len() == m2 * n,
        x2.len() == m2 * n,
        added::<T, A>(y1, x1, s1),
        added::<T, A>(y2, x2, s2),
        row(y1, n, i1) == row(y2, n, i2),
        row(x1, n, i1) == row(x2, n, i2),
    ensures
        row(s1, n, i1) == row(s2, n, i2),
{
    lemma_row_bound(m1, n, i1);
    lemma_row_bound(m2, n, i2);
    assert forall|j: int| 0 <= j < n implies row(s1, n, i1)[j] == row(s2, n, i2)[j] by {
        let a = i1 * n + j;
        let b = i2 * n + j;
        assert(row(y1, n, i1)[j] == y1[a] && row(y2, n, i2)[j] == y2[b]);
        assert(row(x1, n, i1)[j] == x1[a] && row(x2, n, i2)[j] == x2[b]);
        assert(plus::<T, A>(y1[a], x1[a], s1[a]));
        assert(plus::<T, A>(y2[b], x2[b], s2[b]));
    }
    assert(row(s1, n, i1) =~= row(s2, n, i2));
}

pub proof fn lemma_gated_rows<T, A: Arithmetic<T>>(
    y1: Seq<T>,
    x1: Seq<T>,
    s1: Seq<T>,
    m1: int,
    i1: int,
    y2: Seq<T>,
    x2: Seq<T>,
    s2: Seq<T>,
    m2: int,
    i2: int,
    n: int,
)
    requires
        determined::<T, A>(),
        0 <= n,
        0 <= i1 < m1,
        0 <= i2 < m2,
        y1.len() == m1 * n,
        x1.len() == m1 * n,
        y2.len() == m2 * n,
        x2.len() == m2 * n,
        gated::<T, A>(y1, x1, s1),
        gated::<T, A>(y2, x2, s2),
        row(y1, n, i1) == row(y2, n, i2),
        row(x1, n, i1) == row(x2, n, i2),
    ensures
        row(s1, n, i1) == row(s2, n, i2),
{
    lemma_row_bound(m1, n, i1);
    lemma_row_bound(m2, n, i2);
    assert forall|j: int| 0 <= j < n implies row(s1, n, i1)[j] == row(s2, n, i2)[j] by {
        let a = i1 * n + j;
        let b = i2 * n + j;
        assert(row(y1, n, i1)[j] == y1[a] && row(y2, n, i2)[j] == y2[b]);
        assert(row(x1, n, i1)[j] == x1[a] && row(x2, n, i2)[j] == x2[b]);
        assert(gated_by::<T, A>(y1[a], x1[a], s1[a]));
        assert(gated_by::<T, A>(y2[b], x2[b], s2[b]));
        lemma_gated_by::<T, A>(y1[a], x1[a], s1[a], s2[b]);
    }
    assert(row(s1, n, i1) =~= row(s2, n, i2));
}

/// The feed-forward block treats each row alone.
pub proof fn lemma_fed_forward_rows<T, A: Arithmetic<T> + Widen<T, T>>(
    d: int,
    di: int,
    w_up: Seq<T>,
    w_down: Seq<T>,
    w_gate: Seq<T>,
    rms_w: Seq<T>,
    eps: T,
    m1: int,
    i1: int,
    r1: Seq<T>,
    g1: Seq<T>,
    u1: Seq<T>,
    s1: Seq<T>,
    h1: Seq<T>,
    f1: Seq<T>,
    k1: Seq<T>,
    m2: int,
    i2: int,
    r2: Seq<T>,
    g2: Seq<T>,
    u2: Seq<T>,
    s2: Seq<T>,
    h2: Seq<T>,
    f2: Seq<T>,
    k2: Seq<T>,
)
    requires
        determined::<T, A>(),
        widening_determined::<T, T, A>(),
        all_replaceable::<T, A>(g1),
        all_replaceable::<T, A>(u1),
        all_replaceable::<T, A>(g2),
        all_replaceable::<T, A>(u2),
        forall|n: Seq<T>| #[trigger]
            normed::<T, A>(r1, rms_w, d, eps, n) ==> all_replaceable::<T, A>(n),
        forall|n: Seq<T>| #[trigger]
            normed::<T, A>(r2, rms_w, d, eps, n) ==> all_replaceable::<T, A>(n),
        0 < d,
        0 <= di,
        0 <= i1 < m1,
        0 <= i2 < m2,
        r1.len() == m1 * d,
        g1.len() == m1 * di,
        u1.len() == m1 * di,
        r2.len() == m2 * d,
        g2.len() == m2 * di,
        u2.len() == m2 * di,
        fed_forward::<T, A>(
            m1,
            d,
            di,
            w_up,
            w_down,
            w_gate,
            rms_w,
            eps,
            r1,
            g1,
            u1,
            s1,
            h1,
            f1,
            k1,
        ),
        fed_forward::<T, A>(
            m2,
            d,
            di,
            w_up,
            w_down,
            w_gate,
            rms_w,
            eps,
            r2,
            g2,
            u2,
            s2,
            h2,
            f2,
            k2,
        ),
        row(r1, d, i1) == row(r2, d, i2),
    ensures
        row(s1, d, i1) == row(s2, d, i2),
{
    let (z1, o1, n1, a1) = choose|z: T, o: T, n: Seq<T>, u: Seq<T>|
        is_zero::<T, A>(z) && is_one::<T, A>(o) && #[trigger] normed::<T, A>(r1, rms_w, d, eps, n)
            && multiplied::<T, T, A>(g1, z, n, w_gate, o, m1, d, di, f1)
            && #[trigger] multiplied::<T, T, A>(u1, z, n, w_up, o, m1, d, di, u) && gated::<T, A>(
            u,
            f1,
            k1,
        ) && multiplied::<T, T, A>(n, z, k1, w_down, o, m1, di, d, h1) && added::<T, A>(
            r1,
            h1,
            s1,
        );
    let (z2, o2, n2, a2) = choose|z: T, o: T, n: Seq<T>, u: Seq<T>|
        is_zero::<T, A>(z) && is_one::<T, A>(o) && #[trigger] normed::<T, A>(r2, rms_w, d, eps, n)
            && multiplied::<T, T, A>(g2, z, n, w_gate, o, m2, d, di, f2)
            && #[trigger] multiplied::<T, T, A>(u2, z, n, w_up, o, m2, d, di, u) && gated::<T, A>(
            u,
            f2,
            k2,
        ) && multiplied::<T, T, A>(n, z, k2, w_down, o, m2, di, d, h2) && added::<T, A>(
            r2,
            h2,
            s2,
        );
    assert(z1 == z2 && o1 == o2);
    lemma_normed_rows::<T, A>(r1, n1, m1, i1, r2, n2, m2, i2, rms_w, d, eps);
    lemma_multiplied_rows::<T, A>(
        g1,
        n1,
        f1,
        m1,
        i1,
        g2,
        n2,
        f2,
        m2,
        i2,
        z1,
        w_gate,
        o1,
        d,
        di,
    );
    lemma_multiplied_rows::<T, A>(
        u1,
        n1,
        a1,
        m1,
        i1,
        u2,
        n2,
        a2,
        m2,
        i2,
        z1,
        w_up,
        o1,
        d,
        di,
    );
    lemma_gated_rows::<T, A>(a1, f1, k1, m1, i1, a2, f2, k2, m2, i2, di);
    lemma_multiplied_rows::<T, A>(
        n1,
        k1,
        h1,
        m1,
        i1,
        n2,
        k2,
        h2,
        m2,
        i2,
        z1,
        w_down,
        o1,
        di,
        d,
    );
    lemma_added_rows::<T, A>(r1, h1, s1, m1, i1, r2, h2, s2, m2, i2, d);
}

/// The first `n` rows of length `dim` are the same.
pub open spec fn rows_agree<T>(s1: Seq<T>, s2: Seq<T>, dim: int, n: int) -> bool {
    forall|g: int| 0 <= g < n ==> #[trigger] row(s1, dim, g) == row(s2, dim, g)
}

/// Where rows are overwritten, the new ones are found; the rows before them are left.
pub proof fn lemma_overwritten_rows<T>(
    s: Seq<T>,
    m: int,
    dim: int,
    past: int,
    values: Seq<T>,
    n: int,
)
    requires
        0 <= dim,
        0 <= past,
        0 <= n,
        past + n <= m,
        s.len() == m * dim,
        values.len() == n * dim,
    ensures
        overwritten(s, past * dim, values).len() == s.len(),
        rows_agree(overwritten(s, past * dim, values), s, dim, past),
        forall|i: int|
            0 <= i < n ==> row(overwritten(s, past * dim, values), dim, past + i) == #[trigger] row(
                values,
                dim,
                i,
            ),
{
    let after = overwritten(s, past * dim, values);
    let from = past * dim;
    assert(0 <= from && from + n * dim == (past + n) * dim && (past + n) * dim <= m * dim)
        by (nonlinear_arith)
        requires
            from == past * dim,
            0 <= dim,
            0 <= past,
            past + n <= m,
    ;
    assert forall|g: int| 0 <= g < past implies #[trigger] row(after, dim, g) == row(
        s,
        dim,
        g,
    ) by {
        lemma_row_bound(past, dim, g);
        assert(row(after, dim, g) =~= row(s, dim, g));
    }
    assert forall|i: int| 0 <= i < n implies row(after, dim, past + i) == #[trigger] row(
        values,
        dim,
        i,
    ) by {
        lemma_row_bound(n, dim, i);
        assert((past + i) * dim == from + i * dim) by (nonlinear_arith)
            requires
                from == past * dim,
        ;
        assert(row(after, dim, past + i) =~= row(values, dim, i));
    }
}

/// The vector of a head is a part of the row of its position.
pub proof fn lemma_head_of_row<T>(s: Seq<T>, m: int, heads: int, d: int, i: int, h: int)
    requires
        0 <= i < m,
        0 <= h < heads,
        0 <= d,
        m * (heads * d) <= s.len(),
    ensures
        head_vector(s, d, heads, i, h) == row(s, heads * d, i).subrange(h * d, h * d + d),
{
    lemma_row_bound(heads, d, h);
    lemma_row_bound(m, heads * d, i);
    assert((i * heads + h) * d == i * (heads * d) + h * d) by (nonlinear_arith);
    assert(head_vector(s, d, heads, i, h) =~= row(s, heads * d, i).subrange(h * d, h * d + d));
}

/// Positions whose rows are the same agree.
pub proof fn lemma_positions_of_rows<T>(
    s1: Seq<T>,
    s2: Seq<T>,
    heads: int,
    d: int,
    n: int,
)
    requires
        0 <= d,
        n * (heads * d) <= s1.len(),
        n * (heads * d) <= s2.len(),
        rows_agree(s1, s2, heads * d, n),
    ensures
        positions_agree(s1, s2, heads, d, n),
{
    assert forall|j: int, h: int| 0 <= j < n && 0 <= h < heads implies #[trigger] head_vector(
        s1,
        d,
        heads,
        j,
        h,
    ) == head_vector(s2, d, heads, j, h) by {
        assert(row(s1, heads * d, j) == row(s2, heads * d, j));
        lemma_head_of_row(s1, n, heads, d, j, h);
        lemma_head_of_row(s2, n, heads, d, j, h);
    }
    assert forall|j: int, h: int, p: int|
        0 <= j < n && 0 <= h < heads && 0 <= p < d implies #[trigger] at(s1, d, j * heads + h, p)
        == at(s2, d, j * heads + h, p) by {
        assert(row(s1, heads * d, j) == row(s2, heads * d, j));
        lemma_head_of_row(s1, n, heads, d, j, h);
        lemma_head_of_row(s2, n, heads, d, j, h);
        lemma_row_bound(heads, d, h);
        lemma_row_bound(n, heads * d, j);
        assert((j * heads + h) * d == j * (heads * d) + h * d) by (nonlinear_arith);
        assert(head_vector(s1, d, heads, j, h)[p] == at(s1, d, j * heads + h, p));
        assert(head_vector(s2, d, heads, j, h)[p] == at(s2, d, j * heads + h, p));
    }
}

/// Rows whose vectors are the same are the same.
pub proof fn lemma_row_of_heads<T>(
    s1: Seq<T>,
    m1: int,
    i1: int,
    s2: Seq<T>,
    m2: int,
    i2: int,
    heads: int,
    d: int,
)
    requires
        0 <= heads,
        0 <= d,
        0 <= i1 < m1,
        0 <= i2 < m2,
        m1 * (heads * d) <= s1.len(),
        m2 * (heads * d) <= s2.len(),
        forall|h: int|
            0 <= h < heads ==> #[trigger] row(s1, d, i1 * heads + h) == row(
                s2,
                d,
                i2 * heads + h,
            ),
    ensures
        row(s1, heads * d, i1) == row(s2, heads * d, i2),
{
    assert(0 <= heads * d) by (nonlinear_arith)
        requires
            0 <= heads,
            0 <= d,
    ;
    lemma_row_bound(m1, heads * d, i1);
    lemma_row_bound(m2, heads * d, i2);
    let r1 = row(s1, heads * d, i1);
    let r2 = row(s2, heads * d, i2);
    assert forall|x: int| 0 <= x < heads * d implies r1[x] == r2[x] by {
        lemma_place(heads, d, x);
        let h = x / d;
        let p = x % d;
        lemma_head_of_row(s1, m1, heads, d, i1, h);
        lemma_head_of_row(s2, m2, heads, d, i2, h);
        lemma_row_bound(heads, d, h);
        assert(row(s1, d, i1 * heads + h) == row(s2, d, i2 * heads + h));
        assert(r1.subrange(h * d, h * d + d)[p] == r1[x]);
        assert(r2.subrange(h * d, h * d + d)[p] == r2[x]);
    }
    assert(r1 =~= r2);
}

/// A run of a layer: what goes in, what comes out, and what is computed on the way.
pub struct LayerRun<T> {
    pub n: int,
    pub past: int,
    pub keys0: Seq<T>,
    pub values0: Seq<T>,
    pub b0: Buffers<T>,
    pub keys1: Seq<T>,
    pub values1: Seq<T>,
    pub b1: Buffers<T>,
    pub t: LayerTrace<T>,
}

impl<T> LayerRun<T> {
    /// The new positions of this run are among those of the other.
    pub open spec fn within(self, other: LayerRun<T>) -> bool {
        other.past <= self.past && self.past + self.n <= other.past + other.n
    }

    /// Where position `i` of this run stands among the new positions of the other.
    pub open spec fn in_other(self, other: LayerRun<T>, i: int) -> int {
        i + self.past - other.past
    }
}

impl<T> Llama<T> {
    /// The outputs of all query heads fill the rows of the hidden states.
    pub open spec fn heads_fill_rows(&self) -> bool {
        self.n_kv_h * self.groups() * self.dqkv == self.d
    }

    /// This is a run of layer `l`.
    pub open spec fn is_run<A: Arithmetic<T> + Widen<T, T>>(
        &self,
        l: int,
        x: LayerRun<T>,
    ) -> bool where T: Default {
        &&& self.positions_fit(x.past, x.n)
        &&& x.keys0.len() == self.max_seq_len * self.kv_len()
        &&& x.values0.len() == self.max_seq_len * self.kv_len()
        &&& self.buffers_fit(x.b0, x.n)
        &&& self.layer_steps::<A>(
            l,
            x.n,
            x.past,
            x.keys0,
            x.values0,
            x.b0,
            x.keys1,
            x.values1,
            x.b1,
            x.t,
        )
    }
}

impl<T> Llama<T> {
    /// Nothing that this run of layer `l` computes with stands in the way of a product: new
    /// products can be stored in place of what the buffers hold, and values with the weight 0 add
    /// nothing.
    pub open spec fn run_is_tame<A: Arithmetic<T> + Widen<T, T>>(
        &self,
        l: int,
        x: LayerRun<T>,
    ) -> bool where T: Default {
        let from = x.past * self.kv_len();
        let to = (x.past + x.n) * self.kv_len();
        &&& all_replaceable::<T, A>(x.b0.q)
        &&& all_replaceable::<T, A>(x.b0.gate)
        &&& all_replaceable::<T, A>(x.b0.up)
        &&& all_replaceable::<T, A>(x.keys0.subrange(from, to))
        &&& all_replaceable::<T, A>(x.values0.subrange(from, to))
        &&& all_replaceable::<T, A>(x.t.blank)
        &&& forall|n: Seq<T>| #[trigger]
            normed::<T, A>(
                x.t.residual,
                self.params.rms_ffn_w@[l].data@,
                self.d as int,
                self.eps,
                n,
            ) ==> all_replaceable::<T, A>(n)
        &&& all_ignored::<T, A>(x.t.v)
    }

    /// This run of layer `l` adds nothing to the residual of the last position if the projections
    /// that lead back to it are 0: for that position, products with 0 are 0, new ones can be
    /// stored in place of what the buffers hold, and the residual is unmoved by 0.
    pub open spec fn run_adds_nothing<A: Arithmetic<T> + Widen<T, T>>(
        &self,
        l: int,
        x: LayerRun<T>,
    ) -> bool where T: Default {
        let d = self.d as int;
        let i = x.n - 1;
        &&& all_annihilated::<T, A>(row(x.t.attended, d, i))
        &&& all_annihilated::<T, A>(row(x.b1.up, self.di as int, i))
        &&& all_replaceable::<T, A>(row(x.t.blank, d, i))
        &&& forall|n: Seq<T>| #[trigger]
            normed::<T, A>(x.t.residual, self.params.rms_ffn_w@[l].data@, d, self.eps, n)
                ==> all_replaceable::<T, A>(row(n, d, i))
        &&& all_unmoved::<T, A>(row(x.b0.residual, d, i))
    }
}

/// Where the outputs of the query heads fill the rows, the heads are grouped without a remainder.
proof fn lemma_heads_fill_rows<T>(model: &Llama<T>)
    requires
        model.consistent(),
        model.n_layers > 0,
        model.heads_fill_rows(),
    ensures
        model.q_len() == model.d,
        model.n_kv_h * model.groups() * model.dqkv == model.q_len(),
{
    if model.max_seq_len > 0 {
        lemma_layer_sizes(model, 1, 0);
        assert(1 * (model.n_kv_h * model.groups()) * model.dqkv == model.n_kv_h * model.groups()
            * model.dqkv);
        assert(1 * model.q_len() == model.q_len());
    } else {
        lemma_layer_sizes(model, 0, 0);
        let h = model.n_kv_h * model.groups();
        let q = model.n_q_h as int;
        let k = model.dqkv as int;
        assert(h * k <= q * k) by (nonlinear_arith)
            requires
                h <= q,
                0 <= k,
        ;
    }
}

/// Queries, keys and values of a position depend on its hidden state and on where it stands.
proof fn lemma_projections<T: Default, A: Arithmetic<T> + Widen<T, T>>(
    model: &Llama<T>,
    l: int,
    x: LayerRun<T>,
    y: LayerRun<T>,
    i: int,
)
    requires
        determined::<T, A>(),
        widening_determined::<T, T, A>(),
        model.run_is_tame::<A>(l, x),
        model.run_is_tame::<A>(l, y),
        model.consistent(),
        0 <= l < model.n_layers,
        model.is_run::<A>(l, x),
        model.is_run::<A>(l, y),
        x.within(y),
        0 <= i < x.n,
        row(x.b0.residual, model.d as int, i) == row(
            y.b0.residual,
            model.d as int,
            x.in_other(y, i),
        ),
    ensures
        row(x.b1.q, model.q_len(), i) == row(y.b1.q, model.q_len(), x.in_other(y, i)),
        row(x.t.turned_k, model.kv_len(), i) == row(
            y.t.turned_k,
            model.kv_len(),
            x.in_other(y, i),
        ),
        row(x.t.v, model.kv_len(), i) == row(y.t.v, model.kv_len(), x.in_other(y, i)),
{
    let j = x.in_other(y, i);
    let p = model.params;
    let d = model.d as int;
    let dim = model.kv_len();
    lemma_layer_fits::<T, A>(
        model,
        l,
        x.n,
        x.past,
        x.keys0,
        x.values0,
        x.b0,
        x.keys1,
        x.values1,
        x.b1,
        x.t,
    );
    lemma_layer_fits::<T, A>(
        model,
        l,
        y.n,
        y.past,
        y.keys0,
        y.values0,
        y.b0,
        y.keys1,
        y.values1,
        y.b1,
        y.t,
    );
    lemma_layer_sizes(model, x.n, x.past);
    lemma_layer_sizes(model, y.n, y.past);
    assert(x.t.zero == y.t.zero && x.t.one == y.t.one) by {
        assert(is_zero::<T, A>(x.t.zero) && is_zero::<T, A>(y.t.zero));
        assert(is_one::<T, A>(x.t.one) && is_one::<T, A>(y.t.one));
    }
    let z = x.t.zero;
    let o = x.t.one;
    lemma_normed_rows::<T, A>(
        x.b0.residual,
        x.t.normed,
        x.n,
        i,
        y.b0.residual,
        y.t.normed,
        y.n,
        j,
        p.rms_att_w@[l].data@,
        d,
        model.eps,
    );
    lemma_multiplied_rows::<T, A>(
        x.b0.q,
        x.t.normed,
        x.t.q,
        x.n,
        i,
        y.b0.q,
        y.t.normed,
        y.t.q,
        y.n,
        j,
        z,
        p.wq@[l].data@,
        o,
        d,
        model.q_len(),
    );
    lemma_multiplied_rows::<T, A>(
        x.keys0.subrange(x.past * dim, (x.past + x.n) * dim),
        x.t.normed,
        x.t.k,
        x.n,
        i,
        y.keys0.subrange(y.past * dim, (y.past + y.n) * dim),
        y.t.normed,
        y.t.k,
        y.n,
        j,
        z,
        p.wk@[l].data@,
        o,
        d,
        dim,
    );
    lemma_multiplied_rows::<T, A>(
        x.values0.subrange(x.past * dim, (x.past + x.n) * dim),
        x.t.normed,
        x.t.v,
        x.n,
        i,
        y.values0.subrange(y.past * dim, (y.past + y.n) * dim),
        y.t.normed,
        y.t.v,
        y.n,
        j,
        z,
        p.wv@[l].data@,
        o,
        d,
        dim,
    );
    lemma_rotated_rows::<T, A>(
        x.t.q,
        x.b1.q,
        x.n,
        x.past,
        i,
        y.t.q,
        y.b1.q,
        y.n,
        y.past,
        j,
        model.n_q_h as int,
        model.dqkv,
        model.rope_theta,
    );
    lemma_rotated_rows::<T, A>(
        x.t.k,
        x.t.turned_k,
        x.n,
        x.past,
        i,
        y.t.k,
        y.t.turned_k,
        y.n,
        y.past,
        j,
        model.n_kv_h as int,
        model.dqkv,
        model.rope_theta,
    );
}

/// The stored keys and values agree up to the end of the shorter run.
proof fn lemma_stored<T: Default, A: Arithmetic<T> + Widen<T, T>>(
    model: &Llama<T>,
    l: int,
    x: LayerRun<T>,
    y: LayerRun<T>,
)
    requires
        determined::<T, A>(),
        widening_determined::<T, T, A>(),
        model.run_is_tame::<A>(l, x),
        model.run_is_tame::<A>(l, y),
        model.consistent(),
        0 <= l < model.n_layers,
        model.is_run::<A>(l, x),
        model.is_run::<A>(l, y),
        x.within(y),
        forall|i: int|
            0 <= i < x.n ==> #[trigger] row(x.b0.residual, model.d as int, i) == row(
                y.b0.residual,
                model.d as int,
                x.in_other(y, i),
            ),
        rows_agree(x.keys1, y.keys1, model.kv_len(), x.past),
        rows_agree(x.values1, y.values1, model.kv_len(), x.past),
    ensures
        x.keys1.len() == x.keys0.len(),
        x.values1.len() == x.values0.len(),
        y.keys1.len() == y.keys0.len(),
        y.values1.len() == y.values0.len(),
        rows_agree(x.keys1, y.keys1, model.kv_len(), x.past + x.n),
        rows_agree(x.values1, y.values1, model.kv_len(), x.past + x.n),
{
    let dim = model.kv_len();
    lemma_layer_fits::<T, A>(
        model,
        l,
        x.n,
        x.past,
        x.keys0,
        x.values0,
        x.b0,
        x.keys1,
        x.values1,
        x.b1,
        x.t,
    );
    lemma_layer_fits::<T, A>(
        model,
        l,
        y.n,
        y.past,
        y.keys0,
        y.values0,
        y.b0,
        y.keys1,
        y.values1,
        y.b1,
        y.t,
    );
    lemma_layer_sizes(model, x.n, x.past);
    let m = model.max_seq_len as int;
    lemma_overwritten_rows(x.keys0, m, dim, x.past, x.t.turned_k, x.n);
    lemma_overwritten_rows(y.keys0, m, dim, y.past, y.t.turned_k, y.n);
    lemma_overwritten_rows(x.values0, m, dim, x.past, x.t.v, x.n);
    lemma_overwritten_rows(y.values0, m, dim, y.past, y.t.v, y.n);
    assert forall|g: int| 0 <= g < x.past + x.n implies #[trigger] row(x.keys1, dim, g) == row(
        y.keys1,
        dim,
        g,
    ) by {
        if g >= x.past {
            let i = g - x.past;
            assert(row(x.b0.residual, model.d as int, i) == row(
                y.b0.residual,
                model.d as int,
                x.in_other(y, i),
            ));
            lemma_projections::<T, A>(model, l, x, y, i);
            assert(row(x.keys1, dim, x.past + i) == row(x.t.turned_k, dim, i));
            let j = x.in_other(y, i);
            assert(row(y.keys1, dim, y.past + j) == row(y.t.turned_k, dim, j));
        }
    }
    assert forall|g: int| 0 <= g < x.past + x.n implies #[trigger] row(x.values1, dim, g) == row(
        y.values1,
        dim,
        g,
    ) by {
        if g >= x.past {
            let i = g - x.past;
            assert(row(x.b0.residual, model.d as int, i) == row(
                y.b0.residual,
                model.d as int,
                x.in_other(y, i),
            ));
            lemma_projections::<T, A>(model, l, x, y, i);
            assert(row(x.values1, dim, x.past + i) == row(x.t.v, dim, i));
            let j = x.in_other(y, i);
            assert(row(y.values1, dim, y.past + j) == row(y.t.v, dim, j));
        }
    }
}

/// A value of a new position is one of those that were just computed.
proof fn lemma_new_value<T: Default, A: Arithmetic<T> + Widen<T, T>>(
    model: &Llama<T>,
    l: int,
    x: LayerRun<T>,
    a: int,
    kv: int,
    p: int,
)
    requires
        model.consistent(),
        model.is_run::<A>(l, x),
        model.run_is_tame::<A>(l, x),
        x.past <= a < x.past + x.n,
        0 <= kv < model.n_kv_h,
        0 <= p < model.dqkv,
    ensures
        ignored::<T, A>(at(x.values1, model.dqkv as int, a * model.n_kv_h + kv, p)),
{
    lemma_layer_fits::<T, A>(
        model,
        l,
        x.n,
        x.past,
        x.keys0,
        x.values0,
        x.b0,
        x.keys1,
        x.values1,
        x.b1,
        x.t,
    );
    let heads = model.n_kv_h as int;
    let d = model.dqkv as int;
    let dim = model.kv_len();
    let i = a - x.past;
    lemma_flat_bound(heads, d, kv, p);
    lemma_flat_bound(x.n, dim, i, kv * d + p);
    let place = i * dim + kv * d + p;
    assert((a * heads + kv) * d + p == x.past * dim + place) by (nonlinear_arith)
        requires
            dim == heads * d,
            i == a - x.past,
            place == i * dim + kv * d + p,
    ;
    assert(x.values1[x.past * dim + place] == x.t.v[place]);
    assert(ignored::<T, A>(x.t.v[place]));
}

/// The attention output of a position depends on its query and on the keys and values up to it.
proof fn lemma_attention_row<T: Default, A: Arithmetic<T> + Widen<T, T>>(
    model: &Llama<T>,
    l: int,
    x: LayerRun<T>,
    y: LayerRun<T>,
    i: int,
)
    requires
        determined::<T, A>(),
        model.run_is_tame::<A>(l, x),
        model.run_is_tame::<A>(l, y),
        model.consistent(),
        model.heads_fill_rows(),
        0 <= l < model.n_layers,
        model.is_run::<A>(l, x),
        model.is_run::<A>(l, y),
        x.within(y),
        0 <= i < x.n,
        row(x.b1.q, model.q_len(), i) == row(y.b1.q, model.q_len(), x.in_other(y, i)),
        rows_agree(x.keys1, y.keys1, model.kv_len(), x.past + x.n),
        rows_agree(x.values1, y.values1, model.kv_len(), x.past + x.n),
    ensures
        row(x.t.attended, model.d as int, i) == row(
            y.t.attended,
            model.d as int,
            x.in_other(y, i),
        ),
{
    let j = x.in_other(y, i);
    lemma_layer_fits::<T, A>(
        model,
        l,
        x.n,
        x.past,
        x.keys0,
        x.values0,
        x.b0,
        x.keys1,
        x.values1,
        x.b1,
        x.t,
    );
    lemma_layer_fits::<T, A>(
        model,
        l,
        y.n,
        y.past,
        y.keys0,
        y.values0,
        y.b0,
        y.keys1,
        y.values1,
        y.b1,
        y.t,
    );
    lemma_layer_sizes(model, x.n, x.past);
    lemma_layer_sizes(model, y.n, y.past);
    lemma_heads_fill_rows(model);
    let dims1 = model.heads(x.n, x.past + x.n);
    let dims2 = model.heads(y.n, y.past + y.n);
    let heads = dims1.queries();
    let d = dims1.dqkv;
    let n_kv_h = dims1.n_kv_h;
    let n = dims1.seen(i);
    let m = model.max_seq_len as int;
    assert(n * (n_kv_h * d) <= m * (n_kv_h * d)) by (nonlinear_arith)
        requires
            n <= m,
            0 <= n_kv_h * d,
    ;
    assert(rows_agree(x.keys1, y.keys1, n_kv_h * d, n));
    assert(rows_agree(x.values1, y.values1, n_kv_h * d, n));
    lemma_positions_of_rows(x.keys1, y.keys1, n_kv_h, d, n);
    lemma_positions_of_rows(x.values1, y.values1, n_kv_h, d, n);
    assert forall|h: int| 0 <= h < heads implies #[trigger] row(x.t.attended, d, i * heads + h)
        == row(y.t.attended, d, j * heads + h) by {
        lemma_head_of_row(x.b1.q, x.n, heads, d, i, h);
        lemma_head_of_row(y.b1.q, y.n, heads, d, j, h);
        assert forall|a: int, kv: int, p: int|
            dims1.seen(i) <= a < dims1.total && 0 <= kv < dims1.n_kv_h && 0 <= p < dims1.dqkv
            implies ignored::<T, A>(
            #[trigger] at(x.values1, dims1.dqkv, a * dims1.n_kv_h + kv, p),
        ) by {
            lemma_new_value::<T, A>(model, l, x, a, kv, p);
        }
        assert forall|a: int, kv: int, p: int|
            dims2.seen(j) <= a < dims2.total && 0 <= kv < dims2.n_kv_h && 0 <= p < dims2.dqkv
            implies ignored::<T, A>(
            #[trigger] at(y.values1, dims2.dqkv, a * dims2.n_kv_h + kv, p),
        ) by {
            lemma_new_value::<T, A>(model, l, y, a, kv, p);
        }
        lemma_attended_row::<T, A>(
            x.b1.q,
            x.keys1,
            x.values1,
            dims1,
            x.t.att,
            x.t.normed,
            x.t.attended,
            i,
            y.b1.q,
            y.keys1,
            y.values1,
            dims2,
            y.t.att,
            y.t.normed,
            y.t.attended,
            j,
            h,
        );
    }
    lemma_row_of_heads(x.t.attended, x.n, i, y.t.attended, y.n, j, heads, d);
}

/// What a layer computes for a position depends on the positions up to it.
proof fn lemma_layer_rows<T: Default, A: Arithmetic<T> + Widen<T, T>>(
    model: &Llama<T>,
    l: int,
    x: LayerRun<T>,
    y: LayerRun<T>,
)
    requires
        all_determined::<T, A>(),
        model.run_is_tame::<A>(l, x),
        model.run_is_tame::<A>(l, y),
        model.consistent(),
        model.heads_fill_rows(),
        0 <= l < model.n_layers,
        model.is_run::<A>(l, x),
        model.is_run::<A>(l, y),
        x.within(y),
        forall|i: int|
            0 <= i < x.n ==> #[trigger] row(x.b0.residual, model.d as int, i) == row(
                y.b0.residual,
                model.d as int,
                x.in_other(y, i),
            ),
        rows_agree(x.keys1, y.keys1, model.kv_len(), x.past),
        rows_agree(x.values1, y.values1, model.kv_len(), x.past),
    ensures
        model.buffers_fit(x.b1, x.n),
        model.buffers_fit(y.b1, y.n),
        rows_agree(x.keys1, y.keys1, model.kv_len(), x.past + x.n),
        rows_agree(x.values1, y.values1, model.kv_len(), x.past + x.n),
        forall|i: int|
            0 <= i < x.n ==> #[trigger] row(x.b1.residual, model.d as int, i) == row(
                y.b1.residual,
                model.d as int,
                x.in_other(y, i),
            ),
{
    reveal(all_determined);
    lemma_layer_fits::<T, A>(
        model,
        l,
        x.n,
        x.past,
        x.keys0,
        x.values0,
        x.b0,
        x.keys1,
        x.values1,
        x.b1,
        x.t,
    );
    lemma_layer_fits::<T, A>(
        model,
        l,
        y.n,
        y.past,
        y.keys0,
        y.values0,
        y.b0,
        y.keys1,
        y.values1,
        y.b1,
        y.t,
    );
    let p = model.params;
    let d = model.d as int;
    lemma_stored::<T, A>(model, l, x, y);
    assert(x.t.zero == y.t.zero && x.t.one == y.t.one) by {
        assert(is_zero::<T, A>(x.t.zero) && is_zero::<T, A>(y.t.zero));
        assert(is_one::<T, A>(x.t.one) && is_one::<T, A>(y.t.one));
    }
    assert forall|i: int| 0 <= i < x.n implies #[trigger] row(x.b1.residual, d, i) == row(
        y.b1.residual,
        d,
        x.in_other(y, i),
    ) by {
        let j = x.in_other(y, i);
        assert(row(x.b0.residual, d, i) == row(y.b0.residual, d, j));
        lemma_projections::<T, A>(model, l, x, y, i);
        lemma_attention_row::<T, A>(model, l, x, y, i);
        lemma_multiplied_rows::<T, A>(
            x.t.blank,
            x.t.attended,
            x.t.projected,
            x.n,
            i,
            y.t.blank,
            y.t.attended,
            y.t.projected,
            y.n,
            j,
            x.t.zero,
            p.wo@[l].data@,
            x.t.one,
            d,
            d,
        );
        lemma_added_rows::<T, A>(
            x.b0.residual,
            x.t.projected,
            x.t.residual,
            x.n,
            i,
            y.b0.residual,
            y.t.projected,
            y.t.residual,
            y.n,
            j,
            d,
        );
        lemma_fed_forward_rows::<T, A>(
            d,
            model.di as int,
            p.w_up@[l].data@,
            p.w_down@[l].data@,
            p.w_gate@[l].data@,
            p.rms_ffn_w@[l].data@,
            model.eps,
            x.n,
            i,
            x.t.residual,
            x.b0.gate,
            x.b0.up,
            x.b1.residual,
            x.t.gained,
            x.b1.gate,
            x.b1.up,
            y.n,
            j,
            y.t.residual,
            y.b0.gate,
            y.b0.up,
            y.b1.residual,
            y.t.gained,
            y.b1.gate,
            y.b1.up,
        );
    }
}

/// A pass through the model: what goes in, what comes out, and what is computed on the way.
pub struct Pass<T> {
    pub tokens: Seq<u32>,
    pub c0: KVCache<T>,
    pub c1: KVCache<T>,
    pub t: PassTrace<T>,
    pub logits: Seq<T>,
}

impl<T> Pass<T> {
    /// The tokens of this pass are the tokens of the other at the same positions.
    pub open spec fn part_of(self, other: Pass<T>) -> bool {
        let offset = self.c0.length - other.c0.length;
        &&& 0 <= offset
        &&& offset + self.tokens.len() <= other.tokens.len()
        &&& forall|i: int|
            0 <= i < self.tokens.len() ==> #[trigger] self.tokens[i] == other.tokens[i + offset]
    }
}

/// The first `n` rows that two caches hold for each layer are the same.
pub open spec fn caches_agree<T>(a: KVCache<T>, b: KVCache<T>, dim: int, n: int) -> bool {
    &&& forall|l: int|
        0 <= l < a.k_cache@.len() ==> rows_agree(#[trigger] a.keys(l), b.keys(l), dim, n)
    &&& forall|l: int|
        0 <= l < a.k_cache@.len() ==> rows_agree(#[trigger] a.values(l), b.values(l), dim, n)
}

impl<T> Llama<T> {
    /// This is a pass through the model.
    pub open spec fn is_pass<A: Arithmetic<T> + Widen<T, T>>(&self, x: Pass<T>) -> bool where
        T: Default,
     {
        &&& self.owns(x.c0)
        &&& self.owns(x.c1)
        &&& self.accepts(x.tokens, x.c0)
        &&& self.pass_steps::<A>(x.tokens, x.c0, x.c1, x.t, x.logits)
    }

    /// `run` can be the run of layer `l` in the pass.
    pub open spec fn has_run<A: Arithmetic<T> + Widen<T, T>>(
        &self,
        x: Pass<T>,
        l: int,
        run: LayerRun<T>,
    ) -> bool where T: Default {
        &&& self.is_run::<A>(l, run)
        &&& run.n == x.tokens.len()
        &&& run.past == x.c0.length
        &&& run.keys0 == x.c0.keys(l)
        &&& run.values0 == x.c0.values(l)
        &&& run.b0 == x.t.buffers[l]
        &&& run.keys1 == x.c1.keys(l)
        &&& run.values1 == x.c1.values(l)
        &&& run.b1 == x.t.buffers[l + 1]
    }

    /// Nothing that the pass computes with stands in the way of a product.
    pub open spec fn pass_is_tame<A: Arithmetic<T> + Widen<T, T>>(&self, x: Pass<T>) -> bool where
        T: Default,
     {
        forall|l: int, run: LayerRun<T>|
            0 <= l < self.n_layers && #[trigger] self.has_run::<A>(x, l, run)
                ==> self.run_is_tame::<A>(l, run)
    }

    /// The layers of the pass add nothing to the residual of the last position if the projections
    /// that lead back to it are 0.
    pub open spec fn pass_adds_nothing<A: Arithmetic<T> + Widen<T, T>>(
        &self,
        x: Pass<T>,
    ) -> bool where T: Default {
        forall|l: int, run: LayerRun<T>|
            0 <= l < self.n_layers && #[trigger] self.has_run::<A>(x, l, run)
                ==> self.run_adds_nothing::<A>(l, run)
    }
}

/// The run of layer `l` in a pass.
proof fn lemma_run<T: Default, A: Arithmetic<T> + Widen<T, T>>(
    model: &Llama<T>,
    x: Pass<T>,
    l: int,
) -> (run: LayerRun<T>)
    requires
        model.consistent(),
        model.is_pass::<A>(x),
        0 <= l < model.n_layers,
        model.buffers_fit(x.t.buffers[l], x.tokens.len() as int),
    ensures
        model.has_run::<A>(x, l, run),
{
    let n = x.tokens.len() as int;
    let past = x.c0.length as int;
    assert(x.c0.fits(x.c0.k_cache@[l]) && x.c0.fits(x.c0.v_cache@[l]));
    assert(model.layer_done::<A>(
        l,
        n,
        past,
        x.c0.keys(l),
        x.c0.values(l),
        x.t.buffers[l],
        x.c1.keys(l),
        x.c1.values(l),
        x.t.buffers[l + 1],
    ));
    let t = choose|t: LayerTrace<T>| #[trigger]
        model.layer_steps::<A>(
            l,
            n,
            past,
            x.c0.keys(l),
            x.c0.values(l),
            x.t.buffers[l],
            x.c1.keys(l),
            x.c1.values(l),
            x.t.buffers[l + 1],
            t,
        );
    LayerRun {
        n,
        past,
        keys0: x.c0.keys(l),
        values0: x.c0.values(l),
        b0: x.t.buffers[l],
        keys1: x.c1.keys(l),
        values1: x.c1.values(l),
        b1: x.t.buffers[l + 1],
        t,
    }
}

/// The first `k` layers of two passes agree on the positions that they share.
proof fn lemma_shared_layers<T: Default, A: Arithmetic<T> + Widen<T, T>>(
    model: &Llama<T>,
    x: Pass<T>,
    y: Pass<T>,
    k: int,
)
    requires
        all_determined::<T, A>(),
        model.pass_is_tame::<A>(x),
        model.pass_is_tame::<A>(y),
        model.consistent(),
        model.heads_fill_rows(),
        model.is_pass::<A>(x),
        model.is_pass::<A>(y),
        x.part_of(y),
        caches_agree(x.c1, y.c1, model.kv_len(), x.c0.length as int),
        0 <= k <= model.n_layers,
    ensures
        model.buffers_fit(x.t.buffers[k], x.tokens.len() as int),
        model.buffers_fit(y.t.buffers[k], y.tokens.len() as int),
        forall|i: int|
            0 <= i < x.tokens.len() ==> #[trigger] row(
                x.t.buffers[k].residual,
                model.d as int,
                i,
            ) == row(
                y.t.buffers[k].residual,
                model.d as int,
                i + x.c0.length - y.c0.length,
            ),
        forall|l: int|
            0 <= l < k ==> rows_agree(
                #[trigger] x.c1.keys(l),
                y.c1.keys(l),
                model.kv_len(),
                x.c0.length + x.tokens.len(),
            ),
        forall|l: int|
            0 <= l < k ==> rows_agree(
                #[trigger] x.c1.values(l),
                y.c1.values(l),
                model.kv_len(),
                x.c0.length + x.tokens.len(),
            ),
    decreases k,
{
    let d = model.d as int;
    let offset = x.c0.length - y.c0.length;
    if k == 0 {
        let table = model.params.embedding_table.data@;
        let r1 = x.t.buffers[0].residual;
        let r2 = y.t.buffers[0].residual;
        assert forall|i: int| 0 <= i < x.tokens.len() implies #[trigger] row(r1, d, i) == row(
            r2,
            d,
            i + offset,
        ) by {
            assert(x.tokens[i] == y.tokens[i + offset]);
            lemma_gathered_row::<T, A>(x.tokens, r1, i, y.tokens, r2, i + offset, table, d);
        }
    } else {
        let l = k - 1;
        lemma_shared_layers::<T, A>(model, x, y, l);
        let a = lemma_run::<T, A>(model, x, l);
        let b = lemma_run::<T, A>(model, y, l);
        assert(rows_agree(x.c1.keys(l), y.c1.keys(l), model.kv_len(), x.c0.length as int));
        assert(rows_agree(x.c1.values(l), y.c1.values(l), model.kv_len(), x.c0.length as int));
        assert forall|i: int| 0 <= i < a.n implies #[trigger] row(a.b0.residual, d, i) == row(
            b.b0.residual,
            d,
            a.in_other(b, i),
        ) by {
            assert(row(x.t.buffers[l].residual, d, i) == row(
                y.t.buffers[l].residual,
                d,
                i + x.c0.length - y.c0.length,
            ));
        }
        lemma_layer_rows::<T, A>(model, l, a, b);
        assert forall|i: int| 0 <= i < x.tokens.len() implies #[trigger] row(
            x.t.buffers[k].residual,
            d,
            i,
        ) == row(y.t.buffers[k].residual, d, i + x.c0.length - y.c0.length) by {
            assert(row(a.b1.residual, d, i) == row(b.b1.residual, d, a.in_other(b, i)));
        }
    }
}

/// The embeddings of the same token are the same.
proof fn lemma_gathered_row<T: Default, A: Arithmetic<T> + Widen<T, T>>(
    tokens1: Seq<u32>,
    y1: Seq<T>,
    i1: int,
    tokens2: Seq<u32>,
    y2: Seq<T>,
    i2: int,
    table: Seq<T>,
    d: int,
)
    requires
        all_determined::<T, A>(),
        0 <= d,
        0 <= i1 < tokens1.len(),
        0 <= i2 < tokens2.len(),
        tokens1[i1] == tokens2[i2],
        gathered::<T, T, A>(tokens1, table, d, y1),
        gathered::<T, T, A>(tokens2, table, d, y2),
    ensures
        row(y1, d, i1) == row(y2, d, i2),
{
    reveal(all_determined);
    lemma_row_bound(tokens1.len() as int, d, i1);
    lemma_row_bound(tokens2.len() as int, d, i2);
    assert forall|j: int| 0 <= j < d implies row(y1, d, i1)[j] == row(y2, d, i2)[j] by {
        let entry = at(table, d, tokens1[i1] as int, j);
        assert(widens::<T, T, A>(entry, at(y1, d, i1, j)));
        assert(widens::<T, T, A>(entry, at(y2, d, i2, j)));
    }
    assert(row(y1, d, i1) =~= row(y2, d, i2));
}

/// A pass and a longer one agree on the rows that they store for the positions that they share,
/// and, if they end at the same position, on the scores.
pub proof fn lemma_shared_pass<T: Default, A: Arithmetic<T> + Widen<T, T>>(
    model: &Llama<T>,
    x: Pass<T>,
    y: Pass<T>,
)
    requires
        all_determined::<T, A>(),
        model.pass_is_tame::<A>(x),
        model.pass_is_tame::<A>(y),
        model.consistent(),
        model.heads_fill_rows(),
        model.is_pass::<A>(x),
        model.is_pass::<A>(y),
        x.part_of(y),
        caches_agree(x.c1, y.c1, model.kv_len(), x.c0.length as int),
    ensures
        caches_agree(x.c1, y.c1, model.kv_len(), x.c0.length + x.tokens.len()),
        x.c0.length + x.tokens.len() == y.c0.length + y.tokens.len() ==> x.logits == y.logits,
{
    let k = model.n_layers as int;
    lemma_shared_layers::<T, A>(model, x, y, k);
    if x.c0.length + x.tokens.len() == y.c0.length + y.tokens.len() {
        reveal(all_determined);
        let d = model.d as int;
        let n1 = x.tokens.len() as int;
        let n2 = y.tokens.len() as int;
        let last1 = row(x.t.buffers[k].residual, d, n1 - 1);
        let last2 = row(y.t.buffers[k].residual, d, n2 - 1);
        assert(last1 == last2);
        lemma_row_bound(n1, d, n1 - 1);
        assert(1 * d == d);
        lemma_normed::<T, A>(
            last1,
            model.params.rms_out_w.data@,
            1,
            d,
            model.eps,
            x.t.last,
            y.t.last,
        );
        assert(x.t.zero == y.t.zero && x.t.one == y.t.one) by {
            assert(is_zero::<T, A>(x.t.zero) && is_zero::<T, A>(y.t.zero));
            assert(is_one::<T, A>(x.t.one) && is_one::<T, A>(y.t.one));
        }
        lemma_blank(x.t.blank, y.t.blank);
        assert(1 * model.vocab == model.vocab);
        lemma_multiplied::<T, T, A>(
            x.t.blank,
            x.t.zero,
            x.t.last,
            model.params.lm_head.data@,
            x.t.one,
            1,
            d,
            model.vocab as int,
            x.logits,
            y.logits,
        );
    }
}

/// A pass leaves the rows of earlier positions as they are.
pub proof fn lemma_past_rows<T: Default, A: Arithmetic<T> + Widen<T, T>>(
    model: &Llama<T>,
    x: Pass<T>,
)
    requires
        model.consistent(),
        model.is_pass::<A>(x),
    ensures
        caches_agree(x.c1, x.c0, model.kv_len(), x.c0.length as int),
{
    let dim = model.kv_len();
    let past = x.c0.length as int;
    assert forall|l: int| 0 <= l < x.c1.k_cache@.len() implies rows_agree(
        #[trigger] x.c1.keys(l),
        x.c0.keys(l),
        dim,
        past,
    ) by {
        lemma_stored_past::<T, A>(model, x, l);
    }
    assert forall|l: int| 0 <= l < x.c1.k_cache@.len() implies rows_agree(
        #[trigger] x.c1.values(l),
        x.c0.values(l),
        dim,
        past,
    ) by {
        lemma_stored_past::<T, A>(model, x, l);
    }
}

proof fn lemma_stored_past<T: Default, A: Arithmetic<T> + Widen<T, T>>(
    model: &Llama<T>,
    x: Pass<T>,
    l: int,
)
    requires
        model.consistent(),
        model.is_pass::<A>(x),
        0 <= l < model.n_layers,
    ensures
        rows_agree(x.c1.keys(l), x.c0.keys(l), model.kv_len(), x.c0.length as int),
        rows_agree(x.c1.values(l), x.c0.values(l), model.kv_len(), x.c0.length as int),
{
    let n = x.tokens.len() as int;
    let past = x.c0.length as int;
    let dim = model.kv_len();
    lemma_buffers::<T, A>(model, x, l);
    let run = lemma_run::<T, A>(model, x, l);
    lemma_layer_fits::<T, A>(
        model,
        l,
        n,
        past,
        run.keys0,
        run.values0,
        run.b0,
        run.keys1,
        run.values1,
        run.b1,
        run.t,
    );
    lemma_layer_sizes(model, n, past);
    lemma_overwritten_rows(run.keys0, model.max_seq_len as int, dim, past, run.t.turned_k, n);
    lemma_overwritten_rows(run.values0, model.max_seq_len as int, dim, past, run.t.v, n);
}

/// The buffers between the layers of a pass have the sizes that the layers need.
pub proof fn lemma_buffers<T: Default, A: Arithmetic<T> + Widen<T, T>>(
    model: &Llama<T>,
    x: Pass<T>,
    k: int,
)
    requires
        model.consistent(),
        model.is_pass::<A>(x),
        0 <= k <= model.n_layers,
    ensures
        model.buffers_fit(x.t.buffers[k], x.tokens.len() as int),
    decreases k,
{
    if k > 0 {
        let l = k - 1;
        lemma_buffers::<T, A>(model, x, l);
        let run = lemma_run::<T, A>(model, x, l);
        lemma_layer_fits::<T, A>(
            model,
            l,
            run.n,
            run.past,
            run.keys0,
            run.values0,
            run.b0,
            run.keys1,
            run.values1,
            run.b1,
            run.t,
        );
    }
}

/// Rows that agree with rows that agree with rows agree.
pub proof fn lemma_caches_agree<T>(
    a: KVCache<T>,
    b: KVCache<T>,
    c: KVCache<T>,
    d: KVCache<T>,
    dim: int,
    n: int,
)
    requires
        a.k_cache@.len() == b.k_cache@.len(),
        c.k_cache@.len() == b.k_cache@.len(),
        d.k_cache@.len() == b.k_cache@.len(),
        caches_agree(a, b, dim, n),
        caches_agree(b, c, dim, n),
        caches_agree(d, c, dim, n),
    ensures
        caches_agree(a, d, dim, n),
{
    assert forall|l: int| 0 <= l < a.k_cache@.len() implies rows_agree(
        #[trigger] a.keys(l),
        d.keys(l),
        dim,
        n,
    ) by {
        assert(rows_agree(b.keys(l), c.keys(l), dim, n));
        assert(rows_agree(d.keys(l), c.keys(l), dim, n));
    }
    assert forall|l: int| 0 <= l < a.k_cache@.len() implies rows_agree(
        #[trigger] a.values(l),
        d.values(l),
        dim,
        n,
    ) by {
        assert(rows_agree(b.values(l), c.values(l), dim, n));
        assert(rows_agree(d.values(l), c.values(l), dim, n));
    }
}

/// A sum of products with 0 is 0.
proof fn lemma_zero_dot<T, A: Arithmetic<T>>(x: Seq<T>, y: Seq<T>, s: T)
    requires
        all_annihilated::<T, A>(x),
        x.len() == y.len(),
        is_dot::<T, A>(x, y, s),
        forall|p: int| 0 <= p < y.len() ==> is_zero::<T, A>(#[trigger] y[p]),
    ensures
        is_zero::<T, A>(s),
    decreases x.len(),
{
    if x.len() > 0 {
        let (t, m) = choose|t: T, m: T|
            is_dot::<T, A>(x.drop_last(), y.drop_last(), t) && #[trigger] times::<T, A>(
                x.last(),
                y.last(),
                m,
            ) && #[trigger] plus::<T, A>(t, m, s);
        assert(is_zero::<T, A>(y[y.len() - 1]));
        assert(annihilated::<T, A>(x[x.len() - 1]));
        lemma_zero_dot::<T, A>(x.drop_last(), y.drop_last(), t);
    }
}

/// What a product with a matrix of zeros adds is nothing.
proof fn lemma_nothing_added<T, A: Arithmetic<T> + Widen<T, T>>(
    p: T,
    z: T,
    a: Seq<T>,
    b: Seq<T>,
    alpha: T,
    c: T,
    t: T,
    s: T,
)
    requires
        zero_widens_to_zero::<T, A>(),
        all_annihilated::<T, A>(a),
        replaceable::<T, A>(p),
        unmoved::<T, A>(t),
        a.len() == b.len(),
        is_zero::<T, A>(z),
        is_one::<T, A>(alpha),
        forall|j: int| 0 <= j < b.len() ==> is_zero::<T, A>(#[trigger] b[j]),
        product_entry::<T, T, A>(p, z, a, b, alpha, c),
        plus::<T, A>(t, c, s),
    ensures
        s == t,
{
    let (w, q, u, v) = choose|w: Seq<T>, q: T, u: T, v: T|
        widened::<T, T, A>(b, w) && #[trigger] is_dot::<T, A>(a, w, q) && #[trigger] times::<T, A>(
            z,
            p,
            u,
        ) && #[trigger] times::<T, A>(alpha, q, v) && plus::<T, A>(u, v, c);
    assert forall|j: int| 0 <= j < w.len() implies is_zero::<T, A>(#[trigger] w[j]) by {
        assert(is_zero::<T, A>(b[j]));
        assert(widens::<T, T, A>(b[j], w[j]));
    }
    lemma_zero_dot::<T, A>(a, w, q);
    assert(c == v);
}

/// Adding a product with a matrix of zeros changes nothing in row `i`.
proof fn lemma_zero_product<T, A: Arithmetic<T> + Widen<T, T>>(
    p: Seq<T>,
    z: T,
    a: Seq<T>,
    b: Seq<T>,
    alpha: T,
    m: int,
    k: int,
    n: int,
    c: Seq<T>,
    r0: Seq<T>,
    r1: Seq<T>,
    i: int,
)
    requires
        zero_widens_to_zero::<T, A>(),
        0 <= i < m,
        0 <= k,
        0 <= n,
        all_annihilated::<T, A>(row(a, k, i)),
        all_replaceable::<T, A>(row(p, n, i)),
        all_unmoved::<T, A>(row(r0, n, i)),
        p.len() == m * n,
        a.len() == m * k,
        b.len() == n * k,
        r0.len() == m * n,
        is_zero::<T, A>(z),
        is_one::<T, A>(alpha),
        forall|x: int| 0 <= x < b.len() ==> is_zero::<T, A>(#[trigger] b[x]),
        multiplied::<T, T, A>(p, z, a, b, alpha, m, k, n, c),
        added::<T, A>(r0, c, r1),
    ensures
        row(r1, n, i) == row(r0, n, i),
{
    lemma_row_bound(m, k, i);
    lemma_row_bound(m, n, i);
    assert forall|j: int| 0 <= j < n implies row(r1, n, i)[j] == row(r0, n, i)[j] by {
        let x = i * n + j;
        lemma_row_bound(n, k, j);
        assert(at(c, n, i, j) == c[x]);
        assert(at(p, n, i, j) == p[x]);
        assert(plus::<T, A>(r0[x], c[x], r1[x]));
        assert forall|q: int| 0 <= q < k implies is_zero::<T, A>(#[trigger] row(b, k, j)[q]) by {
            assert(row(b, k, j)[q] == b[j * k + q]);
        }
        assert(replaceable::<T, A>(row(p, n, i)[j]) && unmoved::<T, A>(row(r0, n, i)[j]));
        lemma_nothing_added::<T, A>(
            p[x],
            z,
            row(a, k, i),
            row(b, k, j),
            alpha,
            c[x],
            r0[x],
            r1[x],
        );
    }
    assert(row(r1, n, i) =~= row(r0, n, i));
}

/// Without projections back to the residual, a layer leaves that of the last position as it is.
proof fn lemma_layer_keeps_residual<T: Default, A: Arithmetic<T> + Widen<T, T>>(
    model: &Llama<T>,
    l: int,
    x: LayerRun<T>,
)
    requires
        zero_widens_to_zero::<T, A>(),
        model.consistent(),
        no_projections::<T, A>(model),
        0 <= l < model.n_layers,
        model.is_run::<A>(l, x),
        model.run_adds_nothing::<A>(l, x),
    ensures
        model.buffers_fit(x.b1, x.n),
        row(x.b1.residual, model.d as int, x.n - 1) == row(
            x.b0.residual,
            model.d as int,
            x.n - 1,
        ),
{
    lemma_layer_fits::<T, A>(
        model,
        l,
        x.n,
        x.past,
        x.keys0,
        x.values0,
        x.b0,
        x.keys1,
        x.values1,
        x.b1,
        x.t,
    );
    let p = model.params;
    let d = model.d as int;
    let di = model.di as int;
    assert(model.layer_consistent(l));
    lemma_matrix_len(p.wo@[l]);
    lemma_matrix_len(p.w_down@[l]);
    lemma_zero_product::<T, A>(
        x.t.blank,
        x.t.zero,
        x.t.attended,
        p.wo@[l].data@,
        x.t.one,
        x.n,
        d,
        d,
        x.t.projected,
        x.b0.residual,
        x.t.residual,
        x.n - 1,
    );
    let r0 = x.t.residual;
    let (z, o, n, u) = choose|z: T, o: T, n: Seq<T>, u: Seq<T>|
        is_zero::<T, A>(z) && is_one::<T, A>(o) && #[trigger] normed::<T, A>(
            r0,
            p.rms_ffn_w@[l].data@,
            d,
            model.eps,
            n,
        ) && multiplied::<T, T, A>(
            x.b0.gate,
            z,
            n,
            p.w_gate@[l].data@,
            o,
            x.n,
            d,
            di,
            x.b1.gate,
        ) && #[trigger] multiplied::<T, T, A>(
            x.b0.up,
            z,
            n,
            p.w_up@[l].data@,
            o,
            x.n,
            d,
            di,
            u,
        ) && gated::<T, A>(u, x.b1.gate, x.b1.up) && multiplied::<T, T, A>(
            n,
            z,
            x.b1.up,
            p.w_down@[l].data@,
            o,
            x.n,
            di,
            d,
            x.t.gained,
        ) && added::<T, A>(r0, x.t.gained, x.b1.residual);
    lemma_zero_product::<T, A>(
        n,
        z,
        x.b1.up,
        p.w_down@[l].data@,
        o,
        x.n,
        di,
        d,
        x.t.gained,
        r0,
        x.b1.residual,
        x.n - 1,
    );
}

/// A matrix has as many entries as rows times columns.
proof fn lemma_matrix_len<T>(t: Tensor<T>)
    requires
        t.wf(),
        t.shape@.len() == 2,
    ensures
        t.data@.len() == t.shape@[0] * t.shape@[1],
{
    assert(t.shape@ =~= seq![t.shape@[0], t.shape@[1]]);
    lemma_entries_2(t.shape@[0], t.shape@[1]);
}

/// Without projections back to the residual, the first `k` layers leave that of the last position
/// as it is.
pub proof fn lemma_residual_is_kept<T: Default, A: Arithmetic<T> + Widen<T, T>>(
    model: &Llama<T>,
    x: Pass<T>,
    k: int,
)
    requires
        zero_widens_to_zero::<T, A>(),
        model.consistent(),
        no_projections::<T, A>(model),
        model.is_pass::<A>(x),
        model.pass_adds_nothing::<A>(x),
        0 <= k <= model.n_layers,
    ensures
        model.buffers_fit(x.t.buffers[k], x.tokens.len() as int),
        row(x.t.buffers[k].residual, model.d as int, x.tokens.len() - 1) == row(
            x.t.buffers[0].residual,
            model.d as int,
            x.tokens.len() - 1,
        ),
    decreases k,
{
    if k > 0 {
        let l = k - 1;
        lemma_residual_is_kept::<T, A>(model, x, l);
        let run = lemma_run::<T, A>(model, x, l);
        lemma_layer_keeps_residual::<T, A>(model, l, run);
    }
}

} // verus!
