//! No position depends on a later one.

use crate::arith::{
    is_dot, is_largest, is_one, is_sum, is_zero, over, plus, times, Arithmetic, Widen,
};
use crate::attention::{
    attended, fed_forward, head_entries, head_vector, is_scale, is_score, mixed_row, score_row,
    scored, Heads,
};
use crate::determined::{
    determined, lemma_added, lemma_dot, lemma_gated, lemma_multiplied, lemma_normed,
    lemma_softmax_row, widening_determined,
};
use crate::layout::{at, lemma_flat_bound, lemma_place, lemma_row_bound, row};
use crate::operators::{
    added, are_exps_of_differences, gated, multiplied, normed, softmax_row, softmaxed, visible,
};
use vstd::arithmetic::div_mod::{
    lemma_div_pos_is_pos, lemma_fundamental_div_mod_converse, lemma_multiply_divide_lt,
};
use vstd::prelude::*;

verus! {

/// With the weight 0, `v` adds nothing to a sum of products.
pub open spec fn ignored<T, A: Arithmetic<T>>(v: T) -> bool {
    forall|z: T, m: T, x: Seq<T>, y: Seq<T>, t: T, s: T|
        #![trigger times::<T, A>(z, v, m), is_dot::<T, A>(x, y, t), plus::<T, A>(t, m, s)]
        is_zero::<T, A>(z) && times::<T, A>(z, v, m) && is_dot::<T, A>(x, y, t) && plus::<T, A>(
            t,
            m,
            s,
        ) ==> s == t
}

/// What has the weight 0 can be left out at the end of a sum of products.
pub proof fn lemma_dot_without_tail<T, A: Arithmetic<T>>(w: Seq<T>, v: Seq<T>, n: int, s: T)
    requires
        0 <= n <= w.len(),
        v.len() == w.len(),
        is_dot::<T, A>(w, v, s),
        forall|j: int| n <= j < w.len() ==> is_zero::<T, A>(#[trigger] w[j]),
        forall|j: int| n <= j < w.len() ==> ignored::<T, A>(#[trigger] v[j]),
    ensures
        is_dot::<T, A>(w.take(n), v.take(n), s),
    decreases w.len(),
{
    if w.len() == n {
        assert(w.take(n) =~= w);
        assert(v.take(n) =~= v);
    } else {
        let (t, m) = choose|t: T, m: T|
            is_dot::<T, A>(w.drop_last(), v.drop_last(), t) && #[trigger] times::<T, A>(
                w.last(),
                v.last(),
                m,
            ) && #[trigger] plus::<T, A>(t, m, s);
        let last = w.len() - 1;
        assert(is_zero::<T, A>(w[last]));
        assert(ignored::<T, A>(v[last]));
        assert(s == t);
        lemma_dot_without_tail::<T, A>(w.drop_last(), v.drop_last(), n, s);
        assert(w.drop_last().take(n) =~= w.take(n));
        assert(v.drop_last().take(n) =~= v.take(n));
    }
}

proof fn lemma_scale<T, A: Arithmetic<T>>(d: usize, s1: T, s2: T)
    requires
        determined::<T, A>(),
        is_scale::<T, A>(d, s1),
        is_scale::<T, A>(d, s2),
    ensures
        s1 == s2,
{
}

proof fn lemma_score<T, A: Arithmetic<T>>(q: Seq<T>, k: Seq<T>, scale: T, r1: T, r2: T)
    requires
        determined::<T, A>(),
        is_score::<T, A>(q, k, scale, r1),
        is_score::<T, A>(q, k, scale, r2),
    ensures
        r1 == r2,
{
    let s1 = choose|s: T| #[trigger] is_dot::<T, A>(q, k, s) && times::<T, A>(s, scale, r1);
    let s2 = choose|s: T| #[trigger] is_dot::<T, A>(q, k, s) && times::<T, A>(s, scale, r2);
    lemma_dot::<T, A>(q, k, s1, s2);
}

impl Heads {
    /// There is a new position, and the positions before it come first.
    pub open spec fn valid(self) -> bool {
        &&& 0 <= self.n_kv_h
        &&& 0 <= self.n_groups
        &&& 0 <= self.dqkv
        &&& 0 < self.seq_len <= self.total
    }

    /// The number of positions that new position `i` sees.
    pub open spec fn seen(self, i: int) -> int {
        self.total - self.seq_len + i + 1
    }

    /// The heads are laid out alike; the numbers of positions may differ.
    pub open spec fn alike(self, other: Heads) -> bool {
        &&& self.n_kv_h == other.n_kv_h
        &&& self.n_groups == other.n_groups
        &&& self.dqkv == other.dqkv
    }
}

/// Query head `h` at new position `i` in the order of the scores.
pub proof fn lemma_score_place(dims: Heads, h: int, i: int)
    requires
        dims.valid(),
        0 <= h < dims.queries(),
        0 <= i < dims.seq_len,
    ensures
        0 <= h * dims.seq_len + i < dims.score_rows(),
        (h * dims.seq_len + i) / dims.seq_len == h,
        (h * dims.seq_len + i) % dims.seq_len == i,
        visible(dims.seq_len, dims.total, h * dims.seq_len + i) == dims.seen(i),
        0 < dims.n_groups,
        0 <= h / dims.n_groups < dims.n_kv_h,
{
    lemma_flat_bound(dims.queries(), dims.seq_len, h, i);
    lemma_fundamental_div_mod_converse(h * dims.seq_len + i, dims.seq_len, h, i);
    let n = dims.n_kv_h;
    let g = dims.n_groups;
    assert(g > 0) by (nonlinear_arith)
        requires
            0 <= h < n * g,
            0 <= g,
    ;
    assert(n * g == g * n) by (nonlinear_arith);
    lemma_multiply_divide_lt(h, g, n);
    lemma_div_pos_is_pos(h, g);
}

/// Query head `h` at new position `i` in the order of the outputs.
pub proof fn lemma_output_place(dims: Heads, h: int, i: int)
    requires
        dims.valid(),
        0 <= h < dims.queries(),
        0 <= i < dims.seq_len,
    ensures
        0 <= i * dims.queries() + h < dims.outputs(),
        (i * dims.queries() + h) / dims.queries() == i,
        (i * dims.queries() + h) % dims.queries() == h,
{
    lemma_flat_bound(dims.seq_len, dims.queries(), i, h);
    lemma_fundamental_div_mod_converse(i * dims.queries() + h, dims.queries(), i, h);
}

/// The weights of query head `h` at new position `i`.
pub open spec fn weights_of<T>(att: Seq<T>, dims: Heads, h: int, i: int) -> Seq<T> {
    row(att, dims.total, h * dims.seq_len + i)
}

/// The first `n` positions of keys or values, with `heads` vectors of length `d` each, agree.
pub open spec fn positions_agree<T>(s1: Seq<T>, s2: Seq<T>, heads: int, d: int, n: int) -> bool {
    &&& forall|j: int, h: int|
        0 <= j < n && 0 <= h < heads ==> #[trigger] head_vector(s1, d, heads, j, h) == head_vector(
            s2,
            d,
            heads,
            j,
            h,
        )
    &&& forall|j: int, h: int, p: int|
        0 <= j < n && 0 <= h < heads && 0 <= p < d ==> #[trigger] at(s1, d, j * heads + h, p)
            == at(s2, d, j * heads + h, p)
}

/// The first `n` positions, with `heads` vectors of length `d` each, are the same.
pub open spec fn same_positions<T>(s1: Seq<T>, s2: Seq<T>, heads: int, d: int, n: int) -> bool {
    s1.take(n * heads * d) == s2.take(n * heads * d)
}

/// The first `n` of `m` positions.
pub proof fn lemma_fewer_positions(m: int, n: int, heads: int, d: int)
    requires
        0 <= n <= m,
        0 <= heads,
        0 <= d,
    ensures
        0 <= n * heads * d <= m * heads * d,
{
    assert(0 <= n * heads <= m * heads) by (nonlinear_arith)
        requires
            0 <= n <= m,
            0 <= heads,
    ;
    let a = n * heads;
    let b = m * heads;
    assert(0 <= a * d <= b * d) by (nonlinear_arith)
        requires
            0 <= a <= b,
            0 <= d,
    ;
}

/// Positions that are the same agree.
pub proof fn lemma_same_positions<T>(
    s1: Seq<T>,
    s2: Seq<T>,
    heads: int,
    d: int,
    m: int,
    n: int,
)
    requires
        0 <= n <= m,
        0 <= d,
        m * heads * d <= s1.len(),
        m * heads * d <= s2.len(),
        same_positions(s1, s2, heads, d, n),
    ensures
        positions_agree(s1, s2, heads, d, n),
{
    let size = n * heads * d;
    assert forall|j: int, h: int| 0 <= j < n && 0 <= h < heads implies #[trigger] head_vector(
        s1,
        d,
        heads,
        j,
        h,
    ) == head_vector(s2, d, heads, j, h) by {
        lemma_fewer_positions(m, n, heads, d);
        lemma_flat_bound(n, heads, j, h);
        lemma_row_bound(n * heads, d, j * heads + h);
        let r = (j * heads + h) * d;
        assert(s1.subrange(r, r + d) =~= s1.take(size).subrange(r, r + d));
        assert(s2.subrange(r, r + d) =~= s2.take(size).subrange(r, r + d));
    }
    assert forall|j: int, h: int, p: int|
        0 <= j < n && 0 <= h < heads && 0 <= p < d implies #[trigger] at(s1, d, j * heads + h, p)
        == at(s2, d, j * heads + h, p) by {
        lemma_fewer_positions(m, n, heads, d);
        lemma_flat_bound(n, heads, j, h);
        lemma_flat_bound(n * heads, d, j * heads + h, p);
        let x = (j * heads + h) * d + p;
        assert(s1[x] == s1.take(size)[x]);
        assert(s2[x] == s2.take(size)[x]);
    }
}

/// The weights of a position are determined by its query and by the keys that it sees: the
/// weights on those agree, and there is none on the others.
pub proof fn lemma_weights<T, A: Arithmetic<T>>(
    q1: Seq<T>,
    k1: Seq<T>,
    v1: Seq<T>,
    dims1: Heads,
    att1: Seq<T>,
    h01: Seq<T>,
    h11: Seq<T>,
    i1: int,
    q2: Seq<T>,
    k2: Seq<T>,
    v2: Seq<T>,
    dims2: Heads,
    att2: Seq<T>,
    h02: Seq<T>,
    h12: Seq<T>,
    i2: int,
    h: int,
)
    requires
        determined::<T, A>(),
        dims1.valid(),
        dims2.valid(),
        dims1.alike(dims2),
        attended::<T, A>(q1, k1, v1, dims1, att1, h01, h11),
        attended::<T, A>(q2, k2, v2, dims2, att2, h02, h12),
        0 <= i1 < dims1.seq_len,
        0 <= i2 < dims2.seq_len,
        dims1.seen(i1) == dims2.seen(i2),
        0 <= h < dims1.queries(),
        head_vector(q1, dims1.dqkv, dims1.queries(), i1, h) == head_vector(
            q2,
            dims1.dqkv,
            dims1.queries(),
            i2,
            h,
        ),
        positions_agree(k1, k2, dims1.n_kv_h, dims1.dqkv, dims1.seen(i1)),
    ensures
        weights_of(att1, dims1, h, i1).len() == dims1.total,
        weights_of(att2, dims2, h, i2).len() == dims2.total,
        weights_of(att1, dims1, h, i1).take(dims1.seen(i1)) == weights_of(att2, dims2, h, i2).take(
            dims1.seen(i1),
        ),
        forall|j: int|
            dims1.seen(i1) <= j < dims1.total ==> is_zero::<T, A>(
                #[trigger] weights_of(att1, dims1, h, i1)[j],
            ),
        forall|j: int|
            dims2.seen(i2) <= j < dims2.total ==> is_zero::<T, A>(
                #[trigger] weights_of(att2, dims2, h, i2)[j],
            ),
{
    let n = dims1.seen(i1);
    let d = dims1.dqkv;
    let (scale1, raw1) = choose|scale: T, raw: Seq<T>|
        is_scale::<T, A>(dims1.dqkv as usize, scale) && #[trigger] scored::<T, A>(
            q1,
            k1,
            dims1,
            scale,
            raw,
        ) && softmaxed::<T, A>(raw, dims1.score_rows(), dims1.seq_len, dims1.total, att1);
    let (scale2, raw2) = choose|scale: T, raw: Seq<T>|
        is_scale::<T, A>(dims2.dqkv as usize, scale) && #[trigger] scored::<T, A>(
            q2,
            k2,
            dims2,
            scale,
            raw,
        ) && softmaxed::<T, A>(raw, dims2.score_rows(), dims2.seq_len, dims2.total, att2);
    lemma_scale::<T, A>(dims1.dqkv as usize, scale1, scale2);
    lemma_score_place(dims1, h, i1);
    lemma_score_place(dims2, h, i2);
    let r1 = h * dims1.seq_len + i1;
    let r2 = h * dims2.seq_len + i2;
    let x1 = row(raw1, dims1.total, r1);
    let x2 = row(raw2, dims2.total, r2);
    assert(score_row::<T, A>(q1, k1, dims1, scale1, h, i1, x1));
    assert(score_row::<T, A>(q2, k2, dims2, scale2, h, i2, x2));
    assert forall|j: int| 0 <= j < n implies x1[j] == x2[j] by {
        let kv = h / dims1.n_groups;
        let qv = head_vector(q1, d, dims1.queries(), i1, h);
        let kv1 = head_vector(k1, d, dims1.n_kv_h, j, kv);
        assert(kv1 == head_vector(k2, d, dims1.n_kv_h, j, kv));
        assert(is_score::<T, A>(qv, kv1, scale1, x1[j]));
        assert(is_score::<T, A>(qv, kv1, scale1, x2[j]));
        lemma_score::<T, A>(qv, kv1, scale1, x1[j], x2[j]);
    }
    assert(x1.take(n) =~= x2.take(n));
    let y1 = weights_of(att1, dims1, h, i1);
    let y2 = weights_of(att2, dims2, h, i2);
    assert(softmax_row::<T, A>(x1, n, y1)) by {
        assert(row(att1, dims1.total, r1) == y1);
    }
    assert(softmax_row::<T, A>(x2, n, y2)) by {
        assert(row(att2, dims2.total, r2) == y2);
    }
    lemma_softmax_row::<T, A>(x1, y1, x2, y2, n);
}

/// The output of a position is determined by its query and by the keys and values that it sees.
pub proof fn lemma_attended_row<T, A: Arithmetic<T>>(
    q1: Seq<T>,
    k1: Seq<T>,
    v1: Seq<T>,
    dims1: Heads,
    att1: Seq<T>,
    h01: Seq<T>,
    h11: Seq<T>,
    i1: int,
    q2: Seq<T>,
    k2: Seq<T>,
    v2: Seq<T>,
    dims2: Heads,
    att2: Seq<T>,
    h02: Seq<T>,
    h12: Seq<T>,
    i2: int,
    h: int,
)
    requires
        determined::<T, A>(),
        dims1.valid(),
        dims2.valid(),
        dims1.alike(dims2),
        attended::<T, A>(q1, k1, v1, dims1, att1, h01, h11),
        attended::<T, A>(q2, k2, v2, dims2, att2, h02, h12),
        0 <= i1 < dims1.seq_len,
        0 <= i2 < dims2.seq_len,
        dims1.seen(i1) == dims2.seen(i2),
        0 <= h < dims1.queries(),
        head_vector(q1, dims1.dqkv, dims1.queries(), i1, h) == head_vector(
            q2,
            dims1.dqkv,
            dims1.queries(),
            i2,
            h,
        ),
        positions_agree(k1, k2, dims1.n_kv_h, dims1.dqkv, dims1.seen(i1)),
        positions_agree(v1, v2, dims1.n_kv_h, dims1.dqkv, dims1.seen(i1)),
        forall|j: int, kv: int, p: int|
            dims1.seen(i1) <= j < dims1.total && 0 <= kv < dims1.n_kv_h && 0 <= p < dims1.dqkv
                ==> ignored::<T, A>(#[trigger] at(v1, dims1.dqkv, j * dims1.n_kv_h + kv, p)),
        forall|j: int, kv: int, p: int|
            dims2.seen(i2) <= j < dims2.total && 0 <= kv < dims2.n_kv_h && 0 <= p < dims2.dqkv
                ==> ignored::<T, A>(#[trigger] at(v2, dims2.dqkv, j * dims2.n_kv_h + kv, p)),
    ensures
        row(h11, dims1.dqkv, i1 * dims1.queries() + h) == row(
            h12,
            dims1.dqkv,
            i2 * dims1.queries() + h,
        ),
{
    lemma_weights::<T, A>(
        q1,
        k1,
        v1,
        dims1,
        att1,
        h01,
        h11,
        i1,
        q2,
        k2,
        v2,
        dims2,
        att2,
        h02,
        h12,
        i2,
        h,
    );
    let n = dims1.seen(i1);
    let d = dims1.dqkv;
    let kv = h / dims1.n_groups;
    lemma_score_place(dims1, h, i1);
    lemma_output_place(dims1, h, i1);
    lemma_output_place(dims2, h, i2);
    let o1 = row(h11, d, i1 * dims1.queries() + h);
    let o2 = row(h12, d, i2 * dims1.queries() + h);
    assert(mixed_row::<T, A>(att1, v1, dims1, h, i1, o1));
    assert(mixed_row::<T, A>(att2, v2, dims2, h, i2, o2));
    let w1 = weights_of(att1, dims1, h, i1);
    let w2 = weights_of(att2, dims2, h, i2);
    assert forall|p: int| 0 <= p < d implies o1[p] == o2[p] by {
        let e1 = head_entries(v1, d, dims1.n_kv_h, kv, p, dims1.total);
        let e2 = head_entries(v2, d, dims1.n_kv_h, kv, p, dims2.total);
        assert(is_dot::<T, A>(w1, e1, o1[p]));
        assert(is_dot::<T, A>(w2, e2, o2[p]));
        assert forall|j: int| n <= j < dims1.total implies ignored::<T, A>(#[trigger] e1[j]) by {
            assert(e1[j] == at(v1, d, j * dims1.n_kv_h + kv, p));
        }
        assert forall|j: int| n <= j < dims2.total implies ignored::<T, A>(#[trigger] e2[j]) by {
            assert(e2[j] == at(v2, d, j * dims2.n_kv_h + kv, p));
        }
        lemma_dot_without_tail::<T, A>(w1, e1, n, o1[p]);
        lemma_dot_without_tail::<T, A>(w2, e2, n, o2[p]);
        assert forall|j: int| 0 <= j < n implies e1.take(n)[j] == e2.take(n)[j] by {
            assert(e1[j] == at(v1, d, j * dims1.n_kv_h + kv, p));
            assert(e2[j] == at(v2, d, j * dims1.n_kv_h + kv, p));
        }
        assert(e1.take(n) =~= e2.take(n));
        lemma_dot::<T, A>(w1.take(n), e1.take(n), o1[p], o2[p]);
    }
    assert(o1 =~= o2);
}

/// Entry `p` of each of the vectors.
pub open spec fn entries_at<T>(vs: Seq<Seq<T>>, p: int) -> Seq<T> {
    Seq::new(vs.len(), |j: int| vs[j][p])
}

/// `out` can be the values `vs` of some positions, weighted by the softmax of the scores of the
/// query `q` against the keys `ks` of those positions.
pub open spec fn attended_to<T, A: Arithmetic<T>>(
    q: Seq<T>,
    ks: Seq<Seq<T>>,
    vs: Seq<Seq<T>>,
    d: usize,
    out: Seq<T>,
) -> bool {
    &&& out.len() == d
    &&& exists|scale: T, x: Seq<T>, y: Seq<T>|
        x.len() == ks.len() && (forall|j: int|
            0 <= j < ks.len() ==> is_score::<T, A>(q, ks[j], scale, #[trigger] x[j]))
            && #[trigger] softmax_row::<T, A>(x, ks.len() as int, y) && (forall|p: int|
            0 <= p < d ==> is_dot::<T, A>(y, entries_at(vs, p), #[trigger] out[p]))
            && #[trigger] is_scale::<T, A>(d, scale)
}

/// The vectors of head `h` at the first `n` positions.
pub open spec fn head_vectors<T>(s: Seq<T>, d: int, heads: int, h: int, n: int) -> Seq<Seq<T>> {
    Seq::new(n as nat, |j: int| head_vector(s, d, heads, j, h))
}

/// Softmax of a row of which `n` entries are visible is softmax of those entries.
pub proof fn lemma_softmax_of_visible<T, A: Arithmetic<T>>(x: Seq<T>, n: int, y: Seq<T>)
    requires
        1 <= n <= x.len(),
        softmax_row::<T, A>(x, n, y),
    ensures
        softmax_row::<T, A>(x.take(n), n, y.take(n)),
{
    let x2 = x.take(n);
    let y2 = y.take(n);
    assert(x2.take(n) =~= x2);
    assert(x2[0] == x[0]);
    let (m, e, s) = choose|m: T, e: Seq<T>, s: T| #[trigger]
        is_largest::<T, A>(x[0], x.take(n), m) && are_exps_of_differences::<T, A>(
            x.take(n),
            m,
            e,
        ) && #[trigger] is_sum::<T, A>(e, s) && forall|j: int|
            0 <= j < n ==> over::<T, A>(e[j], s, #[trigger] y[j]);
    assert(is_largest::<T, A>(x2[0], x2.take(n), m) && is_sum::<T, A>(e, s));
    assert forall|j: int| 0 <= j < n implies over::<T, A>(e[j], s, #[trigger] y2[j]) by {
        assert(y2[j] == y[j]);
    }
}

/// The output of query head `h` at new position `i` is computed from its query and from the keys
/// and values that it sees, and from nothing else.
pub proof fn lemma_attended_to<T, A: Arithmetic<T>>(
    q: Seq<T>,
    k: Seq<T>,
    v: Seq<T>,
    dims: Heads,
    att: Seq<T>,
    h0: Seq<T>,
    h1: Seq<T>,
    i: int,
    h: int,
)
    requires
        dims.valid(),
        dims.dqkv <= usize::MAX,
        dims.total * dims.n_kv_h * dims.dqkv <= v.len(),
        attended::<T, A>(q, k, v, dims, att, h0, h1),
        0 <= i < dims.seq_len,
        0 <= h < dims.queries(),
        forall|j: int, kv: int, p: int|
            dims.seen(i) <= j < dims.total && 0 <= kv < dims.n_kv_h && 0 <= p < dims.dqkv
                ==> ignored::<T, A>(#[trigger] at(v, dims.dqkv, j * dims.n_kv_h + kv, p)),
    ensures
        attended_to::<T, A>(
            head_vector(q, dims.dqkv, dims.queries(), i, h),
            head_vectors(k, dims.dqkv, dims.n_kv_h, h / dims.n_groups, dims.seen(i)),
            head_vectors(v, dims.dqkv, dims.n_kv_h, h / dims.n_groups, dims.seen(i)),
            dims.dqkv as usize,
            row(h1, dims.dqkv, i * dims.queries() + h),
        ),
{
    let n = dims.seen(i);
    let d = dims.dqkv;
    let kv = h / dims.n_groups;
    lemma_score_place(dims, h, i);
    lemma_output_place(dims, h, i);
    let (scale, raw) = choose|scale: T, raw: Seq<T>|
        is_scale::<T, A>(dims.dqkv as usize, scale) && #[trigger] scored::<T, A>(
            q,
            k,
            dims,
            scale,
            raw,
        ) && softmaxed::<T, A>(raw, dims.score_rows(), dims.seq_len, dims.total, att);
    let r = h * dims.seq_len + i;
    let x = row(raw, dims.total, r);
    let y = weights_of(att, dims, h, i);
    assert(score_row::<T, A>(q, k, dims, scale, h, i, x));
    assert(softmax_row::<T, A>(x, n, y)) by {
        assert(row(att, dims.total, r) == y);
    }
    lemma_softmax_of_visible::<T, A>(x, n, y);
    let qv = head_vector(q, d, dims.queries(), i, h);
    let ks = head_vectors(k, d, dims.n_kv_h, kv, n);
    let vs = head_vectors(v, d, dims.n_kv_h, kv, n);
    let out = row(h1, d, i * dims.queries() + h);
    assert(mixed_row::<T, A>(att, v, dims, h, i, out));
    assert forall|j: int| 0 <= j < n implies is_score::<T, A>(
        qv,
        ks[j],
        scale,
        #[trigger] x.take(n)[j],
    ) by {
        assert(x.take(n)[j] == x[j]);
    }
    assert forall|p: int| 0 <= p < d implies is_dot::<T, A>(
        y.take(n),
        entries_at(vs, p),
        #[trigger] out[p],
    ) by {
        let e = head_entries(v, d, dims.n_kv_h, kv, p, dims.total);
        assert(is_dot::<T, A>(y, e, out[p]));
        assert forall|j: int| n <= j < dims.total implies ignored::<T, A>(#[trigger] e[j]) by {
            assert(e[j] == at(v, d, j * dims.n_kv_h + kv, p));
        }
        lemma_dot_without_tail::<T, A>(y, e, n, out[p]);
        assert forall|j: int| 0 <= j < n implies e.take(n)[j] == entries_at(vs, p)[j] by {
            lemma_flat_bound(dims.total, dims.n_kv_h, j, kv);
            lemma_row_bound(dims.total * dims.n_kv_h, d, j * dims.n_kv_h + kv);
            assert(vs[j][p] == at(v, d, j * dims.n_kv_h + kv, p));
        }
        assert(e.take(n) =~= entries_at(vs, p));
    }
    assert(softmax_row::<T, A>(x.take(n), ks.len() as int, y.take(n)));
    assert(is_scale::<T, A>(d as usize, scale));
}

/// The vectors of token `t`, if there are `n_heads` of length `d` for each token.
pub open spec fn token_rows<T>(s: Seq<T>, n_heads: int, d: int, t: int) -> Seq<T> {
    s.subrange(t * n_heads * d, t * n_heads * d + n_heads * d)
}

/// The vectors of token `t` lie among those of all tokens.
pub proof fn lemma_token_rows<T>(s: Seq<T>, seq_len: int, n_heads: int, d: int, t: int)
    requires
        0 <= t < seq_len,
        0 <= n_heads,
        0 <= d,
        s.len() == seq_len * n_heads * d,
    ensures
        0 <= t * n_heads * d,
        t * n_heads * d + n_heads * d <= s.len(),
        token_rows(s, n_heads, d, t).len() == n_heads * d,
{
    assert(0 <= t * n_heads * d && 0 <= n_heads * d && t * n_heads * d + n_heads * d <= seq_len
        * n_heads * d) by (nonlinear_arith)
        requires
            0 <= t,
            t + 1 <= seq_len,
            0 <= n_heads,
            0 <= d,
    ;
}

/// Vector `r` of token `t` is vector `t * n_heads + r` of all.
pub proof fn lemma_token_row<T>(
    s: Seq<T>,
    seq_len: int,
    n_heads: int,
    d: int,
    t: int,
    r: int,
    i: int,
)
    requires
        0 <= t < seq_len,
        0 <= r < n_heads,
        0 <= i < d,
        s.len() == seq_len * n_heads * d,
    ensures
        0 <= t * n_heads + r < seq_len * n_heads,
        0 <= r * d + i < n_heads * d,
        at(token_rows(s, n_heads, d, t), d, r, i) == at(s, d, t * n_heads + r, i),
{
    lemma_token_rows(s, seq_len, n_heads, d, t);
    lemma_flat_bound(n_heads, d, r, i);
    lemma_flat_bound(seq_len, n_heads, t, r);
    assert(t * n_heads * d + (r * d + i) == (t * n_heads + r) * d + i) by (nonlinear_arith);
}

/// With arithmetic that is determined, attention has one output only.
pub proof fn lemma_attended<T, A: Arithmetic<T>>(
    q: Seq<T>,
    k: Seq<T>,
    v: Seq<T>,
    dims: Heads,
    att1: Seq<T>,
    att2: Seq<T>,
    h0: Seq<T>,
    h1: Seq<T>,
    h2: Seq<T>,
)
    requires
        determined::<T, A>(),
        dims.valid(),
        dims.outputs() * dims.dqkv <= h0.len(),
        attended::<T, A>(q, k, v, dims, att1, h0, h1),
        attended::<T, A>(q, k, v, dims, att2, h0, h2),
    ensures
        h1 == h2,
{
    let d = dims.dqkv;
    let heads = dims.queries();
    let rows = dims.outputs();
    assert(0 <= heads) by (nonlinear_arith)
        requires
            heads == dims.n_kv_h * dims.n_groups,
            0 <= dims.n_kv_h,
            0 <= dims.n_groups,
    ;
    assert(0 <= rows) by (nonlinear_arith)
        requires
            rows == dims.seq_len * heads,
            0 <= dims.seq_len,
            0 <= heads,
    ;
    assert forall|x: int| 0 <= x < h0.len() implies h1[x] == h2[x] by {
        if x < rows * d {
            lemma_place(rows, d, x);
            let r = x / d;
            let p = x % d;
            lemma_place(dims.seq_len, heads, r);
            let i = r / heads;
            let h = r % heads;
            lemma_weights::<T, A>(
                q,
                k,
                v,
                dims,
                att1,
                h0,
                h1,
                i,
                q,
                k,
                v,
                dims,
                att2,
                h0,
                h2,
                i,
                h,
            );
            let w1 = weights_of(att1, dims, h, i);
            let w2 = weights_of(att2, dims, h, i);
            let n = dims.seen(i);
            assert forall|j: int| 0 <= j < dims.total implies w1[j] == w2[j] by {
                if j < n {
                    assert(w1.take(n)[j] == w2.take(n)[j]);
                } else {
                    assert(is_zero::<T, A>(w1[j]) && is_zero::<T, A>(w2[j]));
                }
            }
            assert(w1 =~= w2);
            lemma_row_bound(rows, d, r);
            let o1 = row(h1, d, r);
            let o2 = row(h2, d, r);
            assert(mixed_row::<T, A>(att1, v, dims, h, i, o1));
            assert(mixed_row::<T, A>(att2, v, dims, h, i, o2));
            let e = head_entries(v, d, dims.n_kv_h, h / dims.n_groups, p, dims.total);
            assert(is_dot::<T, A>(w1, e, o1[p]));
            assert(is_dot::<T, A>(w2, e, o2[p]));
            lemma_dot::<T, A>(w1, e, o1[p], o2[p]);
            assert(o1[p] == h1[x] && o2[p] == h2[x]);
        } else {
            assert(h1[x] == h0[x] && h2[x] == h0[x]);
        }
    }
    assert(h1 =~= h2);
}

/// With arithmetic that is determined, the feed-forward block has one result only.
pub proof fn lemma_fed_forward<T, A: Arithmetic<T> + Widen<T, T>>(
    m: int,
    d: int,
    di: int,
    w_up: Seq<T>,
    w_down: Seq<T>,
    w_gate: Seq<T>,
    rms_w: Seq<T>,
    eps: T,
    r0: Seq<T>,
    g0: Seq<T>,
    u0: Seq<T>,
    r1: Seq<T>,
    h1: Seq<T>,
    g1: Seq<T>,
    u1: Seq<T>,
    r2: Seq<T>,
    h2: Seq<T>,
    g2: Seq<T>,
    u2: Seq<T>,
)
    requires
        determined::<T, A>(),
        widening_determined::<T, T, A>(),
        0 <= m,
        0 < d,
        0 <= di,
        r0.len() == m * d,
        g0.len() == m * di,
        u0.len() == m * di,
        fed_forward::<T, A>(
            m,
            d,
            di,
            w_up,
            w_down,
            w_gate,
            rms_w,
            eps,
            r0,
            g0,
            u0,
            r1,
            h1,
            g1,
            u1,
        ),
        fed_forward::<T, A>(
            m,
            d,
            di,
            w_up,
            w_down,
            w_gate,
            rms_w,
            eps,
            r0,
            g0,
            u0,
            r2,
            h2,
            g2,
            u2,
        ),
    ensures
        r1 == r2,
        g1 == g2,
        u1 == u2,
{
    let (z1, o1, n1, a1) = choose|z: T, o: T, n: Seq<T>, u: Seq<T>|
        is_zero::<T, A>(z) && is_one::<T, A>(o) && #[trigger] normed::<T, A>(r0, rms_w, d, eps, n)
            && multiplied::<T, T, A>(g0, z, n, w_gate, o, m, d, di, g1) && #[trigger] multiplied::<
            T,
            T,
            A,
        >(u0, z, n, w_up, o, m, d, di, u) && gated::<T, A>(u, g1, u1) && multiplied::<T, T, A>(
            n,
            z,
            u1,
            w_down,
            o,
            m,
            di,
            d,
            h1,
        ) && added::<T, A>(r0, h1, r1);
    let (z2, o2, n2, a2) = choose|z: T, o: T, n: Seq<T>, u: Seq<T>|
        is_zero::<T, A>(z) && is_one::<T, A>(o) && #[trigger] normed::<T, A>(r0, rms_w, d, eps, n)
            && multiplied::<T, T, A>(g0, z, n, w_gate, o, m, d, di, g2) && #[trigger] multiplied::<
            T,
            T,
            A,
        >(u0, z, n, w_up, o, m, d, di, u) && gated::<T, A>(u, g2, u2) && multiplied::<T, T, A>(
            n,
            z,
            u2,
            w_down,
            o,
            m,
            di,
            d,
            h2,
        ) && added::<T, A>(r0, h2, r2);
    assert(z1 == z2 && o1 == o2);
    lemma_normed::<T, A>(r0, rms_w, m, d, eps, n1, n2);
    lemma_multiplied::<T, T, A>(g0, z1, n1, w_gate, o1, m, d, di, g1, g2);
    lemma_multiplied::<T, T, A>(u0, z1, n1, w_up, o1, m, d, di, a1, a2);
    lemma_gated::<T, A>(a1, g1, u1, u2);
    lemma_multiplied::<T, T, A>(n1, z1, u1, w_down, o1, m, di, d, h1, h2);
    lemma_added::<T, A>(r0, h1, r1, r2);
}

} // verus!
