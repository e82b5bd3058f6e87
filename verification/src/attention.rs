//! Grouped-query attention and the feed-forward block.

use crate::arith::{
    is_dot, is_number, is_one, is_sqrt, is_zero, lemma_dot_step, over, times, Arithmetic, Widen,
};
use crate::layout::{at, lemma_flat_bound, lemma_row_bound, row, set_row};
use crate::operators::{
    accumulate, added, gated, masked_softmax, matmul_transb, multiplied, normed, rms_norm,
    softmaxed, swiglu,
};
use crate::tensor::{lemma_entries_2, lemma_entries_4, Tensor};
use vstd::prelude::*;

verus! {

/// The greatest length of the vector of one head.
pub const MAX_HEAD_LEN: usize = 128;

/// The vector of head `h` at position `pos`, where `s` holds `heads` vectors of length `d` for
/// each position.
pub open spec fn head_vector<T>(s: Seq<T>, d: int, heads: int, pos: int, h: int) -> Seq<T> {
    row(s, d, pos * heads + h)
}

/// Entry `p` of the vectors of head `h` at the first `total` positions.
pub open spec fn head_entries<T>(
    s: Seq<T>,
    d: int,
    heads: int,
    h: int,
    p: int,
    total: int,
) -> Seq<T> {
    Seq::new(total as nat, |j: int| at(s, d, j * heads + h, p))
}

/// `s` can be `1 / sqrt(d)`.
pub open spec fn is_scale<T, A: Arithmetic<T>>(d: usize, s: T) -> bool {
    exists|o: T, n: T, r: T|
        is_one::<T, A>(o) && #[trigger] is_number::<T, A>(d, n) && is_sqrt::<T, A>(n, r)
            && #[trigger] over::<T, A>(o, r, s)
}

/// `r` can be `(q . k) * scale`.
pub open spec fn is_score<T, A: Arithmetic<T>>(q: Seq<T>, k: Seq<T>, scale: T, r: T) -> bool {
    exists|s: T| #[trigger] is_dot::<T, A>(q, k, s) && times::<T, A>(s, scale, r)
}

/// How the heads are laid out: `n_kv_h` heads for keys and values, `n_groups` query heads for
/// each of them, `seq_len` new positions out of `total`, and vectors of length `dqkv`.
pub struct Heads {
    pub n_kv_h: int,
    pub n_groups: int,
    pub seq_len: int,
    pub total: int,
    pub dqkv: int,
}

impl Heads {
    /// The number of query heads.
    pub open spec fn queries(self) -> int {
        self.n_kv_h * self.n_groups
    }

    /// The number of rows of the score matrices: one for each query head and new position.
    pub open spec fn score_rows(self) -> int {
        self.queries() * self.seq_len
    }

    /// The number of output vectors: one for each new position and query head.
    pub open spec fn outputs(self) -> int {
        self.seq_len * self.queries()
    }
}

/// `y` can be the scores of query head `h` at new position `i` against all positions.
pub open spec fn score_row<T, A: Arithmetic<T>>(
    q: Seq<T>,
    k: Seq<T>,
    dims: Heads,
    scale: T,
    h: int,
    i: int,
    y: Seq<T>,
) -> bool {
    &&& y.len() == dims.total
    &&& forall|j: int|
        0 <= j < dims.total ==> is_score::<T, A>(
            head_vector(q, dims.dqkv, dims.queries(), i, h),
            head_vector(k, dims.dqkv, dims.n_kv_h, j, h / dims.n_groups),
            scale,
            #[trigger] y[j],
        )
}

/// `att` can hold the scores of all query heads at all new positions, ordered by head first.
pub open spec fn scored<T, A: Arithmetic<T>>(
    q: Seq<T>,
    k: Seq<T>,
    dims: Heads,
    scale: T,
    att: Seq<T>,
) -> bool {
    &&& att.len() == dims.score_rows() * dims.total
    &&& forall|r: int|
        0 <= r < dims.score_rows() ==> score_row::<T, A>(
            q,
            k,
            dims,
            scale,
            r / dims.seq_len,
            r % dims.seq_len,
            #[trigger] row(att, dims.total, r),
        )
}

/// `y` can be the output of query head `h` at new position `i`: the values of all positions,
/// weighted by their scores.
pub open spec fn mixed_row<T, A: Arithmetic<T>>(
    att: Seq<T>,
    v: Seq<T>,
    dims: Heads,
    h: int,
    i: int,
    y: Seq<T>,
) -> bool {
    &&& y.len() == dims.dqkv
    &&& forall|p: int|
        0 <= p < dims.dqkv ==> is_dot::<T, A>(
            row(att, dims.total, h * dims.seq_len + i),
            head_entries(v, dims.dqkv, dims.n_kv_h, h / dims.n_groups, p, dims.total),
            #[trigger] y[p],
        )
}

/// `h1` can hold the outputs of all query heads at all new positions, ordered by position first;
/// what `h0` holds behind them is left.
pub open spec fn mixed<T, A: Arithmetic<T>>(
    att: Seq<T>,
    v: Seq<T>,
    dims: Heads,
    h0: Seq<T>,
    h1: Seq<T>,
) -> bool {
    &&& h1.len() == h0.len()
    &&& forall|r: int|
        0 <= r < dims.outputs() ==> mixed_row::<T, A>(
            att,
            v,
            dims,
            r % dims.queries(),
            r / dims.queries(),
            #[trigger] row(h1, dims.dqkv, r),
        )
    &&& forall|x: int|
        dims.outputs() * dims.dqkv <= x < h0.len() ==> #[trigger] h1[x] == h0[x]
}

/// `h1` can be the attention output for `q`, `k` and `v`, with `att` holding the scores after
/// softmax.
pub open spec fn attended<T, A: Arithmetic<T>>(
    q: Seq<T>,
    k: Seq<T>,
    v: Seq<T>,
    dims: Heads,
    att: Seq<T>,
    h0: Seq<T>,
    h1: Seq<T>,
) -> bool {
    &&& exists|scale: T, raw: Seq<T>|
        is_scale::<T, A>(dims.dqkv as usize, scale) && #[trigger] scored::<T, A>(
            q,
            k,
            dims,
            scale,
            raw,
        ) && softmaxed::<T, A>(raw, dims.score_rows(), dims.seq_len, dims.total, att)
    &&& mixed::<T, A>(att, v, dims, h0, h1)
}

/// The query heads are split evenly: head `h` belongs to key head `h / g`.
proof fn lemma_key_head(n: int, g: int, h: int)
    requires
        0 <= h < n * g,
        0 <= n,
        0 <= g,
    ensures
        0 < g,
        0 <= h / g < n,
{
    assert(g > 0) by (nonlinear_arith)
        requires
            0 <= h < n * g,
            0 <= g,
    ;
    assert(n * g == g * n) by (nonlinear_arith);
    vstd::arithmetic::div_mod::lemma_multiply_divide_lt(h, g, n);
    vstd::arithmetic::div_mod::lemma_div_pos_is_pos(h, g);
}

/// The scores of the query vector that starts at `q_start` against key head `kv` at the first
/// `total` positions.
fn scores_of<T: Copy, A: Arithmetic<T>>(
    q: &Vec<T>,
    q_start: usize,
    k: &Vec<T>,
    n_kv_h: usize,
    kv: usize,
    total: usize,
    dqkv: usize,
    scale: T,
) -> (y: Vec<T>)
    requires
        q_start + dqkv <= q@.len(),
        kv < n_kv_h,
        total * n_kv_h <= usize::MAX,
        total * n_kv_h * dqkv <= k@.len(),
    ensures
        y@.len() == total,
        forall|j: int|
            0 <= j < total ==> is_score::<T, A>(
                q@.subrange(q_start as int, q_start + dqkv),
                head_vector(k@, dqkv as int, n_kv_h as int, j, kv as int),
                scale,
                #[trigger] y@[j],
            ),
{
    let q_size = q.len();
    let k_size = k.len();
    let ghost xs = q@.subrange(q_start as int, q_start + dqkv);
    let mut y: Vec<T> = Vec::with_capacity(total);
    for j in 0..total
        invariant
            q_size == q@.len(),
            k_size == k@.len(),
            q_start + dqkv <= q_size,
            kv < n_kv_h,
            total * n_kv_h <= usize::MAX,
            total * n_kv_h * dqkv <= k_size,
            xs == q@.subrange(q_start as int, q_start + dqkv),
            y@.len() == j,
            forall|c: int|
                0 <= c < j ==> is_score::<T, A>(
                    xs,
                    head_vector(k@, dqkv as int, n_kv_h as int, c, kv as int),
                    scale,
                    #[trigger] y@[c],
                ),
    {
        proof {
            lemma_flat_bound(total as int, n_kv_h as int, j as int, kv as int);
            lemma_row_bound(total * n_kv_h, dqkv as int, j * n_kv_h + kv);
        }
        let k_start = (j * n_kv_h + kv) * dqkv;
        let ghost ks = head_vector(k@, dqkv as int, n_kv_h as int, j as int, kv as int);
        let mut sum = A::zero();
        assert(is_dot::<T, A>(xs.take(0), ks.take(0), sum));
        for p in 0..dqkv
            invariant
                q_size == q@.len(),
                k_size == k@.len(),
                q_start + dqkv <= q_size,
                k_start + dqkv <= k_size,
                xs == q@.subrange(q_start as int, q_start + dqkv),
                ks == k@.subrange(k_start as int, k_start + dqkv),
                is_dot::<T, A>(xs.take(p as int), ks.take(p as int), sum),
        {
            let m = A::times(q[q_start + p], k[k_start + p]);
            let s = A::plus(sum, m);
            proof {
                lemma_dot_step::<T, A>(xs, ks, p as int, sum, m, s);
            }
            sum = s;
        }
        let score = A::times(sum, scale);
        proof {
            assert(xs.take(dqkv as int) =~= xs);
            assert(ks.take(dqkv as int) =~= ks);
            assert(is_dot::<T, A>(xs, ks, sum));
        }
        y.push(score);
    }
    y
}

/// The values of key head `kv` at the first `total` positions, weighted by the scores that start
/// at `a_start`.
fn mix_of<T: Copy, A: Arithmetic<T>>(
    att: &Vec<T>,
    a_start: usize,
    v: &Vec<T>,
    n_kv_h: usize,
    kv: usize,
    total: usize,
    dqkv: usize,
) -> (y: Vec<T>)
    requires
        a_start + total <= att@.len(),
        kv < n_kv_h,
        total * n_kv_h <= usize::MAX,
        total * n_kv_h * dqkv <= v@.len(),
    ensures
        y@.len() == dqkv,
        forall|p: int|
            0 <= p < dqkv ==> is_dot::<T, A>(
                att@.subrange(a_start as int, a_start + total),
                head_entries(v@, dqkv as int, n_kv_h as int, kv as int, p, total as int),
                #[trigger] y@[p],
            ),
{
    let a_size = att.len();
    let v_size = v.len();
    let ghost xs = att@.subrange(a_start as int, a_start + total);
    let mut y: Vec<T> = Vec::with_capacity(dqkv);
    for p in 0..dqkv
        invariant
            a_size == att@.len(),
            v_size == v@.len(),
            a_start + total <= a_size,
            kv < n_kv_h,
            total * n_kv_h <= usize::MAX,
            total * n_kv_h * dqkv <= v_size,
            xs == att@.subrange(a_start as int, a_start + total),
            y@.len() == p,
            forall|c: int|
                0 <= c < p ==> is_dot::<T, A>(
                    xs,
                    head_entries(v@, dqkv as int, n_kv_h as int, kv as int, c, total as int),
                    #[trigger] y@[c],
                ),
    {
        let ghost vs = head_entries(
            v@,
            dqkv as int,
            n_kv_h as int,
            kv as int,
            p as int,
            total as int,
        );
        let mut sum = A::zero();
        assert(is_dot::<T, A>(xs.take(0), vs.take(0), sum));
        for j in 0..total
            invariant
                p < dqkv,
                a_size == att@.len(),
                v_size == v@.len(),
                a_start + total <= a_size,
                kv < n_kv_h,
                total * n_kv_h <= usize::MAX,
                total * n_kv_h * dqkv <= v_size,
                xs == att@.subrange(a_start as int, a_start + total),
                vs == head_entries(
                    v@,
                    dqkv as int,
                    n_kv_h as int,
                    kv as int,
                    p as int,
                    total as int,
                ),
                is_dot::<T, A>(xs.take(j as int), vs.take(j as int), sum),
        {
            proof {
                lemma_flat_bound(total as int, n_kv_h as int, j as int, kv as int);
                lemma_flat_bound(total * n_kv_h, dqkv as int, j * n_kv_h + kv, p as int);
            }
            let m = A::times(att[a_start + j], v[(j * n_kv_h + kv) * dqkv + p]);
            let s = A::plus(sum, m);
            proof {
                lemma_dot_step::<T, A>(xs, vs, j as int, sum, m, s);
            }
            sum = s;
        }
        proof {
            assert(xs.take(total as int) =~= xs);
            assert(vs.take(total as int) =~= vs);
        }
        y.push(sum);
    }
    y
}

/// Grouped-query attention. `hidden_states` receives the output vectors, and `att_scores`, of
/// shape (key heads, groups, new positions, positions), the scores after softmax. `q` holds the
/// queries of the new positions, `k` and `v` the keys and values of all positions.
pub fn self_attention<T: Copy, A: Arithmetic<T>>(
    hidden_states: &mut Tensor<T>,
    att_scores: &mut Tensor<T>,
    q: &Tensor<T>,
    k: &Tensor<T>,
    v: &Tensor<T>,
    n_kv_h: usize,
    n_groups: usize,
    seq_len: usize,
    total_seq_len: usize,
    dqkv: usize,
)
    requires
        0 < seq_len <= total_seq_len,
        seq_len * total_seq_len <= usize::MAX,
        n_kv_h * n_groups > 0 ==> dqkv <= MAX_HEAD_LEN,
        old(att_scores).wf(),
        old(att_scores).shape@ == seq![n_kv_h, n_groups, seq_len, total_seq_len],
        seq_len * (n_kv_h * n_groups) * dqkv <= q.data@.len(),
        seq_len * (n_kv_h * n_groups) * dqkv <= old(hidden_states).data@.len(),
        n_kv_h * n_groups > 0 ==> total_seq_len * n_kv_h * dqkv <= k.data@.len(),
        n_kv_h * n_groups > 0 ==> total_seq_len * n_kv_h * dqkv <= v.data@.len(),
    ensures
        final(hidden_states).shape == old(hidden_states).shape,
        final(att_scores).shape == old(att_scores).shape,
        final(att_scores).wf(),
        attended::<T, A>(
            q.data@,
            k.data@,
            v.data@,
            (Heads {
                n_kv_h: n_kv_h as int,
                n_groups: n_groups as int,
                seq_len: seq_len as int,
                total: total_seq_len as int,
                dqkv: dqkv as int,
            }),
            final(att_scores).data@,
            old(hidden_states).data@,
            final(hidden_states).data@,
        ),
{
    let ghost dims = Heads {
        n_kv_h: n_kv_h as int,
        n_groups: n_groups as int,
        seq_len: seq_len as int,
        total: total_seq_len as int,
        dqkv: dqkv as int,
    };
    let q_size = q.size();
    let k_size = k.size();
    let v_size = v.size();
    let a_size = att_scores.size();
    let h_size = hidden_states.size();
    proof {
        lemma_entries_4(n_kv_h, n_groups, seq_len, total_seq_len);
        assert(att_scores.shape@ =~= seq![n_kv_h, n_groups, seq_len, total_seq_len]);
        lemma_sizes(n_kv_h as int, n_groups as int, seq_len as int, total_seq_len as int);
    }
    let n_heads = n_kv_h * n_groups;
    let rows = n_heads * seq_len;
    let one = A::one();
    let length = A::from_usize(dqkv);
    let root = A::sqrt(length);
    let scale = A::over(one, root);
    assert(is_scale::<T, A>(dqkv, scale)) by {
        assert(is_number::<T, A>(dqkv, length));
        assert(over::<T, A>(one, root, scale));
    }
    assert(0 * seq_len == 0);
    for h in 0..n_heads
        invariant
            0 < seq_len <= total_seq_len,
            dims.n_kv_h == n_kv_h,
            dims.n_groups == n_groups,
            dims.seq_len == seq_len,
            dims.total == total_seq_len,
            dims.dqkv == dqkv,
            n_heads == n_kv_h * n_groups,
            rows == n_heads * seq_len,
            q_size == q.data@.len(),
            k_size == k.data@.len(),
            a_size == rows * total_seq_len,
            seq_len * n_heads == rows,
            seq_len * n_heads * dqkv <= q_size,
            n_heads > 0 ==> total_seq_len * n_kv_h <= usize::MAX,
            n_heads > 0 ==> total_seq_len * n_kv_h * dqkv <= k_size,
            att_scores.shape == old(att_scores).shape,
            att_scores.data@.len() == a_size,
            forall|r: int|
                0 <= r < h * seq_len ==> score_row::<T, A>(
                    q.data@,
                    k.data@,
                    dims,
                    scale,
                    r / (seq_len as int),
                    r % (seq_len as int),
                    #[trigger] row(att_scores.data@, total_seq_len as int, r),
                ),
    {
        proof {
            lemma_key_head(n_kv_h as int, n_groups as int, h as int);
        }
        let kv = h / n_groups;
        for i in 0..seq_len
            invariant
                h < n_heads,
                kv == h / n_groups,
                kv < n_kv_h,
                0 < n_groups,
                0 < seq_len <= total_seq_len,
                dims.n_kv_h == n_kv_h,
                dims.n_groups == n_groups,
                dims.seq_len == seq_len,
                dims.total == total_seq_len,
                dims.dqkv == dqkv,
                n_heads == n_kv_h * n_groups,
                rows == n_heads * seq_len,
                q_size == q.data@.len(),
                k_size == k.data@.len(),
                a_size == rows * total_seq_len,
                seq_len * n_heads == rows,
                seq_len * n_heads * dqkv <= q_size,
                total_seq_len * n_kv_h <= usize::MAX,
                total_seq_len * n_kv_h * dqkv <= k_size,
                att_scores.shape == old(att_scores).shape,
                att_scores.data@.len() == a_size,
                forall|r: int|
                    0 <= r < h * seq_len + i ==> score_row::<T, A>(
                        q.data@,
                        k.data@,
                        dims,
                        scale,
                        r / (seq_len as int),
                        r % (seq_len as int),
                        #[trigger] row(att_scores.data@, total_seq_len as int, r),
                    ),
        {
            proof {
                lemma_flat_bound(n_heads as int, seq_len as int, h as int, i as int);
                lemma_flat_bound(seq_len as int, n_heads as int, i as int, h as int);
                lemma_row_bound(seq_len * n_heads, dqkv as int, i * n_heads + h);
                vstd::arithmetic::div_mod::lemma_fundamental_div_mod_converse(
                    h * seq_len + i,
                    seq_len as int,
                    h as int,
                    i as int,
                );
            }
            let r = h * seq_len + i;
            let values = scores_of::<T, A>(
                &q.data,
                (i * n_heads + h) * dqkv,
                &k.data,
                n_kv_h,
                kv,
                total_seq_len,
                dqkv,
                scale,
            );
            set_row(&mut att_scores.data, rows, total_seq_len, r, &values);
        }
        assert((h + 1) * seq_len == h * seq_len + seq_len) by (nonlinear_arith);
    }
    let ghost raw = att_scores.data@;
    assert(scored::<T, A>(q.data@, k.data@, dims, scale, raw));
    masked_softmax::<T, A>(att_scores);
    proof {
        assert(rows * total_seq_len == total_seq_len * rows) by (nonlinear_arith);
        vstd::arithmetic::div_mod::lemma_div_multiples_vanish(rows as int, total_seq_len as int);
        assert(softmaxed::<T, A>(
            raw,
            dims.score_rows(),
            dims.seq_len,
            dims.total,
            att_scores.data@,
        ));
        assert(0 * n_heads == 0);
    }
    let ghost h0 = hidden_states.data@;
    for i in 0..seq_len
        invariant
            0 < seq_len <= total_seq_len,
            dims.n_kv_h == n_kv_h,
            dims.n_groups == n_groups,
            dims.seq_len == seq_len,
            dims.total == total_seq_len,
            dims.dqkv == dqkv,
            n_heads == n_kv_h * n_groups,
            rows == n_heads * seq_len,
            v_size == v.data@.len(),
            a_size == rows * total_seq_len,
            h_size == h0.len(),
            seq_len * n_heads == rows,
            seq_len * n_heads * dqkv <= h_size,
            n_heads > 0 ==> total_seq_len * n_kv_h <= usize::MAX,
            n_heads > 0 ==> total_seq_len * n_kv_h * dqkv <= v_size,
            att_scores.data@.len() == a_size,
            hidden_states.shape == old(hidden_states).shape,
            hidden_states.data@.len() == h_size,
            forall|x: int|
                seq_len * n_heads * dqkv <= x < h_size ==> #[trigger] hidden_states.data@[x]
                    == h0[x],
            forall|r: int|
                0 <= r < i * n_heads ==> mixed_row::<T, A>(
                    att_scores.data@,
                    v.data@,
                    dims,
                    r % (n_heads as int),
                    r / (n_heads as int),
                    #[trigger] row(hidden_states.data@, dqkv as int, r),
                ),
    {
        for h in 0..n_heads
            invariant
                i < seq_len,
                0 < seq_len <= total_seq_len,
                dims.n_kv_h == n_kv_h,
                dims.n_groups == n_groups,
                dims.seq_len == seq_len,
                dims.total == total_seq_len,
                dims.dqkv == dqkv,
                n_heads == n_kv_h * n_groups,
                rows == n_heads * seq_len,
                v_size == v.data@.len(),
                a_size == rows * total_seq_len,
                h_size == h0.len(),
                seq_len * n_heads == rows,
                seq_len * n_heads * dqkv <= h_size,
                n_heads > 0 ==> total_seq_len * n_kv_h <= usize::MAX,
                n_heads > 0 ==> total_seq_len * n_kv_h * dqkv <= v_size,
                att_scores.data@.len() == a_size,
                hidden_states.shape == old(hidden_states).shape,
                hidden_states.data@.len() == h_size,
                forall|x: int|
                    seq_len * n_heads * dqkv <= x < h_size ==> #[trigger] hidden_states.data@[x]
                        == h0[x],
                forall|r: int|
                    0 <= r < i * n_heads + h ==> mixed_row::<T, A>(
                        att_scores.data@,
                        v.data@,
                        dims,
                        r % (n_heads as int),
                        r / (n_heads as int),
                        #[trigger] row(hidden_states.data@, dqkv as int, r),
                    ),
        {
            proof {
                lemma_key_head(n_kv_h as int, n_groups as int, h as int);
                lemma_flat_bound(n_heads as int, seq_len as int, h as int, i as int);
                lemma_flat_bound(seq_len as int, n_heads as int, i as int, h as int);
                lemma_row_bound(rows as int, total_seq_len as int, h * seq_len + i);
                vstd::arithmetic::div_mod::lemma_fundamental_div_mod_converse(
                    i * n_heads + h,
                    n_heads as int,
                    i as int,
                    h as int,
                );
            }
            let values = mix_of::<T, A>(
                &att_scores.data,
                (h * seq_len + i) * total_seq_len,
                &v.data,
                n_kv_h,
                h / n_groups,
                total_seq_len,
                dqkv,
            );
            set_row(&mut hidden_states.data, rows, dqkv, i * n_heads + h, &values);
        }
        assert((i + 1) * n_heads == i * n_heads + n_heads) by (nonlinear_arith);
    }
}

/// The numbers of heads, rows and keys are no larger than the number of scores.
proof fn lemma_sizes(n_kv_h: int, n_groups: int, seq_len: int, total: int)
    requires
        0 <= n_kv_h,
        0 <= n_groups,
        0 < seq_len,
        0 < total,
    ensures
        n_kv_h * n_groups * seq_len * total == ((n_kv_h * n_groups) * seq_len) * total,
        0 <= n_kv_h * n_groups <= n_kv_h * n_groups * seq_len * total,
        0 <= (n_kv_h * n_groups) * seq_len <= n_kv_h * n_groups * seq_len * total,
        seq_len * (n_kv_h * n_groups) == (n_kv_h * n_groups) * seq_len,
        n_kv_h * n_groups > 0 ==> total * n_kv_h <= n_kv_h * n_groups * seq_len * total,
{
    let n = n_kv_h * n_groups;
    assert(0 <= n) by (nonlinear_arith)
        requires
            n == n_kv_h * n_groups,
            0 <= n_kv_h,
            0 <= n_groups,
    ;
    let r = n * seq_len;
    assert(n <= r && r == seq_len * n) by (nonlinear_arith)
        requires
            r == n * seq_len,
            0 <= n,
            0 < seq_len,
    ;
    assert(r <= r * total) by (nonlinear_arith)
        requires
            0 <= r,
            0 < total,
    ;
    if n > 0 {
        assert(n_kv_h <= n) by (nonlinear_arith)
            requires
                n == n_kv_h * n_groups,
                n > 0,
                0 <= n_kv_h,
                0 <= n_groups,
        ;
        assert(total * n_kv_h <= r * total) by (nonlinear_arith)
            requires
                0 <= n_kv_h <= r,
                0 < total,
        ;
    }
}

/// What the feed-forward block does: the residual `r0` and the two projections `g0` and `u0` can
/// become `r1`, `g1` and `u1`. The residual gains `h1`, that is
/// `(silu(n @ w_gate^T) * (n @ w_up^T)) @ w_down^T`, where `n` is the normalized residual. There
/// are `m` rows, of length `d` and `di`.
pub open spec fn fed_forward<T, A: Arithmetic<T> + Widen<T, T>>(
    m: int,
    d: int,
    di: int,
    w_up: Seq<T>,
    w_down: Seq<T>,
    w_gate: Seq<T>,
    rms_w: Seq<T>,
    eps: T,
    r0: Seq<T>,
    g0: Seq<T>,
    u0: Seq<T>,
    r1: Seq<T>,
    h1: Seq<T>,
    g1: Seq<T>,
    u1: Seq<T>,
) -> bool {
    exists|z: T, o: T, n: Seq<T>, u: Seq<T>|
        is_zero::<T, A>(z) && is_one::<T, A>(o) && #[trigger] normed::<T, A>(r0, rms_w, d, eps, n)
            && multiplied::<T, T, A>(g0, z, n, w_gate, o, m, d, di, g1) && #[trigger] multiplied::<
            T,
            T,
            A,
        >(u0, z, n, w_up, o, m, d, di, u) && gated::<T, A>(u, g1, u1) && multiplied::<T, T, A>(
            n,
            z,
            u1,
            w_down,
            o,
            m,
            di,
            d,
            h1,
        ) && added::<T, A>(r0, h1, r1)
}

/// The feed-forward block with its residual connection. `hidden_states`, `gate` and `up` are
/// buffers; `hidden_states` is left with what the residual gained.
pub fn mlp<T: Copy, A: Arithmetic<T> + Widen<T, T>>(
    residual: &mut Tensor<T>,
    hidden_states: &mut Tensor<T>,
    gate: &mut Tensor<T>,
    up: &mut Tensor<T>,
    w_up: &Tensor<T>,
    w_down: &Tensor<T>,
    w_gate: &Tensor<T>,
    rms_w: &Tensor<T>,
    eps: T,
)
    requires
        old(residual).wf(),
        old(hidden_states).wf(),
        old(gate).wf(),
        old(up).wf(),
        w_up.wf(),
        w_down.wf(),
        w_gate.wf(),
        old(residual).shape@.len() >= 1,
        old(hidden_states).shape@.len() == 2,
        old(gate).shape@.len() == 2,
        ({
            let m = old(hidden_states).shape@[0];
            let d = old(hidden_states).shape@[1];
            let di = old(gate).shape@[1];
            &&& d > 0
            &&& old(residual).shape@.last() == d
            &&& old(residual).data@.len() == old(hidden_states).data@.len()
            &&& rms_w.data@.len() == d
            &&& old(gate).shape@ == seq![m, di]
            &&& old(up).shape@ == seq![m, di]
            &&& w_up.shape@ == seq![di, d]
            &&& w_gate.shape@ == seq![di, d]
            &&& w_down.shape@ == seq![d, di]
        }),
    ensures
        final(residual).shape == old(residual).shape,
        final(hidden_states).shape == old(hidden_states).shape,
        final(gate).shape == old(gate).shape,
        final(up).shape == old(up).shape,
        final(residual).wf(),
        final(hidden_states).wf(),
        final(gate).wf(),
        final(up).wf(),
        fed_forward::<T, A>(
            old(hidden_states).shape@[0] as int,
            old(hidden_states).shape@[1] as int,
            old(gate).shape@[1] as int,
            w_up.data@,
            w_down.data@,
            w_gate.data@,
            rms_w.data@,
            eps,
            old(residual).data@,
            old(gate).data@,
            old(up).data@,
            final(residual).data@,
            final(hidden_states).data@,
            final(gate).data@,
            final(up).data@,
        ),
{
    let zero = A::zero();
    let one = A::one();
    assert(hidden_states.shape@ =~= seq![hidden_states.shape@[0], hidden_states.shape@[1]]);
    rms_norm::<T, A>(hidden_states, residual, rms_w, eps);
    let ghost n = hidden_states.data@;
    matmul_transb::<T, T, A>(gate, zero, hidden_states, w_gate, one);
    matmul_transb::<T, T, A>(up, zero, hidden_states, w_up, one);
    let ghost u = up.data@;
    proof {
        lemma_entries_2(gate.shape@[0], gate.shape@[1]);
    }
    swiglu::<T, A>(up, gate);
    matmul_transb::<T, T, A>(hidden_states, zero, up, w_down, one);
    accumulate::<T, A>(residual, hidden_states);
}

} // verus!
