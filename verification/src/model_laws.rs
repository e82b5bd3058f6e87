//! What a pass through the model and the generation of text consist of.

use crate::arith::{is_one, is_zero, Arithmetic, Widen};
use crate::attention::{attended, fed_forward, Heads};
use crate::kvcache::{blank, overwritten, KVCache};
use crate::laws::{law_continuation, law_each_choice_takes_one_position};
use crate::model::{
    contents, is_matrix, lemma_layer_sizes, token_before, Buffers, LayerTrace, Llama, PassTrace,
    Sampling,
};
use crate::operators::{added, gated, gathered, multiplied, normed, rotated};
use crate::sampling::chosen;
use crate::tensor::{lemma_entries_2, Tensor};
use vstd::prelude::*;

verus! {

/// The feed-forward block: the residual is normalized and multiplied with `w_gate` and with
/// `w_up`, the second product is gated by the first, the result is multiplied with `w_down`, and
/// that is added to the residual.
pub proof fn law_feed_forward_steps<T, A: Arithmetic<T> + Widen<T, T>>(
    m: int,
    d: int,
    di: int,
    w_up: Seq<T>,
    w_down: Seq<T>,
    w_gate: Seq<T>,
    rms_w: Seq<T>,
    eps: T,
    r0: Seq<T>,
    g0: Seq<T>,
    u0: Seq<T>,
    r1: Seq<T>,
    h1: Seq<T>,
    g1: Seq<T>,
    u1: Seq<T>,
)
    requires
        fed_forward::<T, A>(
            m,
            d,
            di,
            w_up,
            w_down,
            w_gate,
            rms_w,
            eps,
            r0,
            g0,
            u0,
            r1,
            h1,
            g1,
            u1,
        ),
    ensures
        exists|zero: T, one: T, hidden: Seq<T>, up: Seq<T>|
            is_zero::<T, A>(zero) && is_one::<T, A>(one) && #[trigger] normed::<T, A>(
                r0,
                rms_w,
                d,
                eps,
                hidden,
            ) && multiplied::<T, T, A>(g0, zero, hidden, w_gate, one, m, d, di, g1)
                && #[trigger] multiplied::<T, T, A>(u0, zero, hidden, w_up, one, m, d, di, up)
                && gated::<T, A>(up, g1, u1) && multiplied::<T, T, A>(
                hidden,
                zero,
                u1,
                w_down,
                one,
                m,
                di,
                d,
                h1,
            ) && added::<T, A>(r0, h1, r1),
{
}

/// A layer: queries, keys and values are products of the normalized residual with their weights;
/// queries and keys are rotated; keys and values are stored behind those of the earlier positions;
/// the attention output is multiplied with the output weights and added to the residual; and the
/// feed-forward block follows. All weights are those of this layer.
pub proof fn law_layer_steps<T: Default, A: Arithmetic<T> + Widen<T, T>>(
    model: &Llama<T>,
    l: int,
    n: int,
    past: int,
    keys0: Seq<T>,
    values0: Seq<T>,
    b0: Buffers<T>,
    keys1: Seq<T>,
    values1: Seq<T>,
    b1: Buffers<T>,
)
    requires
        model.layer_done::<A>(l, n, past, keys0, values0, b0, keys1, values1, b1),
    ensures
        ({
            let p = model.params;
            let d = model.d as int;
            let q_row = model.n_q_h * model.dqkv;
            let kv_row = model.n_kv_h * model.dqkv;
            let from = past * kv_row;
            let to = (past + n) * kv_row;
            exists|t: LayerTrace<T>|
                is_zero::<T, A>(t.zero) && is_one::<T, A>(t.one) && #[trigger] normed::<T, A>(
                    b0.residual,
                    p.rms_att_w@[l].data@,
                    d,
                    model.eps,
                    t.normed,
                ) && multiplied::<T, T, A>(
                    b0.q,
                    t.zero,
                    t.normed,
                    p.wq@[l].data@,
                    t.one,
                    n,
                    d,
                    q_row,
                    t.q,
                ) && multiplied::<T, T, A>(
                    keys0.subrange(from, to),
                    t.zero,
                    t.normed,
                    p.wk@[l].data@,
                    t.one,
                    n,
                    d,
                    kv_row,
                    t.k,
                ) && multiplied::<T, T, A>(
                    values0.subrange(from, to),
                    t.zero,
                    t.normed,
                    p.wv@[l].data@,
                    t.one,
                    n,
                    d,
                    kv_row,
                    t.v,
                ) && rotated::<T, A>(
                    t.q,
                    n * model.n_q_h,
                    model.n_q_h as int,
                    model.dqkv,
                    past,
                    model.rope_theta,
                    b1.q,
                ) && rotated::<T, A>(
                    t.k,
                    n * model.n_kv_h,
                    model.n_kv_h as int,
                    model.dqkv,
                    past,
                    model.rope_theta,
                    t.turned_k,
                ) && keys1 == keys0.subrange(0, from) + t.turned_k + keys0.subrange(
                    from + t.turned_k.len(),
                    keys0.len() as int,
                ) && values1 == values0.subrange(0, from) + t.v + values0.subrange(
                    from + t.v.len(),
                    values0.len() as int,
                ) && attended::<T, A>(
                    b1.q,
                    keys1,
                    values1,
                    (Heads {
                        n_kv_h: model.n_kv_h as int,
                        n_groups: model.n_q_h as int / model.n_kv_h as int,
                        seq_len: n,
                        total: past + n,
                        dqkv: model.dqkv as int,
                    }),
                    t.att,
                    t.normed,
                    t.attended,
                ) && blank(t.blank) && t.blank.len() == n * d && multiplied::<T, T, A>(
                    t.blank,
                    t.zero,
                    t.attended,
                    p.wo@[l].data@,
                    t.one,
                    n,
                    d,
                    d,
                    t.projected,
                ) && added::<T, A>(b0.residual, t.projected, t.residual) && fed_forward::<T, A>(
                    n,
                    d,
                    model.di as int,
                    p.w_up@[l].data@,
                    p.w_down@[l].data@,
                    p.w_gate@[l].data@,
                    p.rms_ffn_w@[l].data@,
                    model.eps,
                    t.residual,
                    b0.gate,
                    b0.up,
                    b1.residual,
                    t.gained,
                    b1.gate,
                    b1.up,
                )
        }),
{
    let t = choose|t: LayerTrace<T>| #[trigger]
        model.layer_steps::<A>(l, n, past, keys0, values0, b0, keys1, values1, b1, t);
    assert(normed::<T, A>(
        b0.residual,
        model.params.rms_att_w@[l].data@,
        model.d as int,
        model.eps,
        t.normed,
    ));
}

/// A pass: the embeddings of the tokens go through the layers one after the other, each of which
/// works on its own part of the cache; the last row of the result is normalized and multiplied
/// with the output matrix. The cache grows by the number of tokens.
pub proof fn law_pass_steps<T: Default, A: Arithmetic<T> + Widen<T, T>>(
    model: &Llama<T>,
    tokens: Seq<u32>,
    c0: KVCache<T>,
    c1: KVCache<T>,
    logits: Seq<T>,
)
    requires
        model.passed::<A>(tokens, c0, c1, logits),
    ensures
        c1.length == c0.length + tokens.len(),
        model.owns(c1),
        logits.len() == model.vocab,
        exists|between: Seq<Buffers<T>>, last: Seq<T>, before: Seq<T>, zero: T, one: T|
            between.len() == model.n_layers + 1 && gathered::<T, T, A>(
                tokens,
                model.params.embedding_table.data@,
                model.d as int,
                between[0].residual,
            ) && blank(between[0].q) && between[0].q.len() == tokens.len() * (model.n_q_h
                * model.dqkv) && blank(between[0].gate) && between[0].gate.len() == tokens.len()
                * model.di && blank(between[0].up) && between[0].up.len() == tokens.len()
                * model.di && (forall|
                l: int,
            |
                0 <= l < model.n_layers ==> model.layer_done::<A>(
                    l,
                    tokens.len() as int,
                    c0.length as int,
                    (#[trigger] c0.k_cache@[l]).data@,
                    c0.v_cache@[l].data@,
                    between[l],
                    c1.k_cache@[l].data@,
                    c1.v_cache@[l].data@,
                    between[l + 1],
                )) && #[trigger] normed::<T, A>(
                between[model.n_layers as int].residual.subrange(
                    (tokens.len() - 1) * model.d,
                    (tokens.len() - 1) * model.d + model.d,
                ),
                model.params.rms_out_w.data@,
                model.d as int,
                model.eps,
                last,
            ) && is_zero::<T, A>(zero) && is_one::<T, A>(one) && blank(before) && before.len()
                == model.vocab && #[trigger] multiplied::<T, T, A>(
                before,
                zero,
                last,
                model.params.lm_head.data@,
                one,
                1,
                model.d as int,
                model.vocab as int,
                logits,
            ),
{
    let t = choose|t: PassTrace<T>| #[trigger] model.pass_steps::<A>(tokens, c0, c1, t, logits);
    let n = tokens.len() - 1;
    let d = model.d as int;
    assert forall|l: int| 0 <= l < model.n_layers implies model.layer_done::<A>(
        l,
        tokens.len() as int,
        c0.length as int,
        (#[trigger] c0.k_cache@[l]).data@,
        c0.v_cache@[l].data@,
        t.buffers[l],
        c1.k_cache@[l].data@,
        c1.v_cache@[l].data@,
        t.buffers[l + 1],
    ) by {
        assert(c0.keys(l) == c0.k_cache@[l].data@);
    }
    assert(normed::<T, A>(
        t.buffers[model.n_layers as int].residual.subrange(n * d, n * d + d),
        model.params.rms_out_w.data@,
        d,
        model.eps,
        t.last,
    ));
    assert(multiplied::<T, T, A>(
        t.blank,
        t.zero,
        t.last,
        model.params.lm_head.data@,
        t.one,
        1,
        d,
        model.vocab as int,
        logits,
    ));
}

/// Storing rows replaces the entries from `start` on and leaves the others as they are.
pub proof fn law_storing_replaces_a_range<T>(s: Seq<T>, start: int, values: Seq<T>, x: int)
    requires
        0 <= start,
        start + values.len() <= s.len(),
        0 <= x < s.len(),
    ensures
        overwritten(s, start, values).len() == s.len(),
        overwritten(s, start, values)[x] == if start <= x < start + values.len() {
            values[x - start]
        } else {
            s[x]
        },
{
}

/// An empty cache has no row in use, room for the keys and values of `max_seq_len` positions in
/// each layer, and holds the default value everywhere.
pub proof fn law_empty_cache<T: Default>(model: &Llama<T>, c: KVCache<T>, l: int, x: int)
    requires
        model.is_empty_cache(c),
        0 <= l < model.n_layers,
        0 <= x < model.max_seq_len * (model.n_kv_h * model.dqkv),
    ensures
        c.length == 0,
        c.max_seq_len == model.max_seq_len,
        c.k_cache@.len() == model.n_layers,
        c.v_cache@.len() == model.n_layers,
        c.k_cache@[l].shape@ == seq![model.max_seq_len, (model.n_kv_h * model.dqkv) as usize],
        c.v_cache@[l].shape@ == seq![model.max_seq_len, (model.n_kv_h * model.dqkv) as usize],
        c.k_cache@[l].data@.len() == model.max_seq_len * (model.n_kv_h * model.dqkv),
        c.v_cache@[l].data@.len() == model.max_seq_len * (model.n_kv_h * model.dqkv),
        call_ensures(T::default, (), c.k_cache@[l].data@[x]),
        call_ensures(T::default, (), c.v_cache@[l].data@[x]),
{
    assert(c.fits(c.k_cache@[l]) && c.fits(c.v_cache@[l]));
    assert(blank(c.keys(l)) && blank(c.values(l)));
}

/// A tensor is an `a` by `b` matrix.
pub open spec fn has_shape<T>(t: Tensor<T>, a: int, b: int) -> bool {
    &&& t.shape@.len() == 2
    &&& t.shape@[0] == a
    &&& t.shape@[1] == b
    &&& t.data@.len() == a * b
}

proof fn lemma_shape<T>(t: Tensor<T>, a: int, b: int)
    ensures
        is_matrix(t, a, b) == has_shape(t, a, b),
{
    if t.shape@.len() == 2 {
        lemma_entries_2(t.shape@[0], t.shape@[1]);
        assert(t.shape@ =~= seq![t.shape@[0], t.shape@[1]]);
    }
}

/// A model is consistent exactly if its weights have the shapes that its sizes ask for, there are
/// heads and hidden states, and caches and tokens fit into the machine.
pub proof fn law_consistent_models<T>(model: &Llama<T>)
    ensures
        model.consistent() <==> {
            let p = model.params;
            let d = model.d as int;
            let q_row = model.n_q_h * model.dqkv;
            let kv_row = model.n_kv_h * model.dqkv;
            let n = model.n_layers as int;
            &&& 0 < model.n_kv_h
            &&& 0 < d
            &&& model.vocab <= 0x1_0000_0000
            &&& kv_row <= usize::MAX
            &&& model.max_seq_len * kv_row <= usize::MAX
            &&& n > 0 ==> q_row <= d
            &&& n > 0 && model.n_kv_h <= model.n_q_h ==> model.dqkv <= 128
            &&& p.embedding_table.shape@.len() == 2
            &&& has_shape(p.embedding_table, p.embedding_table.shape@[0] as int, d)
            &&& p.rms_out_w.data@.len() == d
            &&& has_shape(p.lm_head, model.vocab as int, d)
            &&& p.rms_att_w@.len() == n && p.rms_ffn_w@.len() == n
            &&& p.wq@.len() == n && p.wk@.len() == n && p.wv@.len() == n && p.wo@.len() == n
            &&& p.w_up@.len() == n && p.w_gate@.len() == n && p.w_down@.len() == n
            &&& forall|l: int|
                0 <= l < n ==> has_shape(#[trigger] p.wq@[l], q_row, d)
            &&& forall|l: int|
                0 <= l < n ==> has_shape(#[trigger] p.wk@[l], kv_row, d)
            &&& forall|l: int|
                0 <= l < n ==> has_shape(#[trigger] p.wv@[l], kv_row, d)
            &&& forall|l: int|
                0 <= l < n ==> has_shape(#[trigger] p.wo@[l], d, d)
            &&& forall|l: int| 0 <= l < n ==> (#[trigger] p.rms_att_w@[l]).data@.len() == d
            &&& forall|l: int| 0 <= l < n ==> (#[trigger] p.rms_ffn_w@[l]).data@.len() == d
            &&& forall|l: int|
                0 <= l < n ==> has_shape(#[trigger] p.w_up@[l], model.di as int, d)
            &&& forall|l: int|
                0 <= l < n ==> has_shape(#[trigger] p.w_gate@[l], model.di as int, d)
            &&& forall|l: int|
                0 <= l < n ==> has_shape(#[trigger] p.w_down@[l], d, model.di as int)
        },
{
    let p = model.params;
    let d = model.d as int;
    let di = model.di as int;
    let n = model.n_layers as int;
    let q = model.n_q_h * model.dqkv;
    let kv = model.n_kv_h * model.dqkv;
    if p.embedding_table.shape@.len() == 2 {
        lemma_shape(p.embedding_table, p.embedding_table.shape@[0] as int, d);
    }
    lemma_shape(p.lm_head, model.vocab as int, d);
    if model.n_kv_h > 0 {
        let nq = model.n_q_h as int;
        let nk = model.n_kv_h as int;
        let g = nq / nk;
        vstd::arithmetic::div_mod::lemma_fundamental_div_mod(nq, nk);
        vstd::arithmetic::div_mod::lemma_mod_bound(nq, nk);
        vstd::arithmetic::div_mod::lemma_div_pos_is_pos(nq, nk);
        assert(g > 0 <==> nk <= nq) by (nonlinear_arith)
            requires
                nq == nk * g + nq % nk,
                0 <= nq % nk < nk,
                0 <= g,
        ;
    }
    assert forall|l: int| 0 <= l < n && model.layers_present() implies #[trigger]
        model.layer_consistent(l) == {
        &&& p.rms_att_w@[l].data@.len() == d
        &&& has_shape(p.wq@[l], q, d)
        &&& has_shape(p.wk@[l], kv, d)
        &&& has_shape(p.wv@[l], kv, d)
        &&& has_shape(p.wo@[l], d, d)
        &&& p.rms_ffn_w@[l].data@.len() == d
        &&& has_shape(p.w_up@[l], di, d)
        &&& has_shape(p.w_gate@[l], di, d)
        &&& has_shape(p.w_down@[l], d, di)
    } by {
        lemma_shape(p.wq@[l], q, d);
        lemma_shape(p.wk@[l], kv, d);
        lemma_shape(p.wv@[l], kv, d);
        lemma_shape(p.wo@[l], d, d);
        lemma_shape(p.w_up@[l], di, d);
        lemma_shape(p.w_gate@[l], di, d);
        lemma_shape(p.w_down@[l], d, di);
    }
    if model.consistent() {
        assert forall|l: int| 0 <= l < n implies has_shape(#[trigger] p.wq@[l], q, d) by {
            assert(model.layer_consistent(l));
        }
        assert forall|l: int| 0 <= l < n implies has_shape(#[trigger] p.wk@[l], kv, d) by {
            assert(model.layer_consistent(l));
        }
        assert forall|l: int| 0 <= l < n implies has_shape(#[trigger] p.wv@[l], kv, d) by {
            assert(model.layer_consistent(l));
        }
        assert forall|l: int| 0 <= l < n implies has_shape(#[trigger] p.wo@[l], d, d) by {
            assert(model.layer_consistent(l));
        }
        assert forall|l: int| 0 <= l < n implies (#[trigger] p.rms_att_w@[l]).data@.len() == d by {
            assert(model.layer_consistent(l));
        }
        assert forall|l: int| 0 <= l < n implies (#[trigger] p.rms_ffn_w@[l]).data@.len() == d by {
            assert(model.layer_consistent(l));
        }
        assert forall|l: int| 0 <= l < n implies has_shape(#[trigger] p.w_up@[l], di, d) by {
            assert(model.layer_consistent(l));
        }
        assert forall|l: int| 0 <= l < n implies has_shape(#[trigger] p.w_gate@[l], di, d) by {
            assert(model.layer_consistent(l));
        }
        assert forall|l: int| 0 <= l < n implies has_shape(#[trigger] p.w_down@[l], d, di) by {
            assert(model.layer_consistent(l));
        }
    }
}

/// The cache belongs to the model exactly if it has a tensor of keys and one of values for each
/// layer, each with one row for each position, and rows of one key or value for each head.
pub proof fn law_owned_caches<T>(model: &Llama<T>, c: KVCache<T>)
    ensures
        model.owns(c) <==> {
            let kv_row = model.n_kv_h * model.dqkv;
            &&& c.max_seq_len == model.max_seq_len
            &&& c.dim == kv_row
            &&& c.length <= model.max_seq_len
            &&& c.k_cache@.len() == model.n_layers
            &&& c.v_cache@.len() == model.n_layers
            &&& forall|l: int|
                0 <= l < model.n_layers ==> has_shape(
                    #[trigger] c.k_cache@[l],
                    model.max_seq_len as int,
                    kv_row,
                )
            &&& forall|l: int|
                0 <= l < model.n_layers ==> has_shape(
                    #[trigger] c.v_cache@[l],
                    model.max_seq_len as int,
                    kv_row,
                )
        },
{
    let m = model.max_seq_len as int;
    let kv_row = model.n_kv_h * model.dqkv;
    if c.dim == kv_row && c.max_seq_len == m {
        assert forall|t: Tensor<T>| #[trigger] c.fits(t) == has_shape(t, m, kv_row) by {
            lemma_shape(t, m, kv_row);
            lemma_entries_2(c.max_seq_len, c.dim);
            if has_shape(t, m, kv_row) {
                assert(t.shape@ =~= seq![c.max_seq_len, c.dim]);
            }
        }
        if model.owns(c) {
            assert forall|l: int| 0 <= l < model.n_layers implies has_shape(
                #[trigger] c.k_cache@[l],
                m,
                kv_row,
            ) by {
                assert(c.fits(c.k_cache@[l]));
            }
            assert forall|l: int| 0 <= l < model.n_layers implies has_shape(
                #[trigger] c.v_cache@[l],
                m,
                kv_row,
            ) by {
                assert(c.fits(c.v_cache@[l]));
            }
        }
    }
}

/// A cache for the model can be made exactly if one layer of it fits into the machine.
pub proof fn law_cacheable_models<T>(model: &Llama<T>)
    ensures
        model.cacheable() <==> model.n_kv_h * model.dqkv <= usize::MAX && model.max_seq_len * (
        model.n_kv_h * model.dqkv) <= usize::MAX,
{
}

/// Tokens can be taken in exactly if there are some, each has a row in the table of embeddings,
/// the cache has room for them, and the buffers can be laid out.
pub proof fn law_accepted_tokens<T>(model: &Llama<T>, tokens: Seq<u32>, c: KVCache<T>)
    ensures
        model.accepts(tokens, c) <==> {
            let n = tokens.len() as int;
            let total = c.length + n;
            &&& n > 0
            &&& forall|i: int|
                0 <= i < n ==> #[trigger] tokens[i] < model.params.embedding_table.shape@[0]
            &&& total <= model.max_seq_len
            &&& n * model.d <= usize::MAX
            &&& n * (model.n_q_h * model.dqkv) <= usize::MAX
            &&& n * model.di <= usize::MAX
            &&& n * total <= usize::MAX
            &&& model.n_kv_h * (model.n_q_h as int / model.n_kv_h as int) * n * total
                <= usize::MAX
        },
{
}

/// What is said of the tokens in a result is said of exactly those tokens.
pub proof fn law_contents(r: Option<Vec<u32>>)
    ensures
        r is None <==> contents(r) is None,
        r is Some ==> contents(r)->0 == r->0@,
{
}

/// The text that generation starts from is the given one, or the start token if that is empty.
pub proof fn law_start_text<T>(model: &Llama<T>, token_ids: Seq<u32>)
    ensures
        token_ids.len() > 0 ==> model.start_text(token_ids) == token_ids,
        token_ids.len() == 0 ==> model.start_text(token_ids) == seq![model.bos_token_id],
{
}

/// A pass that takes in `token` alone after what the cache `c0` holds leaves the cache `c1`, and
/// `next` can be chosen from its scores.
pub open spec fn chosen_after<T: Default, A: Arithmetic<T> + Widen<T, T>>(
    model: &Llama<T>,
    token: u32,
    c0: KVCache<T>,
    c1: KVCache<T>,
    how: Sampling<T>,
    next: u32,
) -> bool {
    exists|logits: Seq<T>| #[trigger]
        model.passed::<A>(seq![token], c0, c1, logits) && chosen::<T, A>(
            logits,
            how.top_p,
            how.top_k,
            how.temperature,
            Some(next),
        )
}

/// A token that is chosen after another is chosen from the scores that the other gives.
pub proof fn law_chosen_after<T: Default, A: Arithmetic<T> + Widen<T, T>>(
    model: &Llama<T>,
    token: u32,
    c0: KVCache<T>,
    c1: KVCache<T>,
    how: Sampling<T>,
    next: u32,
)
    requires
        chosen_after::<T, A>(model, token, c0, c1, how, next),
    ensures
        c1.length == c0.length + 1,
        exists|logits: Seq<T>| #[trigger]
            model.passed::<A>(seq![token], c0, c1, logits) && chosen::<T, A>(
                logits,
                how.top_p,
                how.top_k,
                how.temperature,
                Some(next),
            ),
{
}

/// Each token of a continuation is chosen from the scores of a pass that takes in the token before
/// it alone, the first one from those of a pass that takes in the last token of the text. The pass
/// for token `i` finds the cache with `i` more positions than at the start, and the cache at the
/// end is that after the last pass. The continuation ends with the end token or with `max_len`
/// tokens.
pub proof fn law_continuation_steps<T: Default, A: Arithmetic<T> + Widen<T, T>>(
    model: &Llama<T>,
    first: u32,
    c0: KVCache<T>,
    max_len: int,
    how: Sampling<T>,
    picks: Seq<u32>,
    c1: KVCache<T>,
)
    requires
        model.continued::<A>(first, c0, max_len, how, picks, true, c1),
    ensures
        picks.len() <= max_len,
        picks.len() < max_len ==> picks.len() > 0 && picks.last() == model.eos_token_id,
        c1.length == c0.length + picks.len(),
        exists|caches: Seq<KVCache<T>>, taken: Seq<u32>|
            {
                &&& #[trigger] caches.len() == picks.len() + 1
                &&& caches[0] == c0
                &&& caches[picks.len() as int] == c1
                &&& #[trigger] taken.len() == picks.len() + 1
                &&& taken == seq![first] + picks
                &&& forall|i: int|
                    0 <= i < picks.len() ==> #[trigger] chosen_after::<T, A>(
                        model,
                        taken[i],
                        caches[i],
                        caches[i + 1],
                        how,
                        picks[i],
                    )
                &&& forall|i: int|
                    0 <= i <= picks.len() ==> (#[trigger] caches[i]).length == c0.length + i
            },
{
    let caches = choose|caches: Seq<KVCache<T>>|
        caches[0] == c0 && #[trigger] model.continues::<A>(
            first,
            caches,
            max_len,
            how,
            picks,
            true,
            c1,
        );
    let taken = seq![first] + picks;
    assert(model.picked::<A>(first, caches, how, picks));
    assert forall|i: int| 0 <= i <= picks.len() implies (#[trigger] caches[i]).length == c0.length
        + i by {
        law_each_choice_takes_one_position::<T, A>(model, first, caches, how, picks, i);
    }
    assert forall|i: int| 0 <= i < picks.len() implies #[trigger] chosen_after::<T, A>(
        model,
        taken[i],
        caches[i],
        caches[i + 1],
        how,
        picks[i],
    ) by {
        assert(model.picked_at::<A>(first, caches, how, picks, i));
        assert(token_before(first, picks, i) == taken[i]);
    }
    assert(caches[picks.len() as int] == c1);
    assert(taken.len() == picks.len() + 1);
}

/// A continuation breaks off only where it has neither come to the end token nor to `max_len`
/// tokens, and where the last token cannot be taken in, or there is no token to choose, or none
/// can be chosen from the scores.
pub proof fn law_broken_continuation<T: Default, A: Arithmetic<T> + Widen<T, T>>(
    model: &Llama<T>,
    first: u32,
    c0: KVCache<T>,
    max_len: int,
    how: Sampling<T>,
    picks: Seq<u32>,
    c1: KVCache<T>,
)
    requires
        model.continued::<A>(first, c0, max_len, how, picks, false, c1),
    ensures
        picks.len() < max_len,
        forall|i: int| 0 <= i < picks.len() ==> #[trigger] picks[i] != model.eos_token_id,
        ({
            let last = (seq![first] + picks).last();
            exists|c: KVCache<T>|
                {
                    &&& #[trigger] c.length == c0.length + picks.len()
                    &&& {
                        ||| !model.accepts(seq![last], c) && c1 == c
                        ||| model.vocab == 0 && c1.length == c.length + 1
                        ||| c1.length == c.length + 1 && exists|logits: Seq<T>| #[trigger]
                            model.passed::<A>(seq![last], c, c1, logits) && chosen::<T, A>(
                                logits,
                                how.top_p,
                                how.top_k,
                                how.temperature,
                                None,
                            )
                    }
                }
        }),
{
    let caches = choose|caches: Seq<KVCache<T>>|
        caches[0] == c0 && #[trigger] model.continues::<A>(
            first,
            caches,
            max_len,
            how,
            picks,
            false,
            c1,
        );
    let n = picks.len() as int;
    law_each_choice_takes_one_position::<T, A>(model, first, caches, how, picks, n);
    let c = caches[n];
    assert(c == caches.last());
    assert(c.length == c0.length + n);
    assert(token_before(first, picks, n) == (seq![first] + picks).last());
    assert(model.stuck::<A>((seq![first] + picks).last(), c, c1, how));
}

/// Where there is room for the text and for `max_len` further tokens, each token of the vocabulary
/// has an embedding, and a token can be chosen from any scores, generation succeeds.
pub proof fn law_generation_succeeds<T: Default, A: Arithmetic<T> + Widen<T, T>>(
    model: &Llama<T>,
    token_ids: Seq<u32>,
    c0: KVCache<T>,
    max_len: int,
    how: Sampling<T>,
    r: Option<Seq<u32>>,
)
    requires
        model.consistent(),
        model.accepts(model.start_text(token_ids), c0),
        c0.length + model.start_text(token_ids).len() + max_len <= model.max_seq_len,
        model.n_q_h * model.dqkv <= usize::MAX,
        model.n_q_h * model.max_seq_len <= usize::MAX,
        0 < model.vocab <= model.params.embedding_table.shape@[0],
        forall|logits: Seq<T>|
            logits.len() == model.vocab ==> !#[trigger] chosen::<T, A>(
                logits,
                how.top_p,
                how.top_k,
                how.temperature,
                None,
            ),
        model.generated::<A>(token_ids, c0, max_len, how, r),
    ensures
        r is Some,
{
    let text = model.start_text(token_ids);
    if r is None {
        let (logits, c, picks, done, c1) = choose|
            logits: Seq<T>,
            c: KVCache<T>,
            picks: Seq<u32>,
            done: bool,
            c1: KVCache<T>,
        | #[trigger]
            model.passed::<A>(text, c0, c, logits) && #[trigger] model.continued::<A>(
                text.last(),
                c,
                max_len,
                how,
                picks,
                done,
                c1,
            ) && !done;
        law_broken_continuation::<T, A>(model, text.last(), c, max_len, how, picks, c1);
        law_continuation::<T, A>(model, text.last(), c, max_len, how, picks, false, c1);
        let last = (seq![text.last()] + picks).last();
        assert(last < model.params.embedding_table.shape@[0]);
        let b = choose|b: KVCache<T>| #[trigger]
            b.length == c.length + picks.len() && {
                ||| !model.accepts(seq![last], b) && c1 == b
                ||| model.vocab == 0 && c1.length == b.length + 1
                ||| c1.length == b.length + 1 && exists|logits: Seq<T>| #[trigger]
                    model.passed::<A>(seq![last], b, c1, logits) && chosen::<T, A>(
                        logits,
                        how.top_p,
                        how.top_k,
                        how.temperature,
                        None,
                    )
            };
        let total = b.length + 1;
        let h = model.n_kv_h * model.groups();
        let nq = model.n_q_h as int;
        let m = model.max_seq_len as int;
        lemma_layer_sizes(model, 1, b.length as int);
        assert(h * 1 * total <= nq * m) by (nonlinear_arith)
            requires
                0 <= h <= nq,
                0 <= total <= m,
        ;
        assert(model.has_room(1, total)) by {
            assert(1 * model.d <= usize::MAX);
            assert(1 * model.q_len() <= usize::MAX);
            assert(1 * model.di <= usize::MAX);
            assert(1 * total <= usize::MAX);
        }
        assert(model.accepts(seq![last], b));
    }
}

} // verus!
