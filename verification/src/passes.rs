//! What passes through a model, and the choices that follow them, are determined by.

use crate::arith::{encodes, is_one, is_zero, Arithmetic, Widen};
use crate::causality::{lemma_attended, lemma_fed_forward};
use crate::determined::{
    determined, lemma_added, lemma_gathered, lemma_multiplied, lemma_normed, lemma_rotated,
    widening_determined,
};
use crate::kvcache::{blank, KVCache};
use crate::layout::{lemma_row_bound, row};
use crate::laws::{law_cold_choice_is_the_largest, law_largest_is_unique};
use crate::model::{
    lemma_layer_sizes, token_before, Buffers, LayerTrace, Llama, PassTrace, Sampling,
};
use crate::sampling::{chosen, encoded, not_positive, picked_largest};
use crate::tensor::is_default;
use vstd::prelude::*;

verus! {

/// Arithmetic, conversion and default value are determined.
#[verifier::opaque]
pub open spec fn all_determined<T: Default, A: Arithmetic<T> + Widen<T, T>>() -> bool {
    &&& determined::<T, A>()
    &&& widening_determined::<T, T, A>()
    &&& forall|z1: T, z2: T| #[trigger] is_default(z1) && #[trigger] is_default(z2) ==> z1 == z2
}

/// The caches have the same rows in use, and hold the same.
pub open spec fn same_contents<T>(a: KVCache<T>, b: KVCache<T>) -> bool {
    &&& a.length == b.length
    &&& a.k_cache@.len() == b.k_cache@.len()
    &&& forall|l: int| 0 <= l < a.k_cache@.len() ==> #[trigger] a.keys(l) == b.keys(l)
    &&& forall|l: int| 0 <= l < a.k_cache@.len() ==> #[trigger] a.values(l) == b.values(l)
}

pub proof fn lemma_blank<T: Default>(s1: Seq<T>, s2: Seq<T>)
    requires
        forall|z1: T, z2: T| #[trigger] is_default(z1) && #[trigger] is_default(z2) ==> z1 == z2,
        s1.len() == s2.len(),
        blank(s1),
        blank(s2),
    ensures
        s1 == s2,
{
    let z1 = choose|z: T| #[trigger] is_default(z) && s1 == Seq::new(s1.len(), |i: int| z);
    let z2 = choose|z: T| #[trigger] is_default(z) && s2 == Seq::new(s2.len(), |i: int| z);
    assert(z1 == z2);
    assert(s1 =~= s2);
}

impl<T> Llama<T> {
    /// The buffers have the sizes for `n` new positions.
    pub open spec fn buffers_fit(&self, b: Buffers<T>, n: int) -> bool {
        &&& b.residual.len() == n * self.d
        &&& b.q.len() == n * self.q_len()
        &&& b.gate.len() == n * self.di
        &&& b.up.len() == n * self.di
    }

    /// The new positions fit behind the others.
    pub open spec fn positions_fit(&self, past: int, n: int) -> bool {
        0 < n && 0 <= past && past + n <= self.max_seq_len
    }
}

/// What a layer makes of its input has the sizes that the next layer needs.
pub proof fn lemma_layer_fits<T: Default, A: Arithmetic<T> + Widen<T, T>>(
    model: &Llama<T>,
    l: int,
    n: int,
    past: int,
    keys0: Seq<T>,
    values0: Seq<T>,
    b0: Buffers<T>,
    keys1: Seq<T>,
    values1: Seq<T>,
    b1: Buffers<T>,
    t: LayerTrace<T>,
)
    requires
        model.consistent(),
        model.positions_fit(past, n),
        keys0.len() == model.max_seq_len * model.kv_len(),
        values0.len() == model.max_seq_len * model.kv_len(),
        model.buffers_fit(b0, n),
        model.layer_steps::<A>(l, n, past, keys0, values0, b0, keys1, values1, b1, t),
    ensures
        model.buffers_fit(b1, n),
        keys1.len() == keys0.len(),
        values1.len() == values0.len(),
        t.normed.len() == n * model.d,
        t.q.len() == n * model.q_len(),
        t.k.len() == n * model.kv_len(),
        t.v.len() == n * model.kv_len(),
        t.turned_k.len() == n * model.kv_len(),
        t.attended.len() == n * model.d,
        t.projected.len() == n * model.d,
        t.residual.len() == n * model.d,
        0 <= past * model.kv_len(),
        (past + n) * model.kv_len() == past * model.kv_len() + n * model.kv_len(),
        (past + n) * model.kv_len() <= keys0.len(),
{
    lemma_layer_sizes(model, n, past);
}

/// With arithmetic that is determined, a layer has one result only.
pub proof fn lemma_layer<T: Default, A: Arithmetic<T> + Widen<T, T>>(
    model: &Llama<T>,
    l: int,
    n: int,
    past: int,
    keys0: Seq<T>,
    values0: Seq<T>,
    b0: Buffers<T>,
    keys1: Seq<T>,
    values1: Seq<T>,
    b1: Buffers<T>,
    keys2: Seq<T>,
    values2: Seq<T>,
    b2: Buffers<T>,
)
    requires
        all_determined::<T, A>(),
        model.consistent(),
        0 <= l < model.n_layers,
        model.positions_fit(past, n),
        keys0.len() == model.max_seq_len * model.kv_len(),
        values0.len() == model.max_seq_len * model.kv_len(),
        model.buffers_fit(b0, n),
        model.layer_done::<A>(l, n, past, keys0, values0, b0, keys1, values1, b1),
        model.layer_done::<A>(l, n, past, keys0, values0, b0, keys2, values2, b2),
    ensures
        model.buffers_fit(b1, n),
        keys1 == keys2,
        values1 == values2,
        b1 == b2,
{
    reveal(all_determined);
    let t1 = choose|t: LayerTrace<T>| #[trigger]
        model.layer_steps::<A>(l, n, past, keys0, values0, b0, keys1, values1, b1, t);
    let t2 = choose|t: LayerTrace<T>| #[trigger]
        model.layer_steps::<A>(l, n, past, keys0, values0, b0, keys2, values2, b2, t);
    lemma_layer_fits::<T, A>(model, l, n, past, keys0, values0, b0, keys1, values1, b1, t1);
    lemma_layer_fits::<T, A>(model, l, n, past, keys0, values0, b0, keys2, values2, b2, t2);
    lemma_layer_sizes(model, n, past);
    let p = model.params;
    let d = model.d as int;
    let dim = model.kv_len();
    let from = past * dim;
    let to = (past + n) * dim;
    assert(t1.zero == t2.zero && t1.one == t2.one) by {
        assert(is_zero::<T, A>(t1.zero) && is_zero::<T, A>(t2.zero));
        assert(is_one::<T, A>(t1.one) && is_one::<T, A>(t2.one));
    }
    let z = t1.zero;
    let o = t1.one;
    lemma_normed::<T, A>(b0.residual, p.rms_att_w@[l].data@, n, d, model.eps, t1.normed, t2.normed);
    let h = t1.normed;
    lemma_multiplied::<T, T, A>(
        b0.q,
        z,
        h,
        p.wq@[l].data@,
        o,
        n,
        d,
        model.q_len(),
        t1.q,
        t2.q,
    );
    lemma_multiplied::<T, T, A>(
        keys0.subrange(from, to),
        z,
        h,
        p.wk@[l].data@,
        o,
        n,
        d,
        dim,
        t1.k,
        t2.k,
    );
    lemma_multiplied::<T, T, A>(
        values0.subrange(from, to),
        z,
        h,
        p.wv@[l].data@,
        o,
        n,
        d,
        dim,
        t1.v,
        t2.v,
    );
    lemma_row_bound(n + 1, model.n_q_h as int, n);
    lemma_row_bound(n + 1, model.n_kv_h as int, n);
    lemma_rotated::<T, A>(
        t1.q,
        n * model.n_q_h,
        model.n_q_h as int,
        model.dqkv,
        past,
        model.rope_theta,
        b1.q,
        b2.q,
    );
    lemma_rotated::<T, A>(
        t1.k,
        n * model.n_kv_h,
        model.n_kv_h as int,
        model.dqkv,
        past,
        model.rope_theta,
        t1.turned_k,
        t2.turned_k,
    );
    lemma_attended::<T, A>(
        b1.q,
        keys1,
        values1,
        model.heads(n, past + n),
        t1.att,
        t2.att,
        h,
        t1.attended,
        t2.attended,
    );
    lemma_blank(t1.blank, t2.blank);
    lemma_multiplied::<T, T, A>(
        t1.blank,
        z,
        t1.attended,
        p.wo@[l].data@,
        o,
        n,
        d,
        d,
        t1.projected,
        t2.projected,
    );
    lemma_added::<T, A>(b0.residual, t1.projected, t1.residual, t2.residual);
    lemma_fed_forward::<T, A>(
        n,
        d,
        model.di as int,
        p.w_up@[l].data@,
        p.w_down@[l].data@,
        p.w_gate@[l].data@,
        p.rms_ffn_w@[l].data@,
        model.eps,
        t1.residual,
        b0.gate,
        b0.up,
        b1.residual,
        t1.gained,
        b1.gate,
        b1.up,
        b2.residual,
        t2.gained,
        b2.gate,
        b2.up,
    );
}

/// The first `k` layers of two passes over the same tokens agree.
proof fn lemma_layers<T: Default, A: Arithmetic<T> + Widen<T, T>>(
    model: &Llama<T>,
    tokens: Seq<u32>,
    c0: KVCache<T>,
    c1: KVCache<T>,
    t1: PassTrace<T>,
    logits1: Seq<T>,
    e0: KVCache<T>,
    e1: KVCache<T>,
    t2: PassTrace<T>,
    logits2: Seq<T>,
    k: int,
)
    requires
        all_determined::<T, A>(),
        model.consistent(),
        model.owns(c0),
        model.owns(e0),
        model.accepts(tokens, c0),
        same_contents(c0, e0),
        model.pass_steps::<A>(tokens, c0, c1, t1, logits1),
        model.pass_steps::<A>(tokens, e0, e1, t2, logits2),
        0 <= k <= model.n_layers,
    ensures
        model.buffers_fit(t1.buffers[k], tokens.len() as int),
        t1.buffers[k] == t2.buffers[k],
        forall|l: int| 0 <= l < k ==> #[trigger] c1.keys(l) == e1.keys(l),
        forall|l: int| 0 <= l < k ==> #[trigger] c1.values(l) == e1.values(l),
    decreases k,
{
    reveal(all_determined);
    let n = tokens.len() as int;
    let past = c0.length as int;
    if k == 0 {
        lemma_gathered::<T, T, A>(
            tokens,
            model.params.embedding_table.data@,
            model.d as int,
            t1.buffers[0].residual,
            t2.buffers[0].residual,
        );
        lemma_blank(t1.buffers[0].q, t2.buffers[0].q);
        lemma_blank(t1.buffers[0].gate, t2.buffers[0].gate);
        lemma_blank(t1.buffers[0].up, t2.buffers[0].up);
    } else {
        let l = k - 1;
        lemma_layers::<T, A>(
            model,
            tokens,
            c0,
            c1,
            t1,
            logits1,
            e0,
            e1,
            t2,
            logits2,
            l,
        );
        assert(c0.fits(c0.k_cache@[l]) && c0.fits(c0.v_cache@[l]));
        assert(c0.keys(l) == e0.keys(l) && c0.values(l) == e0.values(l));
        assert(model.layer_done::<A>(
            l,
            n,
            past,
            c0.keys(l),
            c0.values(l),
            t1.buffers[l],
            c1.keys(l),
            c1.values(l),
            t1.buffers[l + 1],
        ));
        assert(model.layer_done::<A>(
            l,
            n,
            past,
            e0.keys(l),
            e0.values(l),
            t2.buffers[l],
            e1.keys(l),
            e1.values(l),
            t2.buffers[l + 1],
        ));
        lemma_layer::<T, A>(
            model,
            l,
            n,
            past,
            c0.keys(l),
            c0.values(l),
            t1.buffers[l],
            c1.keys(l),
            c1.values(l),
            t1.buffers[l + 1],
            e1.keys(l),
            e1.values(l),
            t2.buffers[l + 1],
        );
    }
}

/// With arithmetic that is determined, a pass has one result only: the same scores, and caches
/// that hold the same.
pub proof fn lemma_pass<T: Default, A: Arithmetic<T> + Widen<T, T>>(
    model: &Llama<T>,
    tokens: Seq<u32>,
    c0: KVCache<T>,
    c1: KVCache<T>,
    logits1: Seq<T>,
    e0: KVCache<T>,
    e1: KVCache<T>,
    logits2: Seq<T>,
)
    requires
        all_determined::<T, A>(),
        model.consistent(),
        model.owns(c0),
        model.owns(e0),
        model.accepts(tokens, c0),
        same_contents(c0, e0),
        model.passed::<A>(tokens, c0, c1, logits1),
        model.passed::<A>(tokens, e0, e1, logits2),
    ensures
        logits1 == logits2,
        same_contents(c1, e1),
{
    reveal(all_determined);
    let t1 = choose|t: PassTrace<T>| #[trigger]
        model.pass_steps::<A>(tokens, c0, c1, t, logits1);
    let t2 = choose|t: PassTrace<T>| #[trigger]
        model.pass_steps::<A>(tokens, e0, e1, t, logits2);
    let k = model.n_layers as int;
    let n = tokens.len() as int;
    let d = model.d as int;
    lemma_layers::<T, A>(model, tokens, c0, c1, t1, logits1, e0, e1, t2, logits2, k);
    lemma_row_bound(n, d, n - 1);
    let last = row(t1.buffers[k].residual, d, n - 1);
    assert(1 * d == d);
    lemma_normed::<T, A>(last, model.params.rms_out_w.data@, 1, d, model.eps, t1.last, t2.last);
    assert(t1.zero == t2.zero && t1.one == t2.one) by {
        assert(is_zero::<T, A>(t1.zero) && is_zero::<T, A>(t2.zero));
        assert(is_one::<T, A>(t1.one) && is_one::<T, A>(t2.one));
    }
    lemma_blank(t1.blank, t2.blank);
    assert(1 * model.vocab == model.vocab);
    lemma_multiplied::<T, T, A>(
        t1.blank,
        t1.zero,
        t1.last,
        model.params.lm_head.data@,
        t1.one,
        1,
        d,
        model.vocab as int,
        logits1,
        logits2,
    );
}

/// The choice does not depend on chance.
pub open spec fn is_cold<T, A: Arithmetic<T>>(how: Sampling<T>) -> bool {
    ||| how.top_k < 2
    ||| forall|tb: u32| #[trigger] encodes::<T, A>(how.temperature, tb) ==> not_positive(tb)
    ||| forall|pb: u32| #[trigger] encodes::<T, A>(how.top_p, pb) ==> not_positive(pb)
}

/// A choice that does not depend on chance is determined.
pub proof fn lemma_cold_choice<T, A: Arithmetic<T>>(
    x: Seq<T>,
    how: Sampling<T>,
    r1: Option<u32>,
    r2: Option<u32>,
)
    requires
        determined::<T, A>(),
        is_cold::<T, A>(how),
        chosen::<T, A>(x, how.top_p, how.top_k, how.temperature, r1),
        chosen::<T, A>(x, how.top_p, how.top_k, how.temperature, r2),
    ensures
        r1 == r2,
{
    law_cold_choice_is_the_largest::<T, A>(x, how.top_p, how.top_k, how.temperature, r1);
    law_cold_choice_is_the_largest::<T, A>(x, how.top_p, how.top_k, how.temperature, r2);
    let b1 = choose|bits: Seq<u32>| #[trigger]
        encoded::<T, A>(x, bits) && picked_largest(bits, r1);
    let b2 = choose|bits: Seq<u32>| #[trigger]
        encoded::<T, A>(x, bits) && picked_largest(bits, r2);
    assert forall|i: int| 0 <= i < x.len() implies b1[i] == b2[i] by {
        assert(encodes::<T, A>(x[i], b1[i]) && encodes::<T, A>(x[i], b2[i]));
    }
    assert(b1 =~= b2);
    law_largest_is_unique(b1, r1, r2);
}

/// A step without chance is determined.
proof fn lemma_stepped<T: Default, A: Arithmetic<T> + Widen<T, T>>(
    model: &Llama<T>,
    token: u32,
    how: Sampling<T>,
    c0: KVCache<T>,
    c1: KVCache<T>,
    r1: Option<u32>,
    e0: KVCache<T>,
    e1: KVCache<T>,
    r2: Option<u32>,
)
    requires
        all_determined::<T, A>(),
        is_cold::<T, A>(how),
        model.consistent(),
        model.owns(c0),
        model.owns(e0),
        same_contents(c0, e0),
        model.stepped::<A>(token, c0, c1, how, r1),
        model.stepped::<A>(token, e0, e1, how, r2),
    ensures
        r1 == r2,
        model.owns(c1),
        model.owns(e1),
        same_contents(c1, e1),
{
    reveal(all_determined);
    let x1 = choose|logits: Seq<T>| #[trigger]
        model.passed::<A>(seq![token], c0, c1, logits) && chosen::<T, A>(
            logits,
            how.top_p,
            how.top_k,
            how.temperature,
            r1,
        );
    let x2 = choose|logits: Seq<T>| #[trigger]
        model.passed::<A>(seq![token], e0, e1, logits) && chosen::<T, A>(
            logits,
            how.top_p,
            how.top_k,
            how.temperature,
            r2,
        );
    lemma_pass::<T, A>(model, seq![token], c0, c1, x1, e0, e1, x2);
    lemma_cold_choice::<T, A>(x1, how, r1, r2);
}

/// The first `k` of two sequences of choices without chance agree, and so do the caches.
proof fn lemma_picked<T: Default, A: Arithmetic<T> + Widen<T, T>>(
    model: &Llama<T>,
    first: u32,
    how: Sampling<T>,
    caches1: Seq<KVCache<T>>,
    picks1: Seq<u32>,
    caches2: Seq<KVCache<T>>,
    picks2: Seq<u32>,
    k: int,
)
    requires
        all_determined::<T, A>(),
        is_cold::<T, A>(how),
        model.consistent(),
        model.picked::<A>(first, caches1, how, picks1),
        model.picked::<A>(first, caches2, how, picks2),
        model.owns(caches1[0]),
        model.owns(caches2[0]),
        same_contents(caches1[0], caches2[0]),
        0 <= k <= picks1.len(),
        k <= picks2.len(),
    ensures
        forall|i: int| 0 <= i < k ==> picks1[i] == picks2[i],
        model.owns(caches1[k]),
        model.owns(caches2[k]),
        same_contents(caches1[k], caches2[k]),
    decreases k,
{
    if k > 0 {
        let i = k - 1;
        lemma_picked::<T, A>(model, first, how, caches1, picks1, caches2, picks2, i);
        let token = token_before(first, picks1, i);
        assert(token == token_before(first, picks2, i));
        assert(model.picked_at::<A>(first, caches1, how, picks1, i));
        assert(model.picked_at::<A>(first, caches2, how, picks2, i));
        lemma_stepped::<T, A>(
            model,
            token,
            how,
            caches1[i],
            caches1[i + 1],
            Some(picks1[i]),
            caches2[i],
            caches2[i + 1],
            Some(picks2[i]),
        );
    }
}

/// A continuation without chance that comes to its end is determined.
pub proof fn lemma_continued<T: Default, A: Arithmetic<T> + Widen<T, T>>(
    model: &Llama<T>,
    first: u32,
    max_len: int,
    how: Sampling<T>,
    c0: KVCache<T>,
    picks1: Seq<u32>,
    c1: KVCache<T>,
    e0: KVCache<T>,
    picks2: Seq<u32>,
    e1: KVCache<T>,
)
    requires
        all_determined::<T, A>(),
        is_cold::<T, A>(how),
        model.consistent(),
        model.owns(c0),
        model.owns(e0),
        same_contents(c0, e0),
        model.continued::<A>(first, c0, max_len, how, picks1, true, c1),
        model.continued::<A>(first, e0, max_len, how, picks2, true, e1),
    ensures
        picks1 == picks2,
{
    let caches1 = choose|caches: Seq<KVCache<T>>|
        caches[0] == c0 && #[trigger] model.continues::<A>(
            first,
            caches,
            max_len,
            how,
            picks1,
            true,
            c1,
        );
    let caches2 = choose|caches: Seq<KVCache<T>>|
        caches[0] == e0 && #[trigger] model.continues::<A>(
            first,
            caches,
            max_len,
            how,
            picks2,
            true,
            e1,
        );
    let k = if picks1.len() <= picks2.len() {
        picks1.len() as int
    } else {
        picks2.len() as int
    };
    lemma_picked::<T, A>(model, first, how, caches1, picks1, caches2, picks2, k);
    if picks1.len() < picks2.len() {
        assert(picks1[k - 1] == picks2[k - 1]);
    } else if picks2.len() < picks1.len() {
        assert(picks1[k - 1] == picks2[k - 1]);
    }
    assert(picks1 =~= picks2);
}

/// Empty caches of a model hold the same.
pub proof fn lemma_empty_caches<T: Default, A: Arithmetic<T> + Widen<T, T>>(
    model: &Llama<T>,
    a: KVCache<T>,
    b: KVCache<T>,
)
    requires
        all_determined::<T, A>(),
        model.is_empty_cache(a),
        model.is_empty_cache(b),
    ensures
        same_contents(a, b),
{
    reveal(all_determined);
    assert forall|l: int| 0 <= l < a.k_cache@.len() implies #[trigger] a.keys(l) == b.keys(l) by {
        assert(a.fits(a.k_cache@[l]) && b.fits(b.k_cache@[l]));
        assert(blank(a.keys(l)) && blank(b.keys(l)));
        lemma_blank(a.keys(l), b.keys(l));
    }
    assert forall|l: int| 0 <= l < a.k_cache@.len() implies #[trigger] a.values(l) == b.values(
        l,
    ) by {
        assert(a.fits(a.v_cache@[l]) && b.fits(b.v_cache@[l]));
        assert(blank(a.values(l)) && blank(b.values(l)));
        lemma_blank(a.values(l), b.values(l));
    }
}

/// Generation without chance is determined.
pub proof fn lemma_generated<T: Default, A: Arithmetic<T> + Widen<T, T>>(
    model: &Llama<T>,
    token_ids: Seq<u32>,
    max_len: int,
    how: Sampling<T>,
    c0: KVCache<T>,
    result1: Seq<u32>,
    e0: KVCache<T>,
    result2: Seq<u32>,
)
    requires
        all_determined::<T, A>(),
        is_cold::<T, A>(how),
        model.consistent(),
        model.owns(c0),
        model.owns(e0),
        same_contents(c0, e0),
        model.generated::<A>(token_ids, c0, max_len, how, Some(result1)),
        model.generated::<A>(token_ids, e0, max_len, how, Some(result2)),
    ensures
        result1 == result2,
{
    let text = model.start_text(token_ids);
    let (x1, m1, picks1, done1, c1) = choose|
        logits: Seq<T>,
        c: KVCache<T>,
        picks: Seq<u32>,
        done: bool,
        c1: KVCache<T>,
    | #[trigger]
        model.passed::<A>(text, c0, c, logits) && #[trigger] model.continued::<A>(
            text.last(),
            c,
            max_len,
            how,
            picks,
            done,
            c1,
        ) && match Some(result1) {
            Some(result) => done && result == text + picks,
            None => !done,
        };
    let (x2, m2, picks2, done2, e1) = choose|
        logits: Seq<T>,
        c: KVCache<T>,
        picks: Seq<u32>,
        done: bool,
        c1: KVCache<T>,
    | #[trigger]
        model.passed::<A>(text, e0, c, logits) && #[trigger] model.continued::<A>(
            text.last(),
            c,
            max_len,
            how,
            picks,
            done,
            c1,
        ) && match Some(result2) {
            Some(result) => done && result == text + picks,
            None => !done,
        };
    lemma_pass::<T, A>(model, text, c0, m1, x1, e0, m2, x2);
    assert(model.owns(m1) && model.owns(m2));
    lemma_continued::<T, A>(
        model,
        text.last(),
        max_len,
        how,
        m1,
        picks1,
        c1,
        m2,
        picks2,
        e1,
    );
}

} // verus!
