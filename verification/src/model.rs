//! The model: its sizes and weights, and how it computes the next token.

use crate::archive::{has_huge_offset, parse_archive, parsed_archive};
use crate::arith::{is_one, is_zero, Arithmetic, Widen};
use crate::attention::{attended, fed_forward, mlp, self_attention, Heads, MAX_HEAD_LEN};
use crate::config::LlamaConfigJson;
use crate::kvcache::{blank, overwritten, KVCache};
use crate::layout::{lemma_row_bound, row};
use crate::operators::{
    accumulate, added, gather, gathered, matmul_transb, multiplied, normed, rms_norm, rope,
    rotated,
};
use crate::params::{load_outcome, LLamaParams, LoadError};
use crate::sampling::{chosen, random_sample};
use crate::tensor::{
    lemma_countable_1, lemma_countable_2, lemma_countable_4, lemma_entries_1, lemma_entries_2,
    lemma_entries_3, Tensor,
};
use vstd::prelude::*;

verus! {

/// A model.
pub struct Llama<T> {
    /// The number of tokens.
    pub vocab: usize,
    /// The number of layers.
    pub n_layers: usize,
    /// The number of query heads.
    pub n_q_h: usize,
    /// The number of heads for keys and values.
    pub n_kv_h: usize,
    /// The length of the hidden states.
    pub d: usize,
    /// The length of a single query, key or value vector.
    pub dqkv: usize,
    /// The length of the intermediate states.
    pub di: usize,
    /// What is added to the mean square before its root is taken.
    pub eps: T,
    /// The base of the angles of the position embedding.
    pub rope_theta: T,
    /// The greatest number of positions.
    pub max_seq_len: usize,
    /// The trained weights.
    pub params: LLamaParams<T>,
    /// The token that starts a text.
    pub bos_token_id: u32,
    /// The token that ends a text.
    pub eos_token_id: u32,
}

/// `t` is an `a` by `b` matrix.
pub open spec fn is_matrix<T>(t: Tensor<T>, a: int, b: int) -> bool {
    &&& t.wf()
    &&& t.shape@.len() == 2
    &&& t.shape@[0] == a
    &&& t.shape@[1] == b
}

/// What the layers hand on to one another besides the keys and values: the residual stream, and
/// the buffers whose old contents enter the products that are stored there.
pub struct Buffers<T> {
    pub residual: Seq<T>,
    pub q: Seq<T>,
    pub gate: Seq<T>,
    pub up: Seq<T>,
}

/// What a layer computes on the way.
pub struct LayerTrace<T> {
    pub zero: T,
    pub one: T,
    pub normed: Seq<T>,
    pub q: Seq<T>,
    pub k: Seq<T>,
    pub v: Seq<T>,
    pub turned_k: Seq<T>,
    pub att: Seq<T>,
    pub attended: Seq<T>,
    pub blank: Seq<T>,
    pub projected: Seq<T>,
    pub residual: Seq<T>,
    pub gained: Seq<T>,
}

/// What a pass through the model computes on the way.
pub struct PassTrace<T> {
    pub buffers: Seq<Buffers<T>>,
    pub zero: T,
    pub one: T,
    pub last: Seq<T>,
    pub blank: Seq<T>,
}

/// How the next token is chosen from the scores.
pub struct Sampling<T> {
    pub top_p: T,
    pub top_k: u32,
    pub temperature: T,
}

/// The tokens in `r`, if there are any.
pub open spec fn contents(r: Option<Vec<u32>>) -> Option<Seq<u32>> {
    match r {
        Some(tokens) => Some(tokens@),
        None => None,
    }
}

/// The token before the one at `i`: `first` if there is none.
pub open spec fn token_before(first: u32, picks: Seq<u32>, i: int) -> u32 {
    if i == 0 {
        first
    } else {
        picks[i - 1]
    }
}

impl<T> Llama<T> {
    /// The number of query heads that share a head for keys and values.
    pub open spec fn groups(&self) -> int {
        self.n_q_h as int / self.n_kv_h as int
    }

    /// The length of the queries of one position.
    pub open spec fn q_len(&self) -> int {
        self.n_q_h * self.dqkv
    }

    /// The length of the keys, and of the values, of one position.
    pub open spec fn kv_len(&self) -> int {
        self.n_kv_h * self.dqkv
    }

    /// A cache for the model can be laid out.
    pub open spec fn cacheable(&self) -> bool {
        &&& self.kv_len() <= usize::MAX
        &&& self.max_seq_len * self.kv_len() <= usize::MAX
    }

    /// The weights of layer `l` have the sizes that the model needs.
    pub open spec fn layer_consistent(&self, l: int) -> bool {
        &&& self.params.rms_att_w@[l].data@.len() == self.d
        &&& is_matrix(self.params.wq@[l], self.q_len(), self.d as int)
        &&& is_matrix(self.params.wk@[l], self.kv_len(), self.d as int)
        &&& is_matrix(self.params.wv@[l], self.kv_len(), self.d as int)
        &&& is_matrix(self.params.wo@[l], self.d as int, self.d as int)
        &&& self.params.rms_ffn_w@[l].data@.len() == self.d
        &&& is_matrix(self.params.w_up@[l], self.di as int, self.d as int)
        &&& is_matrix(self.params.w_gate@[l], self.di as int, self.d as int)
        &&& is_matrix(self.params.w_down@[l], self.d as int, self.di as int)
    }

    /// There are weights for each layer.
    pub open spec fn layers_present(&self) -> bool {
        &&& self.params.rms_att_w@.len() == self.n_layers
        &&& self.params.wq@.len() == self.n_layers
        &&& self.params.wk@.len() == self.n_layers
        &&& self.params.wv@.len() == self.n_layers
        &&& self.params.wo@.len() == self.n_layers
        &&& self.params.rms_ffn_w@.len() == self.n_layers
        &&& self.params.w_up@.len() == self.n_layers
        &&& self.params.w_gate@.len() == self.n_layers
        &&& self.params.w_down@.len() == self.n_layers
    }

    /// The sizes of the model agree with one another and with its weights. Token numbers have
    /// 32 bits.
    pub open spec fn consistent(&self) -> bool {
        &&& self.n_kv_h > 0
        &&& self.d > 0
        &&& self.n_layers > 0 && self.groups() > 0 ==> self.dqkv <= MAX_HEAD_LEN
        &&& self.vocab <= 0x1_0000_0000
        &&& self.n_layers > 0 ==> self.q_len() <= self.d
        &&& self.cacheable()
        &&& self.params.embedding_table.wf()
        &&& self.params.embedding_table.shape@.len() == 2
        &&& self.params.embedding_table.shape@[1] == self.d
        &&& self.params.rms_out_w.data@.len() == self.d
        &&& is_matrix(self.params.lm_head, self.vocab as int, self.d as int)
        &&& self.layers_present()
        &&& forall|l: int| 0 <= l < self.n_layers ==> #[trigger] self.layer_consistent(l)
    }

    /// The cache has the layers and sizes of the model.
    pub open spec fn owns(&self, cache: KVCache<T>) -> bool {
        &&& cache.wf()
        &&& cache.k_cache@.len() == self.n_layers
        &&& cache.max_seq_len == self.max_seq_len
        &&& cache.dim == self.kv_len()
    }

    /// `cache` can be the cache of a model that has not seen a token yet.
    pub open spec fn is_empty_cache(&self, cache: KVCache<T>) -> bool where T: Default {
        &&& self.owns(cache)
        &&& cache.length == 0
        &&& forall|l: int| 0 <= l < self.n_layers ==> blank(#[trigger] cache.keys(l))
        &&& forall|l: int| 0 <= l < self.n_layers ==> blank(#[trigger] cache.values(l))
    }

    /// The buffers for `seq_len` new positions out of `total` can be laid out.
    pub open spec fn has_room(&self, seq_len: int, total: int) -> bool {
        &&& seq_len * self.d <= usize::MAX
        &&& seq_len * self.q_len() <= usize::MAX
        &&& seq_len * self.di <= usize::MAX
        &&& seq_len * total <= usize::MAX
        &&& self.n_kv_h * self.groups() * seq_len * total <= usize::MAX
    }

    /// The model can take in `tokens` after what the cache holds: there is a token, each token has
    /// an embedding, and there is room.
    pub open spec fn accepts(&self, tokens: Seq<u32>, cache: KVCache<T>) -> bool {
        &&& tokens.len() > 0
        &&& forall|i: int|
            0 <= i < tokens.len() ==> (#[trigger] tokens[i])
                < self.params.embedding_table.shape@[0]
        &&& cache.length + tokens.len() <= self.max_seq_len
        &&& self.has_room(tokens.len() as int, cache.length + tokens.len())
    }

    pub open spec fn heads(&self, seq_len: int, total: int) -> Heads {
        Heads {
            n_kv_h: self.n_kv_h as int,
            n_groups: self.groups(),
            seq_len,
            total,
            dqkv: self.dqkv as int,
        }
    }

    /// `t` can be what layer `l` computes for `seq_len` new positions after `past` others, on the
    /// way from the stored keys and values `keys0` and `values0` and the buffers `b0` to `keys1`,
    /// `values1` and `b1`.
    pub open spec fn layer_steps<A: Arithmetic<T> + Widen<T, T>>(
        &self,
        l: int,
        seq_len: int,
        past: int,
        keys0: Seq<T>,
        values0: Seq<T>,
        b0: Buffers<T>,
        keys1: Seq<T>,
        values1: Seq<T>,
        b1: Buffers<T>,
        t: LayerTrace<T>,
    ) -> bool where T: Default {
        let p = self.params;
        let d = self.d as int;
        let dim = self.kv_len();
        let from = past * dim;
        let to = (past + seq_len) * dim;
        &&& is_zero::<T, A>(t.zero)
        &&& is_one::<T, A>(t.one)
        &&& normed::<T, A>(b0.residual, p.rms_att_w@[l].data@, d, self.eps, t.normed)
        &&& multiplied::<T, T, A>(
            b0.q,
            t.zero,
            t.normed,
            p.wq@[l].data@,
            t.one,
            seq_len,
            d,
            self.q_len(),
            t.q,
        )
        &&& multiplied::<T, T, A>(
            keys0.subrange(from, to),
            t.zero,
            t.normed,
            p.wk@[l].data@,
            t.one,
            seq_len,
            d,
            dim,
            t.k,
        )
        &&& multiplied::<T, T, A>(
            values0.subrange(from, to),
            t.zero,
            t.normed,
            p.wv@[l].data@,
            t.one,
            seq_len,
            d,
            dim,
            t.v,
        )
        &&& rotated::<T, A>(
            t.q,
            seq_len * self.n_q_h,
            self.n_q_h as int,
            self.dqkv,
            past,
            self.rope_theta,
            b1.q,
        )
        &&& rotated::<T, A>(
            t.k,
            seq_len * self.n_kv_h,
            self.n_kv_h as int,
            self.dqkv,
            past,
            self.rope_theta,
            t.turned_k,
        )
        &&& keys1 == overwritten(keys0, from, t.turned_k)
        &&& values1 == overwritten(values0, from, t.v)
        &&& attended::<T, A>(
            b1.q,
            keys1,
            values1,
            self.heads(seq_len, past + seq_len),
            t.att,
            t.normed,
            t.attended,
        )
        &&& blank(t.blank)
        &&& t.blank.len() == seq_len * d
        &&& multiplied::<T, T, A>(
            t.blank,
            t.zero,
            t.attended,
            p.wo@[l].data@,
            t.one,
            seq_len,
            d,
            d,
            t.projected,
        )
        &&& added::<T, A>(b0.residual, t.projected, t.residual)
        &&& fed_forward::<T, A>(
            seq_len,
            d,
            self.di as int,
            p.w_up@[l].data@,
            p.w_down@[l].data@,
            p.w_gate@[l].data@,
            p.rms_ffn_w@[l].data@,
            self.eps,
            t.residual,
            b0.gate,
            b0.up,
            b1.residual,
            t.gained,
            b1.gate,
            b1.up,
        )
    }

    /// `keys1`, `values1` and `b1` can be what layer `l` makes of `keys0`, `values0` and `b0`.
    pub open spec fn layer_done<A: Arithmetic<T> + Widen<T, T>>(
        &self,
        l: int,
        seq_len: int,
        past: int,
        keys0: Seq<T>,
        values0: Seq<T>,
        b0: Buffers<T>,
        keys1: Seq<T>,
        values1: Seq<T>,
        b1: Buffers<T>,
    ) -> bool where T: Default {
        exists|t: LayerTrace<T>| #[trigger]
            self.layer_steps::<A>(l, seq_len, past, keys0, values0, b0, keys1, values1, b1, t)
    }

    /// `t` can be what a pass computes on the way from the tokens and the cache `c0` to the cache
    /// `c1` and the scores `logits` of all tokens.
    pub open spec fn pass_steps<A: Arithmetic<T> + Widen<T, T>>(
        &self,
        tokens: Seq<u32>,
        c0: KVCache<T>,
        c1: KVCache<T>,
        t: PassTrace<T>,
        logits: Seq<T>,
    ) -> bool where T: Default {
        let seq_len = tokens.len() as int;
        let d = self.d as int;
        let first = t.buffers[0];
        &&& t.buffers.len() == self.n_layers + 1
        &&& gathered::<T, T, A>(tokens, self.params.embedding_table.data@, d, first.residual)
        &&& blank(first.q) && first.q.len() == seq_len * self.q_len()
        &&& blank(first.gate) && first.gate.len() == seq_len * self.di
        &&& blank(first.up) && first.up.len() == seq_len * self.di
        &&& forall|l: int|
            0 <= l < self.n_layers ==> self.layer_done::<A>(
                l,
                seq_len,
                c0.length as int,
                #[trigger] c0.keys(l),
                c0.values(l),
                t.buffers[l],
                c1.keys(l),
                c1.values(l),
                t.buffers[l + 1],
            )
        &&& normed::<T, A>(
            row(t.buffers[self.n_layers as int].residual, d, seq_len - 1),
            self.params.rms_out_w.data@,
            d,
            self.eps,
            t.last,
        )
        &&& is_zero::<T, A>(t.zero)
        &&& is_one::<T, A>(t.one)
        &&& blank(t.blank) && t.blank.len() == self.vocab
        &&& multiplied::<T, T, A>(
            t.blank,
            t.zero,
            t.last,
            self.params.lm_head.data@,
            t.one,
            1,
            d,
            self.vocab as int,
            logits,
        )
    }

    /// The model takes in `tokens` after what the cache `c0` holds. `c1` can be the cache then,
    /// and `logits` the scores of all tokens for the next position.
    pub open spec fn passed<A: Arithmetic<T> + Widen<T, T>>(
        &self,
        tokens: Seq<u32>,
        c0: KVCache<T>,
        c1: KVCache<T>,
        logits: Seq<T>,
    ) -> bool where T: Default {
        &&& self.owns(c1)
        &&& c1.length == c0.length + tokens.len()
        &&& logits.len() == self.vocab
        &&& exists|t: PassTrace<T>| #[trigger] self.pass_steps::<A>(tokens, c0, c1, t, logits)
    }

    /// After taking in `token`, `r` can be the choice of the next token; `c0` and `c1` are the
    /// caches before and after.
    pub open spec fn stepped<A: Arithmetic<T> + Widen<T, T>>(
        &self,
        token: u32,
        c0: KVCache<T>,
        c1: KVCache<T>,
        how: Sampling<T>,
        r: Option<u32>,
    ) -> bool where T: Default {
        &&& self.accepts(seq![token], c0)
        &&& exists|logits: Seq<T>| #[trigger]
            self.passed::<A>(seq![token], c0, c1, logits) && chosen::<T, A>(
                logits,
                how.top_p,
                how.top_k,
                how.temperature,
                r,
            )
    }

    /// Token `i` of `picks` can be chosen after taking in the one before it, or `first`;
    /// `caches[i]` and `caches[i + 1]` are the caches before and after.
    pub open spec fn picked_at<A: Arithmetic<T> + Widen<T, T>>(
        &self,
        first: u32,
        caches: Seq<KVCache<T>>,
        how: Sampling<T>,
        picks: Seq<u32>,
        i: int,
    ) -> bool where T: Default {
        self.stepped::<A>(
            token_before(first, picks, i),
            caches[i],
            caches[i + 1],
            how,
            Some(picks[i]),
        )
    }

    /// The tokens `picks` can be chosen one after the other, each after taking in the one before
    /// it, and the first after taking in `first`. `caches` are the caches in between.
    pub open spec fn picked<A: Arithmetic<T> + Widen<T, T>>(
        &self,
        first: u32,
        caches: Seq<KVCache<T>>,
        how: Sampling<T>,
        picks: Seq<u32>,
    ) -> bool where T: Default {
        &&& caches.len() == picks.len() + 1
        &&& forall|i: int|
            0 <= i < picks.len() ==> #[trigger] self.picked_at::<A>(first, caches, how, picks, i)
    }

    /// No further token can be chosen after `token`: it cannot be taken in, or there is no token to
    /// choose, or the scores do not allow a choice.
    pub open spec fn stuck<A: Arithmetic<T> + Widen<T, T>>(
        &self,
        token: u32,
        c0: KVCache<T>,
        c1: KVCache<T>,
        how: Sampling<T>,
    ) -> bool where T: Default {
        ||| !self.accepts(seq![token], c0) && c1 == c0
        ||| self.vocab == 0 && exists|logits: Seq<T>| #[trigger]
            self.passed::<A>(seq![token], c0, c1, logits)
        ||| self.stepped::<A>(token, c0, c1, how, None)
    }

    /// `caches` shows how `picks` can come about as the continuation of a text that ends with
    /// `first`: until the end token is chosen, until there are `max_len` tokens, or, if `done` is
    /// false, until no further token can be chosen.
    pub open spec fn continues<A: Arithmetic<T> + Widen<T, T>>(
        &self,
        first: u32,
        caches: Seq<KVCache<T>>,
        max_len: int,
        how: Sampling<T>,
        picks: Seq<u32>,
        done: bool,
        c1: KVCache<T>,
    ) -> bool where T: Default {
        &&& self.picked::<A>(first, caches, how, picks)
        &&& picks.len() <= max_len
        &&& forall|i: int| 0 <= i < picks.len() - 1 ==> #[trigger] picks[i] != self.eos_token_id
        &&& if done {
            &&& caches.last() == c1
            &&& picks.len() == max_len || (picks.len() > 0 && picks.last() == self.eos_token_id)
        } else {
            &&& picks.len() < max_len
            &&& picks.len() > 0 ==> picks.last() != self.eos_token_id
            &&& self.stuck::<A>(
                token_before(first, picks, picks.len() as int),
                caches.last(),
                c1,
                how,
            )
        }
    }

    /// `picks` can be the continuation of a text that ends with `first`; see
    /// [`Llama::continues`]. `c0` and `c1` are the caches before and after.
    pub open spec fn continued<A: Arithmetic<T> + Widen<T, T>>(
        &self,
        first: u32,
        c0: KVCache<T>,
        max_len: int,
        how: Sampling<T>,
        picks: Seq<u32>,
        done: bool,
        c1: KVCache<T>,
    ) -> bool where T: Default {
        exists|caches: Seq<KVCache<T>>|
            caches[0] == c0 && #[trigger] self.continues::<A>(
                first,
                caches,
                max_len,
                how,
                picks,
                done,
                c1,
            )
    }

    /// A choice after the others is a longer sequence of choices.
    pub proof fn lemma_picked_push<A: Arithmetic<T> + Widen<T, T>>(
        &self,
        first: u32,
        caches: Seq<KVCache<T>>,
        how: Sampling<T>,
        picks: Seq<u32>,
        next: u32,
        c: KVCache<T>,
    ) where T: Default
        requires
            self.picked::<A>(first, caches, how, picks),
            self.stepped::<A>(
                token_before(first, picks, picks.len() as int),
                caches.last(),
                c,
                how,
                Some(next),
            ),
        ensures
            self.picked::<A>(first, caches.push(c), how, picks.push(next)),
    {
        let more = picks.push(next);
        let along = caches.push(c);
        assert forall|i: int| 0 <= i < more.len() implies #[trigger] self.picked_at::<A>(
            first,
            along,
            how,
            more,
            i,
        ) by {
            assert(token_before(first, more, i) == token_before(first, picks, i));
            if i < picks.len() {
                assert(self.picked_at::<A>(first, caches, how, picks, i));
            }
        }
    }

    /// The text that generation starts from: the given tokens, or the start token if there are
    /// none.
    pub open spec fn start_text(&self, token_ids: Seq<u32>) -> Seq<u32> {
        if token_ids.len() == 0 {
            seq![self.bos_token_id]
        } else {
            token_ids
        }
    }

    /// `r` can be what generation makes of `token_ids`, starting with the cache `c0`: the start
    /// text followed by its continuation, or nothing if a token cannot be taken in or chosen.
    pub open spec fn generated<A: Arithmetic<T> + Widen<T, T>>(
        &self,
        token_ids: Seq<u32>,
        c0: KVCache<T>,
        max_len: int,
        how: Sampling<T>,
        r: Option<Seq<u32>>,
    ) -> bool where T: Default {
        let text = self.start_text(token_ids);
        if self.accepts(text, c0) {
            exists|logits: Seq<T>, c: KVCache<T>, picks: Seq<u32>, done: bool, c1: KVCache<T>|
                #[trigger] self.passed::<A>(text, c0, c, logits) && #[trigger] self.continued::<A>(
                    text.last(),
                    c,
                    max_len,
                    how,
                    picks,
                    done,
                    c1,
                ) && match r {
                    Some(result) => done && result == text + picks,
                    None => !done,
                }
        } else {
            r is None
        }
    }

    /// The model has the sizes and constants of `config`.
    pub open spec fn configured(&self, config: LlamaConfigJson<T>) -> bool {
        &&& self.vocab == config.vocab_size
        &&& self.n_layers == config.num_hidden_layers
        &&& self.n_q_h == config.num_attention_heads
        &&& self.n_kv_h == config.num_key_value_heads
        &&& self.d == config.hidden_size
        &&& self.dqkv == config.hidden_size as int / config.num_attention_heads as int
        &&& self.di == config.intermediate_size
        &&& self.eps == config.rms_norm_eps
        &&& self.rope_theta == config.rope_theta
        &&& self.max_seq_len == config.max_position_embeddings
        &&& self.bos_token_id == config.bos_token_id
        &&& self.eos_token_id == config.eos_token_id
    }
}

/// The sizes of the tensors of a layer.
pub proof fn lemma_layer_sizes<T>(model: &Llama<T>, seq_len: int, past: int)
    requires
        model.consistent(),
        0 <= seq_len,
        0 <= past,
        past + seq_len <= model.max_seq_len,
    ensures
        0 <= model.groups(),
        0 <= model.n_kv_h * model.groups() <= model.n_q_h,
        0 <= model.q_len(),
        0 <= model.kv_len(),
        seq_len * model.n_q_h * model.dqkv == seq_len * model.q_len(),
        seq_len * model.n_kv_h * model.dqkv == seq_len * model.kv_len(),
        seq_len * (model.n_kv_h * model.groups()) * model.dqkv <= seq_len * model.q_len(),
        model.n_layers > 0 ==> seq_len * model.q_len() <= seq_len * model.d,
        (past + seq_len) * model.n_kv_h * model.dqkv <= model.max_seq_len * model.kv_len(),
        past * model.kv_len() + seq_len * model.kv_len() == (past + seq_len) * model.kv_len(),
        0 <= past * model.kv_len(),
        (past + seq_len) * model.kv_len() <= model.max_seq_len * model.kv_len(),
        seq_len * model.kv_len() <= model.max_seq_len * model.kv_len(),
{
    let g = model.groups();
    let nq = model.n_q_h as int;
    let nk = model.n_kv_h as int;
    let dq = model.dqkv as int;
    let d = model.d as int;
    let m = model.max_seq_len as int;
    vstd::arithmetic::div_mod::lemma_div_pos_is_pos(nq, nk);
    vstd::arithmetic::div_mod::lemma_fundamental_div_mod(nq, nk);
    vstd::arithmetic::div_mod::lemma_mod_bound(nq, nk);
    assert(0 <= nk * g) by (nonlinear_arith)
        requires
            0 <= nk,
            0 <= g,
    ;
    let ql = nq * dq;
    let kl = nk * dq;
    let h = nk * g;
    assert(0 <= ql && 0 <= kl) by (nonlinear_arith)
        requires
            ql == nq * dq,
            kl == nk * dq,
            0 <= nq,
            0 <= nk,
            0 <= dq,
    ;
    assert(seq_len * nq * dq == seq_len * ql) by (nonlinear_arith)
        requires
            ql == nq * dq,
    ;
    assert(seq_len * nk * dq == seq_len * kl) by (nonlinear_arith)
        requires
            kl == nk * dq,
    ;
    assert(seq_len * h * dq <= seq_len * ql) by (nonlinear_arith)
        requires
            ql == nq * dq,
            0 <= h <= nq,
            0 <= dq,
            0 <= seq_len,
    ;
    if model.n_layers > 0 {
        assert(seq_len * ql <= seq_len * d) by (nonlinear_arith)
            requires
                ql <= d,
                0 <= seq_len,
        ;
    }
    let total = past + seq_len;
    assert(total * nk * dq == total * kl) by (nonlinear_arith)
        requires
            kl == nk * dq,
    ;
    assert(total * kl <= m * kl) by (nonlinear_arith)
        requires
            total <= m,
            0 <= kl,
    ;
    assert(seq_len * kl <= m * kl) by (nonlinear_arith)
        requires
            seq_len <= m,
            0 <= kl,
    ;
    assert(past * kl + seq_len * kl == total * kl) by (nonlinear_arith)
        requires
            total == past + seq_len,
    ;
    assert(0 <= past * kl) by (nonlinear_arith)
        requires
            0 <= past,
            0 <= kl,
    ;
}

/// Whether `t` is an `a` by `b` matrix.
fn check_matrix<T>(t: &Tensor<T>, a: usize, b: usize) -> (r: bool)
    ensures
        r == is_matrix(*t, a as int, b as int),
{
    let size = t.size();
    if t.shape.len() != 2 || t.shape[0] != a || t.shape[1] != b {
        return false;
    }
    proof {
        lemma_entries_2(a, b);
        assert(t.shape@ =~= seq![a, b]);
    }
    match a.checked_mul(b) {
        Some(n) => n == size,
        None => false,
    }
}

impl<T> Llama<T> {
    /// Whether the weights of layer `l` have the sizes that the model needs.
    fn check_layer(&self, l: usize) -> (r: bool)
        requires
            l < self.n_layers,
            self.layers_present(),
            self.q_len() <= usize::MAX,
            self.kv_len() <= usize::MAX,
        ensures
            r == self.layer_consistent(l as int),
    {
        let p = &self.params;
        let d = self.d;
        let q_len = self.n_q_h * self.dqkv;
        let kv_len = self.n_kv_h * self.dqkv;
        p.rms_att_w[l].size() == d && check_matrix(&p.wq[l], q_len, d) && check_matrix(
            &p.wk[l],
            kv_len,
            d,
        ) && check_matrix(&p.wv[l], kv_len, d) && check_matrix(&p.wo[l], d, d)
            && p.rms_ffn_w[l].size() == d && check_matrix(&p.w_up[l], self.di, d) && check_matrix(
            &p.w_gate[l],
            self.di,
            d,
        ) && check_matrix(&p.w_down[l], d, self.di)
    }

    /// Whether the sizes of the model agree with one another and with its weights.
    pub fn is_consistent(&self) -> (r: bool)
        ensures
            r == self.consistent(),
    {
        let p = &self.params;
        if self.n_kv_h == 0 || self.d == 0 || self.vocab as u64 > 0x1_0000_0000 {
            return false;
        }
        if self.n_layers > 0 && self.n_q_h / self.n_kv_h > 0 && self.dqkv > MAX_HEAD_LEN {
            return false;
        }
        match self.n_q_h.checked_mul(self.dqkv) {
            Some(q_len) => {
                if self.n_layers > 0 && q_len > self.d {
                    return false;
                }
            },
            None => {
                if self.n_layers > 0 {
                    return false;
                }
            },
        }
        match self.n_kv_h.checked_mul(self.dqkv) {
            Some(kv_len) => {
                if self.max_seq_len.checked_mul(kv_len).is_none() {
                    return false;
                }
            },
            None => {
                return false;
            },
        }
        if p.embedding_table.shape.len() != 2 || !check_matrix(
            &p.embedding_table,
            p.embedding_table.shape[0],
            self.d,
        ) {
            return false;
        }
        if p.rms_out_w.size() != self.d || !check_matrix(&p.lm_head, self.vocab, self.d) {
            return false;
        }
        let n = self.n_layers;
        if p.rms_att_w.len() != n || p.wq.len() != n || p.wk.len() != n || p.wv.len() != n
            || p.wo.len() != n || p.rms_ffn_w.len() != n || p.w_up.len() != n || p.w_gate.len()
            != n || p.w_down.len() != n {
            return false;
        }
        for l in 0..n
            invariant
                n == self.n_layers,
                self.layers_present(),
                n > 0 ==> self.q_len() <= usize::MAX,
                self.kv_len() <= usize::MAX,
                forall|k: int| 0 <= k < l ==> #[trigger] self.layer_consistent(k),
        {
            if !self.check_layer(l) {
                return false;
            }
        }
        true
    }

    /// Whether the cache has the layers and sizes of the model.
    pub fn is_owner(&self, cache: &KVCache<T>) -> (r: bool)
        ensures
            r == self.owns(*cache),
    {
        let n = cache.k_cache.len();
        let dim = self.n_kv_h.checked_mul(self.dqkv);
        if n != self.n_layers || cache.v_cache.len() != n || cache.max_seq_len
            != self.max_seq_len || cache.length > cache.max_seq_len || dim.is_none()
            || dim.unwrap() != cache.dim {
            return false;
        }
        for l in 0..n
            invariant
                n == cache.k_cache@.len(),
                n == cache.v_cache@.len(),
                forall|k: int| 0 <= k < l ==> cache.fits(#[trigger] cache.k_cache@[k]),
                forall|k: int| 0 <= k < l ==> cache.fits(#[trigger] cache.v_cache@[k]),
        {
            if !check_matrix(&cache.k_cache[l], cache.max_seq_len, cache.dim) || !check_matrix(
                &cache.v_cache[l],
                cache.max_seq_len,
                cache.dim,
            ) {
                return false;
            }
            proof {
                lemma_entries_2(cache.max_seq_len, cache.dim);
                let shape = seq![cache.max_seq_len, cache.dim];
                assert(cache.k_cache@[l as int].shape@ =~= shape);
                assert(cache.v_cache@[l as int].shape@ =~= shape);
            }
        }
        true
    }
}

impl<T: Copy + Default> Llama<T> {
    /// Runs layer `layer` for `seq_len` new positions after `past` others.
    fn run_layer<A: Arithmetic<T> + Widen<T, T>>(
        &self,
        layer: usize,
        seq_len: usize,
        past: usize,
        cache: &mut KVCache<T>,
        residual: &mut Tensor<T>,
        hidden_states: &mut Tensor<T>,
        q_buf: &mut Tensor<T>,
        att_scores: &mut Tensor<T>,
        gate_buf: &mut Tensor<T>,
        up_buf: &mut Tensor<T>,
    )
        requires
            self.consistent(),
            layer < self.n_layers,
            0 < seq_len,
            self.owns(*old(cache)),
            old(cache).length == past + seq_len,
            self.has_room(seq_len as int, past + seq_len),
            is_matrix(*old(residual), seq_len as int, self.d as int),
            is_matrix(*old(hidden_states), seq_len as int, self.d as int),
            is_matrix(*old(q_buf), seq_len as int, self.q_len()),
            is_matrix(*old(gate_buf), seq_len as int, self.di as int),
            is_matrix(*old(up_buf), seq_len as int, self.di as int),
            old(att_scores).wf(),
            old(att_scores).shape@ == seq![
                self.n_kv_h,
                self.groups() as usize,
                seq_len,
                (past + seq_len) as usize,
            ],
        ensures
            self.owns(*final(cache)),
            final(cache).length == old(cache).length,
            is_matrix(*final(residual), seq_len as int, self.d as int),
            is_matrix(*final(hidden_states), seq_len as int, self.d as int),
            is_matrix(*final(q_buf), seq_len as int, self.q_len()),
            is_matrix(*final(gate_buf), seq_len as int, self.di as int),
            is_matrix(*final(up_buf), seq_len as int, self.di as int),
            final(att_scores).wf(),
            final(att_scores).shape == old(att_scores).shape,
            forall|l: int|
                0 <= l < self.n_layers && l != layer ==> #[trigger] final(cache).keys(l) == old(
                    cache,
                ).keys(l),
            forall|l: int|
                0 <= l < self.n_layers && l != layer ==> #[trigger] final(cache).values(l) == old(
                    cache,
                ).values(l),
            self.layer_done::<A>(
                layer as int,
                seq_len as int,
                past as int,
                old(cache).keys(layer as int),
                old(cache).values(layer as int),
                (Buffers {
                    residual: old(residual).data@,
                    q: old(q_buf).data@,
                    gate: old(gate_buf).data@,
                    up: old(up_buf).data@,
                }),
                final(cache).keys(layer as int),
                final(cache).values(layer as int),
                (Buffers {
                    residual: final(residual).data@,
                    q: final(q_buf).data@,
                    gate: final(gate_buf).data@,
                    up: final(up_buf).data@,
                }),
            ),
    {
        let total = past + seq_len;
        let n_groups = self.n_q_h / self.n_kv_h;
        let ghost b0 = Buffers {
            residual: residual.data@,
            q: q_buf.data@,
            gate: gate_buf.data@,
            up: up_buf.data@,
        };
        proof {
            assert(self.layer_consistent(layer as int));
            lemma_layer_sizes(self, seq_len as int, past as int);
            assert(self.n_kv_h * self.groups() > 0 ==> self.groups() > 0) by (nonlinear_arith)
                requires
                    0 <= self.groups(),
            ;
        }
        let q_len = self.n_q_h * self.dqkv;
        let kv_len = self.n_kv_h * self.dqkv;
        proof {
            lemma_entries_2(seq_len, self.d);
            lemma_entries_2(seq_len, q_len);
            lemma_entries_2(seq_len, kv_len);
            lemma_entries_2(seq_len, self.di);
            lemma_entries_3(seq_len, self.n_q_h, self.dqkv);
            lemma_entries_3(seq_len, self.n_kv_h, self.dqkv);
            assert(residual.shape@ =~= seq![seq_len, self.d]);
            assert(hidden_states.shape@ =~= seq![seq_len, self.d]);
            assert(q_buf.shape@ =~= seq![seq_len, q_len]);
            assert(gate_buf.shape@ =~= seq![seq_len, self.di]);
            assert(up_buf.shape@ =~= seq![seq_len, self.di]);
        }
        let zero = A::zero();
        let one = A::one();
        rms_norm::<T, A>(hidden_states, residual, &self.params.rms_att_w[layer], self.eps);
        let ghost normed_states = hidden_states.data@;
        let mut k = cache.k_cache(layer, past);
        let mut v = cache.v_cache(layer, past);
        matmul_transb::<T, T, A>(q_buf, zero, hidden_states, &self.params.wq[layer], one);
        matmul_transb::<T, T, A>(&mut k, zero, hidden_states, &self.params.wk[layer], one);
        matmul_transb::<T, T, A>(&mut v, zero, hidden_states, &self.params.wv[layer], one);
        let ghost q1 = q_buf.data@;
        let ghost k1 = k.data@;
        q_buf.reshape(&vec![seq_len, self.n_q_h, self.dqkv]);
        rope::<T, A>(q_buf, past, self.rope_theta);
        k.reshape(&vec![seq_len, self.n_kv_h, self.dqkv]);
        rope::<T, A>(&mut k, past, self.rope_theta);
        cache.store(layer, past, &k, &v);
        q_buf.reshape(&vec![seq_len, q_len]);
        self_attention::<T, A>(
            hidden_states,
            att_scores,
            q_buf,
            &cache.k_cache[layer],
            &cache.v_cache[layer],
            self.n_kv_h,
            n_groups,
            seq_len,
            total,
            self.dqkv,
        );
        let ghost attended_states = hidden_states.data@;
        proof {
            lemma_countable_2(seq_len, self.d);
        }
        let mut out_proj = Tensor::<T>::default(&vec![seq_len, self.d]);
        let ghost empty = out_proj.data@;
        assert(blank(empty));
        matmul_transb::<T, T, A>(
            &mut out_proj,
            zero,
            hidden_states,
            &self.params.wo[layer],
            one,
        );
        accumulate::<T, A>(residual, &out_proj);
        let ghost between = residual.data@;
        proof {
            let p = self.params;
            assert(p.w_up@[layer as int].shape@ =~= seq![self.di, self.d]);
            assert(p.w_gate@[layer as int].shape@ =~= seq![self.di, self.d]);
            assert(p.w_down@[layer as int].shape@ =~= seq![self.d, self.di]);
        }
        mlp::<T, A>(
            residual,
            hidden_states,
            gate_buf,
            up_buf,
            &self.params.w_up[layer],
            &self.params.w_down[layer],
            &self.params.w_gate[layer],
            &self.params.rms_ffn_w[layer],
            self.eps,
        );
        proof {
            let t = LayerTrace {
                zero,
                one,
                normed: normed_states,
                q: q1,
                k: k1,
                v: v.data@,
                turned_k: k.data@,
                att: att_scores.data@,
                attended: attended_states,
                blank: empty,
                projected: out_proj.data@,
                residual: between,
                gained: hidden_states.data@,
            };
            let b1 = Buffers {
                residual: residual.data@,
                q: q_buf.data@,
                gate: gate_buf.data@,
                up: up_buf.data@,
            };
            assert(self.layer_steps::<A>(
                layer as int,
                seq_len as int,
                past as int,
                old(cache).keys(layer as int),
                old(cache).values(layer as int),
                b0,
                cache.keys(layer as int),
                cache.values(layer as int),
                b1,
                t,
            ));
        }
    }

    /// An empty cache for the model.
    pub fn new_cache(&self) -> (c: KVCache<T>)
        requires
            self.cacheable(),
        ensures
            self.is_empty_cache(c),
    {
        KVCache::new(self.n_layers, self.max_seq_len, self.n_kv_h * self.dqkv, 0)
    }

    /// Takes in the tokens of `input` after what the cache holds, adds their keys and values to
    /// the cache, and returns the scores of all tokens for the next position. However many tokens
    /// are taken in, the result is a single row.
    pub fn forward<A: Arithmetic<T> + Widen<T, T>>(
        &self,
        input: &Tensor<u32>,
        cache: &mut KVCache<T>,
    ) -> (logits: Tensor<T>)
        requires
            self.consistent(),
            self.owns(*old(cache)),
            self.accepts(input.data@, *old(cache)),
        ensures
            logits.wf(),
            logits.shape@ == seq![1usize, self.vocab],
            self.passed::<A>(input.data@, *old(cache), *final(cache), logits.data@),
    {
        let seq_len = input.size();
        let past = cache.len();
        let ghost c0 = *cache;
        cache.increment(seq_len);
        let total = past + seq_len;
        let n_groups = self.n_q_h / self.n_kv_h;
        proof {
            lemma_layer_sizes(self, seq_len as int, past as int);
            lemma_countable_2(seq_len, self.d);
            assert(self.q_len() <= seq_len * self.q_len()) by (nonlinear_arith)
                requires
                    0 < seq_len,
                    0 <= self.q_len(),
            ;
            lemma_countable_2(seq_len, self.q_len() as usize);
            lemma_countable_2(seq_len, self.di);
            lemma_countable_4(self.n_kv_h, n_groups, seq_len, total);
            assert(1 * self.vocab == self.vocab);
            lemma_countable_2(1, self.vocab);
        }
        let q_len = self.n_q_h * self.dqkv;
        let mut residual = Tensor::<T>::default(&vec![seq_len, self.d]);
        let mut hidden_states = Tensor::<T>::default(&vec![seq_len, self.d]);
        let mut q_buf = Tensor::<T>::default(&vec![seq_len, q_len]);
        let mut att_scores = Tensor::<T>::default(&vec![self.n_kv_h, n_groups, seq_len, total]);
        let mut gate_buf = Tensor::<T>::default(&vec![seq_len, self.di]);
        let mut up_buf = Tensor::<T>::default(&vec![seq_len, self.di]);
        proof {
            let table = self.params.embedding_table;
            assert(table.shape@ =~= seq![table.shape@[0], self.d]);
            lemma_entries_2(table.shape@[0], self.d);
            assert forall|i: int| 0 <= i < input.data@.len() implies (#[trigger] input.data@[i] + 1)
                * table.shape@[1] <= table.data@.len() by {
                lemma_row_bound(table.shape@[0] as int, self.d as int, input.data@[i] as int);
                assert((input.data@[i] + 1) * self.d == input.data@[i] * self.d + self.d)
                    by (nonlinear_arith);
            }
        }
        gather::<T, T, A>(&mut residual, input, &self.params.embedding_table);
        let ghost first = Buffers {
            residual: residual.data@,
            q: q_buf.data@,
            gate: gate_buf.data@,
            up: up_buf.data@,
        };
        let ghost mut buffers: Seq<Buffers<T>> = seq![first];
        proof {
            assert(blank(first.q));
            assert(blank(first.gate));
            assert(blank(first.up));
        }
        for layer in 0..self.n_layers
            invariant
                self.consistent(),
                0 < seq_len,
                past == c0.length,
                total == past + seq_len,
                self.has_room(seq_len as int, total as int),
                self.owns(*cache),
                cache.length == total,
                is_matrix(residual, seq_len as int, self.d as int),
                is_matrix(hidden_states, seq_len as int, self.d as int),
                is_matrix(q_buf, seq_len as int, self.q_len()),
                is_matrix(gate_buf, seq_len as int, self.di as int),
                is_matrix(up_buf, seq_len as int, self.di as int),
                att_scores.wf(),
                att_scores.shape@ == seq![
                    self.n_kv_h,
                    self.groups() as usize,
                    seq_len,
                    (past + seq_len) as usize,
                ],
                buffers.len() == layer + 1,
                buffers[0] == first,
                buffers[layer as int] == (Buffers {
                    residual: residual.data@,
                    q: q_buf.data@,
                    gate: gate_buf.data@,
                    up: up_buf.data@,
                }),
                forall|l: int|
                    0 <= l < layer ==> self.layer_done::<A>(
                        l,
                        seq_len as int,
                        past as int,
                        #[trigger] c0.keys(l),
                        c0.values(l),
                        buffers[l],
                        cache.keys(l),
                        cache.values(l),
                        buffers[l + 1],
                    ),
                forall|l: int|
                    layer <= l < self.n_layers ==> #[trigger] cache.keys(l) == c0.keys(l),
                forall|l: int|
                    layer <= l < self.n_layers ==> #[trigger] cache.values(l) == c0.values(l),
        {
            let ghost before = *cache;
            assert(cache.keys(layer as int) == c0.keys(layer as int));
            assert(cache.values(layer as int) == c0.values(layer as int));
            self.run_layer::<A>(
                layer,
                seq_len,
                past,
                cache,
                &mut residual,
                &mut hidden_states,
                &mut q_buf,
                &mut att_scores,
                &mut gate_buf,
                &mut up_buf,
            );
            proof {
                buffers = buffers.push(
                    Buffers {
                        residual: residual.data@,
                        q: q_buf.data@,
                        gate: gate_buf.data@,
                        up: up_buf.data@,
                    },
                );
                assert forall|l: int| 0 <= l < layer + 1 implies self.layer_done::<A>(
                    l,
                    seq_len as int,
                    past as int,
                    #[trigger] c0.keys(l),
                    c0.values(l),
                    buffers[l],
                    cache.keys(l),
                    cache.values(l),
                    buffers[l + 1],
                ) by {
                    if l < layer {
                        assert(cache.keys(l) == before.keys(l));
                        assert(cache.values(l) == before.values(l));
                    }
                }
            }
        }
        let mut logits = Tensor::<T>::default(&vec![1, self.vocab]);
        let ghost empty = logits.data@;
        proof {
            lemma_entries_2(seq_len, self.d);
            assert(residual.shape@ =~= seq![seq_len, self.d]);
            assert(hidden_states.shape@ =~= seq![seq_len, self.d]);
            lemma_row_bound(seq_len as int, self.d as int, seq_len - 1);
            assert(1 * self.d == self.d);
            lemma_countable_2(1, self.d);
            lemma_countable_1(self.d);
            assert(blank(empty));
        }
        let start = (seq_len - 1) * self.d;
        let mut last_hidden = hidden_states.slice(start, &vec![1, self.d]);
        let vector = vec![self.d];
        assert(vector@ =~= seq![self.d]);
        let last_residual = residual.slice(start, &vector);
        rms_norm::<T, A>(&mut last_hidden, &last_residual, &self.params.rms_out_w, self.eps);
        let zero = A::zero();
        let one = A::one();
        proof {
            let head = self.params.lm_head;
            assert(head.shape@ =~= seq![self.vocab, self.d]);
        }
        matmul_transb::<T, T, A>(&mut logits, zero, &last_hidden, &self.params.lm_head, one);
        proof {
            let t = PassTrace { buffers, zero, one, last: last_hidden.data@, blank: empty };
            assert(self.pass_steps::<A>(input.data@, c0, *cache, t, logits.data@));
        }
        logits
    }

    /// Whether `tokens` can be taken in after what the cache holds.
    pub fn can_accept(&self, tokens: &[u32], cache: &KVCache<T>) -> (b: bool)
        requires
            self.consistent(),
            self.owns(*cache),
        ensures
            b == self.accepts(tokens@, *cache),
    {
        let n = tokens.len();
        if n == 0 || cache.length > self.max_seq_len || n > self.max_seq_len - cache.length {
            return false;
        }
        let rows = self.params.embedding_table.shape[0];
        for i in 0..n
            invariant
                n == tokens@.len(),
                rows == self.params.embedding_table.shape@[0],
                forall|k: int| 0 <= k < i ==> (#[trigger] tokens@[k]) < rows,
        {
            if tokens[i] as usize >= rows {
                assert(tokens@[i as int] >= rows);
                return false;
            }
        }
        let total = cache.length + n;
        let groups = self.n_q_h / self.n_kv_h;
        proof {
            lemma_layer_sizes(self, n as int, cache.length as int);
        }
        let heads = self.n_kv_h * groups;
        let q_len = match self.n_q_h.checked_mul(self.dqkv) {
            Some(q_len) => q_len,
            None => {
                assert(self.q_len() <= n * self.q_len()) by (nonlinear_arith)
                    requires
                        0 < n,
                        0 <= self.q_len(),
                ;
                return false;
            },
        };
        if n.checked_mul(self.d).is_none() || n.checked_mul(q_len).is_none() || n.checked_mul(
            self.di,
        ).is_none() || n.checked_mul(total).is_none() {
            return false;
        }
        match heads.checked_mul(n) {
            None => {
                assert(heads * n <= heads * n * total) by (nonlinear_arith)
                    requires
                        total >= 1,
                        0 <= heads,
                        0 <= n,
                ;
                false
            },
            Some(rows) => rows.checked_mul(total).is_some(),
        }
    }

    /// Like [`Llama::forward`], for tokens of which it is not known whether they can be taken in:
    /// if they cannot, there is no result and the cache is left as it is.
    pub fn try_forward<A: Arithmetic<T> + Widen<T, T>>(
        &self,
        input: &Tensor<u32>,
        cache: &mut KVCache<T>,
    ) -> (r: Option<Tensor<T>>)
        requires
            self.consistent(),
            self.owns(*old(cache)),
        ensures
            match r {
                Some(logits) => {
                    &&& self.accepts(input.data@, *old(cache))
                    &&& logits.wf()
                    &&& logits.shape@ == seq![1usize, self.vocab]
                    &&& self.passed::<A>(input.data@, *old(cache), *final(cache), logits.data@)
                },
                None => !self.accepts(input.data@, *old(cache)) && *final(cache) == *old(cache),
            },
    {
        if self.can_accept(input.data(), cache) {
            Some(self.forward::<A>(input, cache))
        } else {
            None
        }
    }

    /// Takes in `token` and chooses the next one. Nothing if the token cannot be taken in or the
    /// scores do not allow a choice.
    pub fn next_token<A: Arithmetic<T> + Widen<T, T>>(
        &self,
        token: u32,
        cache: &mut KVCache<T>,
        top_p: T,
        top_k: u32,
        temperature: T,
    ) -> (r: Option<u32>)
        requires
            self.consistent(),
            self.owns(*old(cache)),
        ensures
            self.owns(*final(cache)),
            match r {
                Some(next) => self.stepped::<A>(
                    token,
                    *old(cache),
                    *final(cache),
                    (Sampling { top_p, top_k, temperature }),
                    Some(next),
                ),
                None => self.stuck::<A>(
                    token,
                    *old(cache),
                    *final(cache),
                    (Sampling { top_p, top_k, temperature }),
                ),
            },
    {
        let tokens = vec![token];
        let shape: Vec<usize> = vec![1];
        proof {
            assert(tokens@ =~= seq![token]);
            assert(shape@ =~= seq![1usize]);
            lemma_entries_1(1);
        }
        let input = Tensor::<u32>::new(tokens, &shape);
        match self.try_forward::<A>(&input, cache) {
            Some(logits) => {
                assert(self.passed::<A>(seq![token], *old(cache), *cache, logits.data@));
                if self.vocab == 0 {
                    None
                } else {
                    random_sample::<T, A>(&logits, top_p, top_k, temperature)
                }
            },
            None => None,
        }
    }

    /// Continues a text that ends with `first` by at most `max_len` tokens, and reports each
    /// token but the end token to `progress`, which need not be able to take the end token. Returns
    /// the tokens, and whether the continuation came to its end.
    pub fn extend<A: Arithmetic<T> + Widen<T, T>, F: Fn(u32)>(
        &self,
        first: u32,
        cache: &mut KVCache<T>,
        max_len: usize,
        top_p: T,
        top_k: u32,
        temperature: T,
        progress: &F,
    ) -> (r: (Vec<u32>, bool))
        requires
            self.consistent(),
            self.owns(*old(cache)),
            forall|t: u32| t != self.eos_token_id ==> call_requires(*progress, (t,)),
        ensures
            self.owns(*final(cache)),
            self.continued::<A>(
                first,
                *old(cache),
                max_len as int,
                (Sampling { top_p, top_k, temperature }),
                r.0@,
                r.1,
                *final(cache),
            ),
            forall|i: int| 0 <= i < r.0@.len() - 1 ==> #[trigger] r.0@[i] != self.eos_token_id,
            forall|i: int|
                0 <= i < r.0@.len() && #[trigger] r.0@[i] != self.eos_token_id ==> call_ensures(
                    *progress,
                    (r.0@[i],),
                    (),
                ),
    {
        let ghost how = Sampling { top_p, top_k, temperature };
        let ghost c0 = *cache;
        let ghost mut caches: Seq<KVCache<T>> = seq![c0];
        let mut picks: Vec<u32> = Vec::new();
        let mut last = first;
        let mut done = true;
        let mut ended = max_len == 0;
        while !ended
            invariant
                self.consistent(),
                self.owns(*cache),
                forall|t: u32| t != self.eos_token_id ==> call_requires(*progress, (t,)),
                how == (Sampling { top_p, top_k, temperature }),
                caches[0] == c0,
                forall|i: int|
                    0 <= i < picks@.len() && #[trigger] picks@[i] != self.eos_token_id
                        ==> call_ensures(*progress, (picks@[i],), ()),
                ended ==> self.continues::<A>(
                    first,
                    caches,
                    max_len as int,
                    how,
                    picks@,
                    done,
                    *cache,
                ),
                !ended ==> {
                    &&& done
                    &&& picks@.len() < max_len
                    &&& last == token_before(first, picks@, picks@.len() as int)
                    &&& self.picked::<A>(first, caches, how, picks@)
                    &&& caches.last() == *cache
                    &&& forall|i: int|
                        0 <= i < picks@.len() ==> #[trigger] picks@[i] != self.eos_token_id
                },
            decreases max_len - picks@.len(), (if ended { 0int } else { 1int }),
        {
            match self.next_token::<A>(last, cache, top_p, top_k, temperature) {
                None => {
                    done = false;
                    ended = true;
                },
                Some(next) => {
                    proof {
                        self.lemma_picked_push::<A>(first, caches, how, picks@, next, *cache);
                        caches = caches.push(*cache);
                    }
                    picks.push(next);
                    last = next;
                    if next != self.eos_token_id {
                        progress(next);
                    }
                    ended = next == self.eos_token_id || picks.len() == max_len;
                },
            }
        }
        (picks, done)
    }

    /// Continues the text `token_ids`, or that of the start token alone, by at most `max_len`
    /// tokens; the end token, if it is chosen, comes last. Nothing if a token cannot be taken in
    /// or chosen.
    pub fn generate<A: Arithmetic<T> + Widen<T, T>>(
        &self,
        token_ids: &[u32],
        max_len: usize,
        top_p: T,
        top_k: u32,
        temperature: T,
    ) -> (r: Option<Vec<u32>>)
        requires
            self.consistent(),
        ensures
            exists|c0: KVCache<T>| #[trigger]
                self.is_empty_cache(c0) && self.generated::<A>(
                    token_ids@,
                    c0,
                    max_len as int,
                    (Sampling { top_p, top_k, temperature }),
                    contents(r),
                ),
    {
        let ghost how = Sampling { top_p, top_k, temperature };
        let mut result: Vec<u32> = Vec::new();
        for i in 0..token_ids.len()
            invariant
                result@ == token_ids@.take(i as int),
        {
            result.push(token_ids[i]);
            assert(result@ =~= token_ids@.take(i + 1));
        }
        assert(token_ids@.take(token_ids@.len() as int) =~= token_ids@);
        if result.len() == 0 {
            result.push(self.bos_token_id);
        }
        let ghost text = self.start_text(token_ids@);
        assert(result@ =~= text);
        let mut cache = self.new_cache();
        let ghost c0 = cache;
        assert(self.is_empty_cache(c0));
        let n = result.len();
        let shape = vec![n];
        proof {
            assert(shape@ =~= seq![n]);
            lemma_entries_1(n);
        }
        let prompt = Tensor::<u32>::new(result.clone(), &shape);
        assert(prompt.data@ =~= text);
        let fed = self.try_forward::<A>(&prompt, &mut cache);
        if fed.is_none() {
            return None;
        }
        let ghost c = cache;
        let ghost logits = fed.unwrap().data@;
        assert(self.passed::<A>(text, c0, c, logits));
        let last = result[n - 1];
        let silent = |t: u32| {};
        let (mut picks, done) = self.extend::<A, _>(
            last,
            &mut cache,
            max_len,
            top_p,
            top_k,
            temperature,
            &silent,
        );
        let ghost tail = picks@;
        assert(self.continued::<A>(text.last(), c, max_len as int, how, tail, done, cache));
        if done {
            result.append(&mut picks);
            Some(result)
        } else {
            None
        }
    }

    /// The model that `model_file`, an archive of its weights, and `config` describe. For a file of
    /// which nothing is known, see [`crate::archive::find_huge_offset`].
    pub fn from_safetensors<A: Arithmetic<T>>(
        model_file: &[u8],
        config: &LlamaConfigJson<T>,
    ) -> (r: Result<Llama<T>, LoadError>)
        requires
            config.num_attention_heads > 0,
            !has_huge_offset(model_file@),
        ensures
            match parsed_archive(model_file@) {
                None => r == Err::<Llama<T>, LoadError>(LoadError::BadArchive),
                Some(archive) => match r {
                    Ok(model) => model.configured(*config) && load_outcome::<T, A>(
                        archive,
                        config.tie_word_embeddings,
                        config.num_hidden_layers as nat,
                        Ok(model.params),
                    ),
                    Err(e) => load_outcome::<T, A>(
                        archive,
                        config.tie_word_embeddings,
                        config.num_hidden_layers as nat,
                        Err(e),
                    ),
                },
            },
            r matches Ok(model) ==> {
                &&& model.vocab == config.vocab_size
                &&& model.n_layers == config.num_hidden_layers
                &&& model.n_q_h == config.num_attention_heads
                &&& model.n_kv_h == config.num_key_value_heads
                &&& model.d == config.hidden_size
                &&& model.dqkv == config.hidden_size as int / config.num_attention_heads as int
                &&& model.di == config.intermediate_size
                &&& model.eps == config.rms_norm_eps
                &&& model.rope_theta == config.rope_theta
                &&& model.max_seq_len == config.max_position_embeddings
                &&& model.bos_token_id == config.bos_token_id
                &&& model.eos_token_id == config.eos_token_id
            },
    {
        let safetensor = match parse_archive(model_file) {
            Ok(safetensor) => safetensor,
            Err(_) => {
                return Err(LoadError::BadArchive);
            },
        };
        let params = match LLamaParams::load::<A>(&safetensor, config) {
            Ok(params) => params,
            Err(e) => {
                return Err(e);
            },
        };
        Ok(
            Llama {
                vocab: config.vocab_size,
                n_layers: config.num_hidden_layers,
                n_q_h: config.num_attention_heads,
                n_kv_h: config.num_key_value_heads,
                d: config.hidden_size,
                dqkv: config.hidden_size / config.num_attention_heads,
                di: config.intermediate_size,
                eps: config.rms_norm_eps,
                rope_theta: config.rope_theta,
                max_seq_len: config.max_position_embeddings,
                params,
                bos_token_id: config.bos_token_id,
                eos_token_id: config.eos_token_id,
            },
        )
    }
}

} // verus!
