//! The description of a model.

use vstd::prelude::*;

verus! {

/// The sizes and constants of a model, as its `config.json` lists them.
pub struct LlamaConfigJson<T> {
    pub bos_token_id: u32,
    pub eos_token_id: u32,
    pub hidden_size: usize,
    pub intermediate_size: usize,
    pub max_position_embeddings: usize,
    pub num_attention_heads: usize,
    pub num_hidden_layers: usize,
    pub num_key_value_heads: usize,
    pub vocab_size: usize,
    pub rms_norm_eps: T,
    pub rope_theta: T,
    pub tie_word_embeddings: bool,
}

} // verus!
