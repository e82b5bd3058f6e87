//! The trained weights of a model and how they are read from an archive.

use crate::archive::{archive_entries, find_tensor};
use crate::arith::{decodes, Arithmetic};
use crate::config::LlamaConfigJson;
use crate::tensor::{countable, entries, Tensor};
use crate::text::{decimal, numeral};
use safetensors::SafeTensors;
use vstd::prelude::*;

verus! {

/// The trained weights of a model.
pub struct LLamaParams<T> {
    /// (vocab_size, dim)
    pub embedding_table: Tensor<T>,
    /// (hidden_size, ) x layers
    pub rms_att_w: Vec<Tensor<T>>,
    /// (n_heads * head_size, hidden_size) x layers
    pub wq: Vec<Tensor<T>>,
    /// (n_kv_heads * head_size, hidden_size) x layers
    pub wk: Vec<Tensor<T>>,
    /// (n_kv_heads * head_size, hidden_size) x layers
    pub wv: Vec<Tensor<T>>,
    /// (hidden_size, n_heads * head_size) x layers
    pub wo: Vec<Tensor<T>>,
    /// (hidden_size, ) x layers
    pub rms_ffn_w: Vec<Tensor<T>>,
    /// (intermediate_size, hidden_size) x layers
    pub w_up: Vec<Tensor<T>>,
    /// (intermediate_size, hidden_size) x layers
    pub w_gate: Vec<Tensor<T>>,
    /// (hidden_size, intermediate_size) x layers
    pub w_down: Vec<Tensor<T>>,
    /// (hidden_size, )
    pub rms_out_w: Tensor<T>,
    /// (vocab_size, dim)
    pub lm_head: Tensor<T>,
}

/// Why a model could not be read.
#[derive(Debug)]
pub enum LoadError {
    /// The file is no archive.
    BadArchive,
    /// The archive lacks the tensor of this name.
    MissingTensor(String),
    /// The tensor of this name does not have four bytes for each of its entries.
    BadShape(String),
}

/// The tensors of a layer.
#[derive(Clone, Copy)]
pub enum LayerTensor {
    AttNorm,
    Query,
    Key,
    Value,
    Output,
    FfnNorm,
    Up,
    Gate,
    Down,
}

impl LayerTensor {
    /// What the tensor's name ends with.
    pub open spec fn spec_suffix(self) -> Seq<char> {
        match self {
            LayerTensor::AttNorm => ".input_layernorm.weight"@,
            LayerTensor::Query => ".self_attn.q_proj.weight"@,
            LayerTensor::Key => ".self_attn.k_proj.weight"@,
            LayerTensor::Value => ".self_attn.v_proj.weight"@,
            LayerTensor::Output => ".self_attn.o_proj.weight"@,
            LayerTensor::FfnNorm => ".post_attention_layernorm.weight"@,
            LayerTensor::Up => ".mlp.up_proj.weight"@,
            LayerTensor::Gate => ".mlp.gate_proj.weight"@,
            LayerTensor::Down => ".mlp.down_proj.weight"@,
        }
    }

    /// What the tensor's name ends with.
    pub fn suffix(self) -> (s: &'static str)
        ensures
            s@ == self.spec_suffix(),
    {
        match self {
            LayerTensor::AttNorm => ".input_layernorm.weight",
            LayerTensor::Query => ".self_attn.q_proj.weight",
            LayerTensor::Key => ".self_attn.k_proj.weight",
            LayerTensor::Value => ".self_attn.v_proj.weight",
            LayerTensor::Output => ".self_attn.o_proj.weight",
            LayerTensor::FfnNorm => ".post_attention_layernorm.weight",
            LayerTensor::Up => ".mlp.up_proj.weight",
            LayerTensor::Gate => ".mlp.gate_proj.weight",
            LayerTensor::Down => ".mlp.down_proj.weight",
        }
    }
}

/// The name of a tensor of layer `layer`.
pub open spec fn layer_name(layer: nat, which: LayerTensor) -> Seq<char> {
    "model.layers."@ + decimal(layer) + which.spec_suffix()
}

/// The name of a tensor of layer `layer`.
pub fn layer_tensor_name(layer: usize, which: LayerTensor) -> (s: String)
    ensures
        s@ == layer_name(layer as nat, which),
{
    let mut s = "model.layers.".to_string();
    s.append(numeral(layer).as_str());
    s.append(which.suffix());
    s
}

/// The name of the table of token embeddings. Where the embeddings are shared with the output
/// projection, the archive holds them under the name of the latter only.
pub open spec fn embedding_name(tied: bool) -> Seq<char> {
    if tied {
        "lm_head.weight"@
    } else {
        "model.embed_tokens.weight"@
    }
}

/// The names of the tensors of a layer, in the order in which they are read.
pub open spec fn names_of_layer(layer: nat) -> Seq<Seq<char>> {
    seq![
        layer_name(layer, LayerTensor::AttNorm),
        layer_name(layer, LayerTensor::Query),
        layer_name(layer, LayerTensor::Key),
        layer_name(layer, LayerTensor::Value),
        layer_name(layer, LayerTensor::Output),
        layer_name(layer, LayerTensor::FfnNorm),
        layer_name(layer, LayerTensor::Up),
        layer_name(layer, LayerTensor::Gate),
        layer_name(layer, LayerTensor::Down),
    ]
}

/// The names of the tensors of the first `n` layers, in the order in which they are read.
pub open spec fn names_of_layers(n: nat) -> Seq<Seq<char>>
    decreases n,
{
    if n == 0 {
        Seq::empty()
    } else {
        names_of_layers((n - 1) as nat) + names_of_layer((n - 1) as nat)
    }
}

/// The names of all the tensors of a model, in the order in which they are read.
pub open spec fn required_names(tied: bool, n_layers: nat) -> Seq<Seq<char>> {
    let front = seq![embedding_name(tied)] + names_of_layers(n_layers) + seq![
        "model.norm.weight"@,
    ];
    if tied {
        front
    } else {
        front + seq!["lm_head.weight"@]
    }
}

/// The number that the four bytes from `i` on encode, the least significant byte first.
pub open spec fn word_at(bytes: Seq<u8>, i: int) -> u32 {
    (bytes[i] + bytes[i + 1] * 0x100 + bytes[i + 2] * 0x1_0000 + bytes[i + 3] * 0x100_0000) as u32
}

/// `data` can be what `bytes` encodes, four bytes for each entry; up to three bytes at the end
/// are ignored.
pub open spec fn decoded<T, A: Arithmetic<T>>(bytes: Seq<u8>, data: Seq<T>) -> bool {
    &&& data.len() == bytes.len() / 4
    &&& forall|i: int|
        0 <= i < data.len() ==> decodes::<T, A>(word_at(bytes, 4 * i), #[trigger] data[i])
}

/// A tensor with these dimensions has four bytes for each of its entries.
pub open spec fn sound(entry: (Seq<usize>, Seq<u8>)) -> bool {
    &&& countable(entry.0)
    &&& entries(entry.0) == entry.1.len() / 4
}

/// The tensor `name` can be read.
pub open spec fn readable(
    archive: Map<Seq<char>, (Seq<usize>, Seq<u8>)>,
    name: Seq<char>,
) -> bool {
    archive.contains_key(name) && sound(archive[name])
}

/// All the tensors of a model can be read.
pub open spec fn complete(
    archive: Map<Seq<char>, (Seq<usize>, Seq<u8>)>,
    tied: bool,
    n_layers: nat,
) -> bool {
    forall|i: int|
        0 <= i < required_names(tied, n_layers).len() ==> readable(
            archive,
            #[trigger] required_names(tied, n_layers)[i],
        )
}

/// `t` can be what the archive holds under `name`.
pub open spec fn is_read<T, A: Arithmetic<T>>(
    archive: Map<Seq<char>, (Seq<usize>, Seq<u8>)>,
    name: Seq<char>,
    t: Tensor<T>,
) -> bool {
    &&& t.wf()
    &&& t.shape@ == archive[name].0
    &&& decoded::<T, A>(archive[name].1, t.data@)
}

/// `ts` can be what the archive holds for this tensor of each of the first `n` layers.
pub open spec fn are_read<T, A: Arithmetic<T>>(
    archive: Map<Seq<char>, (Seq<usize>, Seq<u8>)>,
    which: LayerTensor,
    n: nat,
    ts: Seq<Tensor<T>>,
) -> bool {
    &&& ts.len() == n
    &&& forall|l: int|
        0 <= l < n ==> is_read::<T, A>(archive, layer_name(l as nat, which), #[trigger] ts[l])
}

impl<T> LLamaParams<T> {
    /// The weights can be what the archive holds.
    pub open spec fn read_from<A: Arithmetic<T>>(
        self,
        archive: Map<Seq<char>, (Seq<usize>, Seq<u8>)>,
        tied: bool,
        n: nat,
    ) -> bool {
        &&& is_read::<T, A>(archive, embedding_name(tied), self.embedding_table)
        &&& are_read::<T, A>(archive, LayerTensor::AttNorm, n, self.rms_att_w@)
        &&& are_read::<T, A>(archive, LayerTensor::Query, n, self.wq@)
        &&& are_read::<T, A>(archive, LayerTensor::Key, n, self.wk@)
        &&& are_read::<T, A>(archive, LayerTensor::Value, n, self.wv@)
        &&& are_read::<T, A>(archive, LayerTensor::Output, n, self.wo@)
        &&& are_read::<T, A>(archive, LayerTensor::FfnNorm, n, self.rms_ffn_w@)
        &&& are_read::<T, A>(archive, LayerTensor::Up, n, self.w_up@)
        &&& are_read::<T, A>(archive, LayerTensor::Gate, n, self.w_gate@)
        &&& are_read::<T, A>(archive, LayerTensor::Down, n, self.w_down@)
        &&& is_read::<T, A>(archive, "model.norm.weight"@, self.rms_out_w)
        &&& if tied {
            self.lm_head.data@ == self.embedding_table.data@ && self.lm_head.shape@
                == self.embedding_table.shape@
        } else {
            is_read::<T, A>(archive, "lm_head.weight"@, self.lm_head)
        }
    }
}

/// Where the names of a layer stand among those of all layers.
pub proof fn lemma_names_of_layers(n: nat, l: nat, k: int)
    requires
        l < n,
        0 <= k < 9,
    ensures
        names_of_layers(n).len() == 9 * n,
        names_of_layers(n)[9 * l + k] == names_of_layer(l)[k],
    decreases n,
{
    lemma_count_names((n - 1) as nat);
    if l < n - 1 {
        lemma_names_of_layers((n - 1) as nat, l, k);
    }
}

proof fn lemma_count_names(n: nat)
    ensures
        names_of_layers(n).len() == 9 * n,
    decreases n,
{
    if n > 0 {
        lemma_count_names((n - 1) as nat);
    }
}

/// In a complete archive each tensor can be read.
proof fn lemma_complete(
    archive: Map<Seq<char>, (Seq<usize>, Seq<u8>)>,
    tied: bool,
    n: nat,
)
    requires
        complete(archive, tied, n),
    ensures
        readable(archive, embedding_name(tied)),
        readable(archive, "model.norm.weight"@),
        readable(archive, "lm_head.weight"@),
        forall|l: nat, which: LayerTensor|
            l < n ==> readable(archive, #[trigger] layer_name(l, which)),
{
    let names = required_names(tied, n);
    lemma_count_names(n);
    assert(names[0] == embedding_name(tied));
    assert(names[9 * n as int + 1] == "model.norm.weight"@);
    if !tied {
        assert(names[9 * n as int + 2] == "lm_head.weight"@);
    }
    assert forall|l: nat, which: LayerTensor| l < n implies readable(
        archive,
        #[trigger] layer_name(l, which),
    ) by {
        let k: int = match which {
            LayerTensor::AttNorm => 0,
            LayerTensor::Query => 1,
            LayerTensor::Key => 2,
            LayerTensor::Value => 3,
            LayerTensor::Output => 4,
            LayerTensor::FfnNorm => 5,
            LayerTensor::Up => 6,
            LayerTensor::Gate => 7,
            LayerTensor::Down => 8,
        };
        lemma_names_of_layers(n, l, k);
        assert(names[9 * l + k + 1] == layer_name(l, which));
    }
}

/// The number of entries, if it can be computed.
fn count_checked(shape: &Vec<usize>) -> (r: Option<usize>)
    ensures
        match r {
            Some(n) => countable(shape@) && n == entries(shape@),
            None => !countable(shape@),
        },
{
    let mut n: usize = 1;
    assert(entries(shape@.take(0)) == 1);
    for k in 0..shape.len()
        invariant
            n == entries(shape@.take(k as int)),
            forall|j: int| 0 <= j <= k ==> #[trigger] entries(shape@.take(j)) <= usize::MAX,
    {
        assert(shape@.take(k + 1).drop_last() =~= shape@.take(k as int));
        match n.checked_mul(shape[k]) {
            Some(m) => {
                n = m;
            },
            None => {
                assert(entries(shape@.take(k + 1)) > usize::MAX);
                return None;
            },
        }
    }
    assert(shape@.take(shape@.len() as int) =~= shape@);
    Some(n)
}

/// The scalars that `bytes` encodes, four bytes each, the least significant first.
pub fn decode<T, A: Arithmetic<T>>(bytes: &[u8]) -> (data: Vec<T>)
    ensures
        decoded::<T, A>(bytes@, data@),
{
    let n = bytes.len() / 4;
    let mut data: Vec<T> = Vec::with_capacity(n);
    for i in 0..n
        invariant
            n == bytes@.len() / 4,
            bytes@.len() <= usize::MAX,
            data@.len() == i,
            forall|k: int|
                0 <= k < i ==> decodes::<T, A>(word_at(bytes@, 4 * k), #[trigger] data@[k]),
    {
        let b0 = bytes[4 * i] as u32;
        let b1 = bytes[4 * i + 1] as u32;
        let b2 = bytes[4 * i + 2] as u32;
        let b3 = bytes[4 * i + 3] as u32;
        let word: u32 = b0 + b1 * 0x100 + b2 * 0x1_0000 + b3 * 0x100_0000;
        let value = A::from_bits(word);
        data.push(value);
    }
    data
}

/// The tensor that the archive holds under `name`.
fn load_tensor<T, A: Arithmetic<T>>(archive: &SafeTensors, name: &str) -> (t: Tensor<T>)
    requires
        readable(archive_entries(archive), name@),
    ensures
        is_read::<T, A>(archive_entries(archive), name@, t),
{
    let found = find_tensor(archive, name);
    let (shape, bytes) = found.unwrap();
    Tensor::new(decode::<T, A>(bytes), &shape)
}

/// This tensor of each of the first `n` layers.
fn load_layers<T, A: Arithmetic<T>>(
    archive: &SafeTensors,
    which: LayerTensor,
    n: usize,
) -> (ts: Vec<Tensor<T>>)
    requires
        forall|l: nat|
            l < n ==> readable(archive_entries(archive), #[trigger] layer_name(l, which)),
    ensures
        are_read::<T, A>(archive_entries(archive), which, n as nat, ts@),
{
    let mut ts: Vec<Tensor<T>> = Vec::with_capacity(n);
    for l in 0..n
        invariant
            forall|k: nat|
                k < n ==> readable(archive_entries(archive), #[trigger] layer_name(k, which)),
            are_read::<T, A>(archive_entries(archive), which, l as nat, ts@),
    {
        let name = layer_tensor_name(l, which);
        ts.push(load_tensor::<T, A>(archive, name.as_str()));
    }
    ts
}

/// The names of all the tensors of a model, in the order in which they are read.
pub fn list_names(tied: bool, n_layers: usize) -> (names: Vec<String>)
    ensures
        names@.len() == required_names(tied, n_layers as nat).len(),
        forall|i: int|
            0 <= i < names@.len() ==> #[trigger] names@[i]@ == required_names(
                tied,
                n_layers as nat,
            )[i],
{
    let mut names: Vec<String> = Vec::new();
    if tied {
        names.push("lm_head.weight".to_string());
    } else {
        names.push("model.embed_tokens.weight".to_string());
    }
    let ghost mut front = seq![embedding_name(tied)];
    for l in 0..n_layers
        invariant
            front == seq![embedding_name(tied)] + names_of_layers(l as nat),
            names@.len() == front.len(),
            forall|i: int| 0 <= i < names@.len() ==> #[trigger] names@[i]@ == front[i],
    {
        names.push(layer_tensor_name(l, LayerTensor::AttNorm));
        names.push(layer_tensor_name(l, LayerTensor::Query));
        names.push(layer_tensor_name(l, LayerTensor::Key));
        names.push(layer_tensor_name(l, LayerTensor::Value));
        names.push(layer_tensor_name(l, LayerTensor::Output));
        names.push(layer_tensor_name(l, LayerTensor::FfnNorm));
        names.push(layer_tensor_name(l, LayerTensor::Up));
        names.push(layer_tensor_name(l, LayerTensor::Gate));
        names.push(layer_tensor_name(l, LayerTensor::Down));
        proof {
            front = front + names_of_layer(l as nat);
            assert(front =~= seq![embedding_name(tied)] + names_of_layers((l + 1) as nat));
        }
    }
    names.push("model.norm.weight".to_string());
    if !tied {
        names.push("lm_head.weight".to_string());
    }
    names
}

impl<T: Copy> LLamaParams<T> {
    /// The weights that the archive holds. Each of the tensors that the model needs must be there;
    /// see [`LLamaParams::load`] for an archive of which that is not known.
    pub fn from_safetensors<A: Arithmetic<T>>(
        safetensor: &SafeTensors,
        config: &LlamaConfigJson<T>,
    ) -> (params: LLamaParams<T>)
        requires
            complete(
                archive_entries(safetensor),
                config.tie_word_embeddings,
                config.num_hidden_layers as nat,
            ),
        ensures
            params.read_from::<A>(
                archive_entries(safetensor),
                config.tie_word_embeddings,
                config.num_hidden_layers as nat,
            ),
    {
        let n = config.num_hidden_layers;
        proof {
            lemma_complete(archive_entries(safetensor), config.tie_word_embeddings, n as nat);
        }
        let embedding_table = if config.tie_word_embeddings {
            load_tensor::<T, A>(safetensor, "lm_head.weight")
        } else {
            load_tensor::<T, A>(safetensor, "model.embed_tokens.weight")
        };
        let rms_att_w = load_layers::<T, A>(safetensor, LayerTensor::AttNorm, n);
        let wq = load_layers::<T, A>(safetensor, LayerTensor::Query, n);
        let wk = load_layers::<T, A>(safetensor, LayerTensor::Key, n);
        let wv = load_layers::<T, A>(safetensor, LayerTensor::Value, n);
        let wo = load_layers::<T, A>(safetensor, LayerTensor::Output, n);
        let rms_ffn_w = load_layers::<T, A>(safetensor, LayerTensor::FfnNorm, n);
        let w_up = load_layers::<T, A>(safetensor, LayerTensor::Up, n);
        let w_gate = load_layers::<T, A>(safetensor, LayerTensor::Gate, n);
        let w_down = load_layers::<T, A>(safetensor, LayerTensor::Down, n);
        let rms_out_w = load_tensor::<T, A>(safetensor, "model.norm.weight");
        let lm_head = if config.tie_word_embeddings {
            embedding_table.duplicate()
        } else {
            load_tensor::<T, A>(safetensor, "lm_head.weight")
        };
        LLamaParams {
            embedding_table,
            rms_att_w,
            wq,
            wk,
            wv,
            wo,
            rms_ffn_w,
            w_up,
            w_gate,
            w_down,
            rms_out_w,
            lm_head,
        }
    }

    /// The weights that the archive holds, or what the first tensor lacks that cannot be read.
    pub fn load<A: Arithmetic<T>>(
        safetensor: &SafeTensors,
        config: &LlamaConfigJson<T>,
    ) -> (r: Result<LLamaParams<T>, LoadError>)
        ensures
            load_outcome::<T, A>(
                archive_entries(safetensor),
                config.tie_word_embeddings,
                config.num_hidden_layers as nat,
                r,
            ),
    {
        let tied = config.tie_word_embeddings;
        let n = config.num_hidden_layers;
        let names = list_names(tied, n);
        let ghost required = required_names(tied, n as nat);
        let ghost held = archive_entries(safetensor);
        for i in 0..names.len()
            invariant
                held == archive_entries(safetensor),
                required == required_names(tied, n as nat),
                tied == config.tie_word_embeddings,
                n == config.num_hidden_layers,
                names@.len() == required.len(),
                forall|k: int| 0 <= k < names@.len() ==> #[trigger] names@[k]@ == required[k],
                forall|k: int| 0 <= k < i ==> readable(held, #[trigger] required[k]),
        {
            let name = names[i].as_str();
            match find_tensor(safetensor, name) {
                None => {
                    let e = LoadError::MissingTensor(name.to_string());
                    assert(first_unreadable(held, required, i as int));
                    return Err(e);
                },
                Some((shape, bytes)) => {
                    let ok = match count_checked(&shape) {
                        Some(count) => count == bytes.len() / 4,
                        None => false,
                    };
                    if !ok {
                        let e = LoadError::BadShape(name.to_string());
                        assert(first_unreadable(held, required, i as int));
                        return Err(e);
                    }
                },
            }
        }
        Ok(LLamaParams::from_safetensors::<A>(safetensor, config))
    }
}

/// Tensor `i` of `names` is the first that cannot be read.
pub open spec fn first_unreadable(
    archive: Map<Seq<char>, (Seq<usize>, Seq<u8>)>,
    names: Seq<Seq<char>>,
    i: int,
) -> bool {
    &&& 0 <= i < names.len()
    &&& !readable(archive, names[i])
    &&& forall|k: int| 0 <= k < i ==> readable(archive, #[trigger] names[k])
}

/// What reading the weights of a model gives: the weights if the archive is complete, and
/// otherwise what is wrong with the first tensor that cannot be read.
pub open spec fn load_outcome<T, A: Arithmetic<T>>(
    archive: Map<Seq<char>, (Seq<usize>, Seq<u8>)>,
    tied: bool,
    n: nat,
    r: Result<LLamaParams<T>, LoadError>,
) -> bool {
    let names = required_names(tied, n);
    match r {
        Ok(params) => complete(archive, tied, n) && params.read_from::<A>(archive, tied, n),
        Err(e) => exists|i: int| #[trigger]
            first_unreadable(archive, names, i) && match e {
                LoadError::BadArchive => false,
                LoadError::MissingTensor(name) => name@ == names[i] && !archive.contains_key(
                    names[i],
                ),
                LoadError::BadShape(name) => name@ == names[i] && archive.contains_key(names[i]),
            },
    }
}

} // verus!
