//! What a loaded model consists of, in terms of the tensors of the archive, their names and their
//! bytes.

use crate::archive::{
    declared_len, dimensions_name, has_huge_offset, header, is_huge, place_after, Place,
};
use crate::arith::{decodes, Arithmetic};
use crate::config::LlamaConfigJson;
use crate::model::Llama;
use crate::model_laws::{has_shape, law_consistent_models};
use crate::params::{
    first_unreadable, is_read, layer_name, lemma_names_of_layers, load_outcome, names_of_layer,
    names_of_layers, readable, required_names, word_at, LLamaParams, LayerTensor, LoadError,
};
use crate::tensor::{countable, entries, lemma_entries_1, lemma_entries_2, Tensor};
use crate::text::decimal;
use vstd::prelude::*;

verus! {

/// The number that a sequence of decimal digits stands for.
pub open spec fn number_of(s: Seq<char>) -> int
    decreases s.len(),
{
    if s.len() == 0 {
        0
    } else {
        number_of(s.drop_last()) * 10 + (s.last() as u32 - '0' as u32)
    }
}

/// No digits stand for 0, and a further digit multiplies the number by ten and adds to it.
pub proof fn law_digits(s: Seq<char>, n: int, c: char)
    requires
        0 <= n <= 9,
        c as u32 == 48 + n,
    ensures
        number_of(Seq::<char>::empty()) == 0,
        number_of(s.push(c)) == 10 * number_of(s) + n,
{
    assert(s.push(c).drop_last() =~= s);
}

/// A decimal numeral consists of digits, does not start with 0 unless it is 0, and stands for the
/// number that it was made for.
pub proof fn law_numerals(n: nat, i: int)
    requires
        0 <= i < decimal(n).len(),
    ensures
        '0' <= decimal(n)[i] <= '9',
        decimal(n)[0] == '0' ==> n == 0,
        number_of(decimal(n)) == n,
    decreases n,
{
    let s = decimal(n);
    if n < 10 {
        assert(s.drop_last() =~= Seq::<char>::empty());
        assert(number_of(s.drop_last()) == 0);
    } else {
        let front = decimal(n / 10);
        lemma_numeral_not_empty(n / 10);
        law_numerals(n / 10, 0);
        if i < front.len() {
            law_numerals(n / 10, i);
        }
        assert(s.drop_last() =~= front);
    }
}

proof fn lemma_numeral_not_empty(n: nat)
    ensures
        decimal(n).len() > 0,
    decreases n,
{
    if n >= 10 {
        lemma_numeral_not_empty(n / 10);
    }
}

/// A tensor without dimensions has one entry, and each further dimension multiplies the number of
/// entries.
pub proof fn law_entries(shape: Seq<usize>, a: usize)
    ensures
        entries(Seq::<usize>::empty()) == 1,
        entries(shape.push(a)) == entries(shape) * a,
{
    assert(shape.push(a).drop_last() =~= shape);
}

/// The entries of a tensor none of whose dimensions is empty can be counted exactly if there are
/// not more of them than a `usize` can hold.
pub proof fn law_countable_tensors(shape: Seq<usize>)
    requires
        forall|i: int| 0 <= i < shape.len() ==> #[trigger] shape[i] > 0,
    ensures
        countable(shape) <==> entries(shape) <= usize::MAX,
{
    let n = shape.len() as int;
    assert(shape.take(n) =~= shape);
    if entries(shape) <= usize::MAX {
        assert forall|k: int| 0 <= k <= n implies #[trigger] entries(shape.take(k))
            <= usize::MAX by {
            lemma_entries_grow(shape, k, n);
        }
    }
}

proof fn lemma_entries_grow(shape: Seq<usize>, k: int, n: int)
    requires
        forall|i: int| 0 <= i < shape.len() ==> #[trigger] shape[i] > 0,
        0 <= k <= n <= shape.len(),
    ensures
        entries(shape.take(k)) <= entries(shape.take(n)),
    decreases n - k,
{
    if k < n {
        lemma_entries_grow(shape, k, n - 1);
        assert(shape.take(n).drop_last() =~= shape.take(n - 1));
        let e = entries(shape.take(n - 1)) as int;
        let a = shape[n - 1] as int;
        assert(e <= e * a) by (nonlinear_arith)
            requires
                0 <= e,
                1 <= a,
        ;
    }
}

/// The tensor has the dimensions that the archive gives under this name, and each of its entries
/// is decoded from four bytes, the least significant first.
pub open spec fn holds<T, A: Arithmetic<T>>(
    archive: Map<Seq<char>, (Seq<usize>, Seq<u8>)>,
    name: Seq<char>,
    t: Tensor<T>,
) -> bool {
    let bytes = archive[name].1;
    &&& t.shape@ == archive[name].0
    &&& t.data@.len() == entries(t.shape@)
    &&& t.data@.len() == bytes.len() / 4
    &&& forall|i: int|
        0 <= i < t.data@.len() ==> call_ensures(
            A::from_bits,
            ((bytes[4 * i] + 256 * (bytes[4 * i + 1] + 256 * (bytes[4 * i + 2] + 256
                * bytes[4 * i + 3]))) as u32,),
            #[trigger] t.data@[i],
        )
}

proof fn lemma_holds<T, A: Arithmetic<T>>(
    archive: Map<Seq<char>, (Seq<usize>, Seq<u8>)>,
    name: Seq<char>,
    t: Tensor<T>,
)
    requires
        is_read::<T, A>(archive, name, t),
    ensures
        holds::<T, A>(archive, name, t),
{
    let bytes = archive[name].1;
    assert forall|i: int| 0 <= i < t.data@.len() implies call_ensures(
        A::from_bits,
        ((bytes[4 * i] + 256 * (bytes[4 * i + 1] + 256 * (bytes[4 * i + 2] + 256 * bytes[4 * i
            + 3]))) as u32,),
        #[trigger] t.data@[i],
    ) by {
        let a = bytes[4 * i] as int;
        let b = bytes[4 * i + 1] as int;
        let c = bytes[4 * i + 2] as int;
        let d = bytes[4 * i + 3] as int;
        assert(a + 256 * (b + 256 * (c + 256 * d)) == a + b * 0x100 + c * 0x1_0000 + d
            * 0x100_0000);
        assert(decodes::<T, A>(word_at(bytes, 4 * i), t.data@[i]));
    }
}

/// Entry `i` of a tensor is decoded from the bytes `4 i` to `4 i + 3` that the archive holds under
/// its name, the least significant byte first.
pub proof fn law_entries_are_decoded<T, A: Arithmetic<T>>(
    archive: Map<Seq<char>, (Seq<usize>, Seq<u8>)>,
    name: Seq<char>,
    t: Tensor<T>,
    i: int,
    bits: u32,
)
    requires
        holds::<T, A>(archive, name, t),
        0 <= i < t.data@.len(),
        bits == archive[name].1[4 * i] + 0x100 * archive[name].1[4 * i + 1] + 0x1_0000
            * archive[name].1[4 * i + 2] + 0x100_0000 * archive[name].1[4 * i + 3],
    ensures
        t.shape@ == archive[name].0,
        t.data@.len() == archive[name].1.len() / 4,
        call_ensures(A::from_bits, (bits,), t.data@[i]),
{
    let bytes = archive[name].1;
    let a = bytes[4 * i] as int;
    let b = bytes[4 * i + 1] as int;
    let c = bytes[4 * i + 2] as int;
    let d = bytes[4 * i + 3] as int;
    assert(a + 256 * (b + 256 * (c + 256 * d)) == a + 0x100 * b + 0x1_0000 * c + 0x100_0000 * d);
    assert(call_ensures(
        A::from_bits,
        ((a + 256 * (b + 256 * (c + 256 * d))) as u32,),
        t.data@[i],
    ));
}

/// Each weight of a loaded model is read from the tensor of its own name. The embeddings, where
/// they serve as output matrix too, stand under the name of the latter.
pub proof fn law_weights_are_read_by_name<T, A: Arithmetic<T>>(
    p: LLamaParams<T>,
    archive: Map<Seq<char>, (Seq<usize>, Seq<u8>)>,
    tied: bool,
    n: nat,
    l: int,
)
    requires
        p.read_from::<A>(archive, tied, n),
        0 <= l < n,
    ensures
        ({
            let layer = "model.layers."@ + decimal(l as nat);
            &&& p.rms_att_w@.len() == n
            &&& p.wq@.len() == n
            &&& p.wk@.len() == n
            &&& p.wv@.len() == n
            &&& p.wo@.len() == n
            &&& p.rms_ffn_w@.len() == n
            &&& p.w_up@.len() == n
            &&& p.w_gate@.len() == n
            &&& p.w_down@.len() == n
            &&& holds::<T, A>(archive, layer + ".input_layernorm.weight"@, p.rms_att_w@[l])
            &&& holds::<T, A>(archive, layer + ".self_attn.q_proj.weight"@, p.wq@[l])
            &&& holds::<T, A>(archive, layer + ".self_attn.k_proj.weight"@, p.wk@[l])
            &&& holds::<T, A>(archive, layer + ".self_attn.v_proj.weight"@, p.wv@[l])
            &&& holds::<T, A>(archive, layer + ".self_attn.o_proj.weight"@, p.wo@[l])
            &&& holds::<T, A>(
                archive,
                layer + ".post_attention_layernorm.weight"@,
                p.rms_ffn_w@[l],
            )
            &&& holds::<T, A>(archive, layer + ".mlp.up_proj.weight"@, p.w_up@[l])
            &&& holds::<T, A>(archive, layer + ".mlp.gate_proj.weight"@, p.w_gate@[l])
            &&& holds::<T, A>(archive, layer + ".mlp.down_proj.weight"@, p.w_down@[l])
        }),
{
    lemma_holds::<T, A>(archive, layer_name(l as nat, LayerTensor::AttNorm), p.rms_att_w@[l]);
    lemma_holds::<T, A>(archive, layer_name(l as nat, LayerTensor::Query), p.wq@[l]);
    lemma_holds::<T, A>(archive, layer_name(l as nat, LayerTensor::Key), p.wk@[l]);
    lemma_holds::<T, A>(archive, layer_name(l as nat, LayerTensor::Value), p.wv@[l]);
    lemma_holds::<T, A>(archive, layer_name(l as nat, LayerTensor::Output), p.wo@[l]);
    lemma_holds::<T, A>(archive, layer_name(l as nat, LayerTensor::FfnNorm), p.rms_ffn_w@[l]);
    lemma_holds::<T, A>(archive, layer_name(l as nat, LayerTensor::Up), p.w_up@[l]);
    lemma_holds::<T, A>(archive, layer_name(l as nat, LayerTensor::Gate), p.w_gate@[l]);
    lemma_holds::<T, A>(archive, layer_name(l as nat, LayerTensor::Down), p.w_down@[l]);
}

/// The weights outside the layers are read from the tensors of their own names. Embeddings that
/// serve as output matrix too stand under the name of the latter, and the two are the same.
pub proof fn law_outer_weights_are_read_by_name<T, A: Arithmetic<T>>(
    p: LLamaParams<T>,
    archive: Map<Seq<char>, (Seq<usize>, Seq<u8>)>,
    tied: bool,
    n: nat,
)
    requires
        p.read_from::<A>(archive, tied, n),
    ensures
        holds::<T, A>(archive, "model.norm.weight"@, p.rms_out_w),
        holds::<T, A>(archive, "lm_head.weight"@, p.lm_head),
        tied ==> holds::<T, A>(archive, "lm_head.weight"@, p.embedding_table),
        tied ==> p.lm_head.data@ == p.embedding_table.data@,
        !tied ==> holds::<T, A>(archive, "model.embed_tokens.weight"@, p.embedding_table),
{
    lemma_holds::<T, A>(archive, "model.norm.weight"@, p.rms_out_w);
    if tied {
        lemma_holds::<T, A>(archive, "lm_head.weight"@, p.embedding_table);
        lemma_holds::<T, A>(archive, "lm_head.weight"@, p.lm_head);
    } else {
        lemma_holds::<T, A>(archive, "model.embed_tokens.weight"@, p.embedding_table);
        lemma_holds::<T, A>(archive, "lm_head.weight"@, p.lm_head);
    }
}

/// The tensors of a model are looked for in this order: the embeddings, the nine tensors of each
/// layer, the weights of the last norm and, if it has a tensor of its own, the output matrix.
pub proof fn law_reading_order(tied: bool, n: nat, l: nat)
    ensures
        ({
            let names = required_names(tied, n);
            let layer = "model.layers."@ + decimal(l);
            let k = 1 + 9 * l as int;
            &&& names.len() == if tied {
                9 * n + 2
            } else {
                9 * n + 3
            }
            &&& names[0] == if tied {
                "lm_head.weight"@
            } else {
                "model.embed_tokens.weight"@
            }
            &&& l < n ==> {
                &&& names[k] == layer + ".input_layernorm.weight"@
                &&& names[k + 1] == layer + ".self_attn.q_proj.weight"@
                &&& names[k + 2] == layer + ".self_attn.k_proj.weight"@
                &&& names[k + 3] == layer + ".self_attn.v_proj.weight"@
                &&& names[k + 4] == layer + ".self_attn.o_proj.weight"@
                &&& names[k + 5] == layer + ".post_attention_layernorm.weight"@
                &&& names[k + 6] == layer + ".mlp.up_proj.weight"@
                &&& names[k + 7] == layer + ".mlp.gate_proj.weight"@
                &&& names[k + 8] == layer + ".mlp.down_proj.weight"@
            }
            &&& names[9 * n as int + 1] == "model.norm.weight"@
            &&& !tied ==> names[9 * n as int + 2] == "lm_head.weight"@
        }),
{
    let names = required_names(tied, n);
    lemma_layers_counted(n);
    assert(names[0] == if tied {
        "lm_head.weight"@
    } else {
        "model.embed_tokens.weight"@
    });
    if l < n {
        let own = names_of_layer(l);
        assert forall|j: int| 0 <= j < 9 implies names[1 + 9 * l as int + j]
            == #[trigger] own[j] by {
            lemma_names_of_layers(n, l, j);
        }
        assert(own[0] == names[1 + 9 * l as int]);
        assert(own[1] == names[1 + 9 * l as int + 1]);
        assert(own[2] == names[1 + 9 * l as int + 2]);
        assert(own[3] == names[1 + 9 * l as int + 3]);
        assert(own[4] == names[1 + 9 * l as int + 4]);
        assert(own[5] == names[1 + 9 * l as int + 5]);
        assert(own[6] == names[1 + 9 * l as int + 6]);
        assert(own[7] == names[1 + 9 * l as int + 7]);
        assert(own[8] == names[1 + 9 * l as int + 8]);
    }
}

proof fn lemma_layers_counted(n: nat)
    ensures
        names_of_layers(n).len() == 9 * n,
{
    if n > 0 {
        lemma_names_of_layers(n, 0, 0);
    }
}

/// Loading succeeds exactly if every tensor is there with four bytes for each of its entries, of
/// which there are not more than the machine can count. If it fails, the error names the first
/// tensor of which this does not hold, and says whether it is missing.
pub proof fn law_loading_reports_the_first_bad_tensor<T, A: Arithmetic<T>>(
    archive: Map<Seq<char>, (Seq<usize>, Seq<u8>)>,
    tied: bool,
    n: nat,
    r: Result<LLamaParams<T>, LoadError>,
)
    requires
        load_outcome::<T, A>(archive, tied, n, r),
    ensures
        ({
            let names = required_names(tied, n);
            match r {
                Ok(params) => forall|i: int|
                    0 <= i < names.len() ==> archive.contains_key(#[trigger] names[i]) && countable(
                        archive[names[i]].0,
                    ) && entries(archive[names[i]].0) == archive[names[i]].1.len() / 4,
                Err(LoadError::BadArchive) => false,
                Err(LoadError::MissingTensor(name)) => exists|i: int|
                    0 <= i < names.len() && #[trigger] names[i] == name@ && !archive.contains_key(
                        name@,
                    ) && forall|k: int|
                        0 <= k < i ==> archive.contains_key(#[trigger] names[k]) && countable(
                            archive[names[k]].0,
                        ) && entries(archive[names[k]].0) == archive[names[k]].1.len() / 4,
                Err(LoadError::BadShape(name)) => exists|i: int|
                    0 <= i < names.len() && #[trigger] names[i] == name@ && archive.contains_key(
                        name@,
                    ) && !(countable(archive[name@].0) && entries(archive[name@].0)
                        == archive[name@].1.len() / 4) && forall|k: int|
                        0 <= k < i ==> archive.contains_key(#[trigger] names[k]) && countable(
                            archive[names[k]].0,
                        ) && entries(archive[names[k]].0) == archive[names[k]].1.len() / 4,
            }
        }),
{
    let names = required_names(tied, n);
    if let Err(e) = r {
        let i = choose|i: int| #[trigger]
            first_unreadable(archive, names, i) && match e {
                LoadError::BadArchive => false,
                LoadError::MissingTensor(name) => name@ == names[i] && !archive.contains_key(
                    names[i],
                ),
                LoadError::BadShape(name) => name@ == names[i] && archive.contains_key(names[i]),
            };
        assert(!readable(archive, names[i]));
        assert forall|k: int| 0 <= k < i implies archive.contains_key(#[trigger] names[k])
            && countable(archive[names[k]].0) && entries(archive[names[k]].0)
            == archive[names[k]].1.len() / 4 by {
            assert(readable(archive, names[k]));
        }
    }
}

/// A model that is loaded from an archive whose tensors have the shapes that the description of
/// the model gives is consistent: keys and values have one row for each entry of each of the
/// `num_key_value_heads` heads, queries one for each entry of each of the `num_attention_heads`
/// heads, and a head has `hidden_size / num_attention_heads` entries.
pub proof fn law_described_models_are_consistent<T, A: Arithmetic<T>>(
    model: &Llama<T>,
    config: LlamaConfigJson<T>,
    archive: Map<Seq<char>, (Seq<usize>, Seq<u8>)>,
    rows: usize,
)
    requires
        model.configured(config),
        model.params.read_from::<A>(
            archive,
            config.tie_word_embeddings,
            config.num_hidden_layers as nat,
        ),
        ({
            let head = config.hidden_size as int / config.num_attention_heads as int;
            let q_row = (config.num_attention_heads * head) as usize;
            let kv_row = (config.num_key_value_heads * head) as usize;
            let d = config.hidden_size;
            let di = config.intermediate_size;
            &&& 0 < config.num_attention_heads
            &&& 0 < config.num_key_value_heads
            &&& 0 < config.hidden_size
            &&& head <= 128
            &&& config.vocab_size <= 0x1_0000_0000
            &&& config.num_key_value_heads * head <= usize::MAX
            &&& config.max_position_embeddings * (config.num_key_value_heads * head) <= usize::MAX
            &&& archive["model.norm.weight"@].0 == seq![d]
            &&& archive["lm_head.weight"@].0 == seq![config.vocab_size, d]
            &&& !config.tie_word_embeddings ==> archive["model.embed_tokens.weight"@].0 == seq![
                rows,
                d,
            ]
            &&& forall|l: int|
                0 <= l < config.num_hidden_layers ==> {
                    let layer = "model.layers."@ + #[trigger] decimal(l as nat);
                    &&& archive[layer + ".input_layernorm.weight"@].0 == seq![d]
                    &&& archive[layer + ".self_attn.q_proj.weight"@].0 == seq![q_row, d]
                    &&& archive[layer + ".self_attn.k_proj.weight"@].0 == seq![kv_row, d]
                    &&& archive[layer + ".self_attn.v_proj.weight"@].0 == seq![kv_row, d]
                    &&& archive[layer + ".self_attn.o_proj.weight"@].0 == seq![d, d]
                    &&& archive[layer + ".post_attention_layernorm.weight"@].0 == seq![d]
                    &&& archive[layer + ".mlp.up_proj.weight"@].0 == seq![di, d]
                    &&& archive[layer + ".mlp.gate_proj.weight"@].0 == seq![di, d]
                    &&& archive[layer + ".mlp.down_proj.weight"@].0 == seq![d, di]
                }
        }),
    ensures
        model.consistent(),
{
    let tied = config.tie_word_embeddings;
    let n = config.num_hidden_layers as nat;
    let p = model.params;
    let heads = config.num_attention_heads as int;
    let d = config.hidden_size as int;
    let di = config.intermediate_size as int;
    let head = d / heads;
    let q_row = heads * head;
    let kv_row = config.num_key_value_heads * head;
    vstd::arithmetic::div_mod::lemma_fundamental_div_mod(d, heads);
    vstd::arithmetic::div_mod::lemma_mod_bound(d, heads);
    vstd::arithmetic::div_mod::lemma_div_pos_is_pos(d, heads);
    assert(0 <= q_row && 0 <= kv_row) by (nonlinear_arith)
        requires
            q_row == heads * head,
            kv_row == config.num_key_value_heads * head,
            0 <= heads,
            0 <= head,
    ;
    law_outer_weights_are_read_by_name::<T, A>(p, archive, tied, n);
    lemma_entries_1(config.hidden_size);
    lemma_entries_2(config.vocab_size, config.hidden_size);
    lemma_entries_2(rows, config.hidden_size);
    lemma_entries_2(q_row as usize, config.hidden_size);
    lemma_entries_2(kv_row as usize, config.hidden_size);
    lemma_entries_2(config.hidden_size, config.hidden_size);
    lemma_entries_2(config.intermediate_size, config.hidden_size);
    lemma_entries_2(config.hidden_size, config.intermediate_size);
    assert forall|l: int| 0 <= l < n implies {
        &&& p.rms_att_w@[l].data@.len() == d
        &&& has_shape(p.wq@[l], q_row, d)
        &&& has_shape(p.wk@[l], kv_row, d)
        &&& has_shape(p.wv@[l], kv_row, d)
        &&& has_shape(p.wo@[l], d, d)
        &&& p.rms_ffn_w@[l].data@.len() == d
        &&& has_shape(p.w_up@[l], di, d)
        &&& has_shape(p.w_gate@[l], di, d)
        &&& has_shape(p.w_down@[l], d, di)
    } by {
        law_weights_are_read_by_name::<T, A>(p, archive, tied, n, l);
        assert(decimal(l as nat) == decimal(l as nat));
    }
    if n > 0 {
        law_weights_are_read_by_name::<T, A>(p, archive, tied, n, 0);
    }
    law_consistent_models(model);
}

/// A file that consists of the length of a text in eight bytes, the least significant first, of
/// the text and of data has the text as its header.
pub proof fn law_header(length: Seq<u8>, text: Seq<u8>, data: Seq<u8>)
    requires
        length.len() == 8,
        text.len() == length[0] + 256 * (length[1] + 256 * (length[2] + 256 * (length[3] + 256 * (
        length[4] + 256 * (length[5] + 256 * (length[6] + 256 * length[7])))))),
    ensures
        header(length + text + data) == text,
{
    let file = length + text + data;
    assert(forall|i: int| 0 <= i < 8 ==> file[i] == length[i]);
    assert(declared_len(file) == text.len());
    assert(file.subrange(8, 8 + text.len() as int) =~= text);
}

/// Outside of strings, digits amount to the number that they stand for, and do not change which
/// string was read last.
pub proof fn law_digits_amount_to_their_number(before: Seq<u8>, digits: Seq<u8>)
    requires
        !place_after(before).quoted,
        place_after(before).number == 0,
        forall|i: int| 0 <= i < digits.len() ==> 0x30 <= #[trigger] digits[i] <= 0x39,
    ensures
        !place_after(before + digits).quoted,
        place_after(before + digits).word == place_after(before).word,
        place_after(before + digits).number == number_of(
            Seq::new(digits.len(), |i: int| digits[i] as char),
        ),
    decreases digits.len(),
{
    let chars = Seq::new(digits.len(), |i: int| digits[i] as char);
    if digits.len() == 0 {
        assert(before + digits =~= before);
    } else {
        let less = digits.drop_last();
        let fewer = Seq::new(less.len(), |i: int| less[i] as char);
        assert forall|i: int| 0 <= i < less.len() implies 0x30 <= #[trigger] less[i] <= 0x39 by {
            assert(less[i] == digits[i]);
        }
        law_digits_amount_to_their_number(before, less);
        assert((before + digits).drop_last() =~= before + less);
        assert((before + digits).last() == digits.last());
        assert(chars.drop_last() =~= fewer);
        let b = digits[digits.len() - 1];
        assert(0x30 <= b <= 0x39);
        assert(chars.last() == b as char);
        assert(b as char as u32 == b as u32);
    }
}

/// A string in quotes, without quotes and backslashes inside, becomes the string that was read
/// last, and what stands inside amounts to no number.
pub proof fn law_strings_are_read_whole(before: Seq<u8>, word: Seq<u8>)
    requires
        !place_after(before).quoted,
        forall|i: int|
            0 <= i < word.len() ==> #[trigger] word[i] != 0x22 && word[i] != 0x5c,
    ensures
        ({
            let open = before.push(0x22) + word;
            &&& place_after(open).quoted
            &&& place_after(open).number == 0
            &&& !place_after(open.push(0x22)).quoted
            &&& place_after(open.push(0x22)).word == word
            &&& place_after(open.push(0x22)).number == 0
        }),
{
    lemma_inside_string(before, word);
    let open = before.push(0x22) + word;
    assert(open.push(0x22).drop_last() =~= open);
}

proof fn lemma_inside_string(before: Seq<u8>, word: Seq<u8>)
    requires
        !place_after(before).quoted,
        forall|i: int|
            0 <= i < word.len() ==> #[trigger] word[i] != 0x22 && word[i] != 0x5c,
    ensures
        place_after(before.push(0x22) + word) == (Place {
            quoted: true,
            escaped: false,
            word,
            number: 0,
        }),
    decreases word.len(),
{
    let start = before.push(0x22);
    assert(start.drop_last() =~= before);
    if word.len() == 0 {
        assert(start + word =~= start);
        assert(word =~= Seq::<u8>::empty());
    } else {
        let less = word.drop_last();
        assert forall|i: int| 0 <= i < less.len() implies #[trigger] less[i] != 0x22 && less[i]
            != 0x5c by {
            assert(less[i] == word[i]);
        }
        lemma_inside_string(before, less);
        assert((start + word).drop_last() =~= start + less);
        assert((start + word).last() == word.last());
        assert(word[word.len() - 1] != 0x22);
        assert(less.push(word.last()) =~= word);
    }
}

/// A file has a huge offset exactly if its header has a number that, with the eight bytes before
/// the header and the length of the header added, exceeds a `usize`, and the string before which is
/// not "shape".
pub proof fn law_huge_offsets(file: Seq<u8>)
    ensures
        has_huge_offset(file) <==> exists|i: int|
            {
                let place = #[trigger] place_after(header(file).take(i));
                &&& 0 <= i <= header(file).len()
                &&& place.number > usize::MAX - 8 - header(file).len()
                &&& !(place.word.len() == 5 && place.word[0] == 0x73 && place.word[1] == 0x68
                    && place.word[2] == 0x61 && place.word[3] == 0x70 && place.word[4] == 0x65)
            },
{
    let text = header(file);
    assert forall|w: Seq<u8>| #[trigger]
        w.len() == 5 && w[0] == 0x73 && w[1] == 0x68 && w[2] == 0x61 && w[3] == 0x70 && w[4]
            == 0x65 implies w == dimensions_name() by {
        assert(w =~= dimensions_name());
    }
    assert forall|i: int|
        {
            let place = place_after(text.take(i));
            #[trigger] is_huge(place_after(text.take(i)), text.len() as int) == (place.number
                > usize::MAX - 8 - text.len() && !(place.word.len() == 5 && place.word[0] == 0x73
                && place.word[1] == 0x68 && place.word[2] == 0x61 && place.word[3] == 0x70
                && place.word[4] == 0x65))
        } by {
        assert(dimensions_name().len() == 5);
    }
}

} // verus!
