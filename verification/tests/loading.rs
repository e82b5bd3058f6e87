use llama::archive::find_huge_offset;
use llama::arith::Arithmetic;
use llama::config::LlamaConfigJson;
use llama::model::Llama;
use llama::params::{
    decode, layer_tensor_name, list_names, LLamaParams, LayerTensor, LoadError,
};
use llama::text::numeral;
use safetensors::SafeTensors;

struct Single;

impl Arithmetic<f32> for Single {
    fn zero() -> f32 {
        0.0
    }

    fn one() -> f32 {
        1.0
    }

    fn plus(a: f32, b: f32) -> f32 {
        a + b
    }

    fn minus(a: f32, b: f32) -> f32 {
        a - b
    }

    fn times(a: f32, b: f32) -> f32 {
        a * b
    }

    fn over(a: f32, b: f32) -> f32 {
        a / b
    }

    fn negate(a: f32) -> f32 {
        -a
    }

    fn exp(a: f32) -> f32 {
        a.exp()
    }

    fn sqrt(a: f32) -> f32 {
        a.sqrt()
    }

    fn powf(a: f32, b: f32) -> f32 {
        a.powf(b)
    }

    fn sin_cos(a: f32) -> (f32, f32) {
        a.sin_cos()
    }

    fn larger(a: f32, b: f32) -> f32 {
        a.max(b)
    }

    fn smaller(a: f32, b: f32) -> f32 {
        a.min(b)
    }

    fn from_usize(n: usize) -> f32 {
        n as f32
    }

    fn to_bits(a: f32) -> u32 {
        a.to_bits()
    }

    fn from_bits(bits: u32) -> f32 {
        f32::from_bits(bits)
    }

    fn random() -> f32 {
        rand::random::<f32>()
    }
}

fn config(tied: bool) -> LlamaConfigJson<f32> {
    LlamaConfigJson {
        bos_token_id: 1,
        eos_token_id: 2,
        hidden_size: 5,
        intermediate_size: 3,
        max_position_embeddings: 16,
        num_attention_heads: 2,
        num_hidden_layers: 2,
        num_key_value_heads: 1,
        vocab_size: 7,
        rms_norm_eps: 1e-6,
        rope_theta: 10000.,
        tie_word_embeddings: tied,
    }
}

/// A file with a tensor of shape (1, 2) for each name; it holds the number of the name and half
/// of it.
fn file(names: &[String]) -> Vec<u8> {
    let mut header = String::from("{");
    let mut data = Vec::new();
    for (i, name) in names.iter().enumerate() {
        if i > 0 {
            header.push(',');
        }
        header.push_str(&format!(
            "\"{}\":{{\"dtype\":\"F32\",\"shape\":[1,2],\"data_offsets\":[{},{}]}}",
            name,
            8 * i,
            8 * i + 8
        ));
        data.extend_from_slice(&(i as f32).to_le_bytes());
        data.extend_from_slice(&(i as f32 / 2.).to_le_bytes());
    }
    header.push('}');
    let mut bytes = (header.len() as u64).to_le_bytes().to_vec();
    bytes.extend_from_slice(header.as_bytes());
    bytes.extend_from_slice(&data);
    bytes
}

fn float_eq(x: &f32, y: &f32, rel: f32) -> bool {
    (x - y).abs() <= rel * (x.abs() + y.abs()) / 2.0
}

/// A file with the given tensors: name, dimensions, and the entries that are not 0.
fn weights(tensors: &[(&str, Vec<usize>, Vec<(usize, f32)>)]) -> Vec<u8> {
    let mut header = String::from("{");
    let mut data = Vec::new();
    for (i, (name, shape, set)) in tensors.iter().enumerate() {
        let mut values = vec![0f32; shape.iter().product()];
        for (at, value) in set {
            values[*at] = *value;
        }
        let start = data.len();
        for value in values {
            data.extend_from_slice(&value.to_le_bytes());
        }
        if i > 0 {
            header.push(',');
        }
        header.push_str(&format!(
            "\"{}\":{{\"dtype\":\"F32\",\"shape\":{:?},\"data_offsets\":[{},{}]}}",
            name,
            shape,
            start,
            data.len()
        ));
    }
    header.push('}');
    let mut bytes = (header.len() as u64).to_le_bytes().to_vec();
    bytes.extend_from_slice(header.as_bytes());
    bytes.extend_from_slice(&data);
    bytes
}

/// A model for stories, with the weights at a few places only.
fn story() -> Vec<u8> {
    let (vocab, d, kv, di) = (2048, 128, 64, 384);
    weights(&[
        ("lm_head.weight", vec![vocab, d], vec![(10, -0.0703125), (50, 0.14453125)]),
        ("model.layers.0.input_layernorm.weight", vec![d], vec![(10, 0.18652344)]),
        ("model.layers.0.self_attn.q_proj.weight", vec![d, d], vec![]),
        ("model.layers.0.self_attn.k_proj.weight", vec![kv, d], vec![]),
        ("model.layers.0.self_attn.v_proj.weight", vec![kv, d], vec![(100, 0.041015625)]),
        ("model.layers.0.self_attn.o_proj.weight", vec![d, d], vec![(100, 0.01965332)]),
        ("model.layers.0.post_attention_layernorm.weight", vec![d], vec![]),
        ("model.layers.0.mlp.up_proj.weight", vec![di, d], vec![(100, 1.46875)]),
        ("model.layers.0.mlp.gate_proj.weight", vec![di, d], vec![]),
        ("model.layers.0.mlp.down_proj.weight", vec![d, di], vec![(100, -0.0625)]),
        ("model.layers.1.input_layernorm.weight", vec![d], vec![]),
        ("model.layers.1.self_attn.q_proj.weight", vec![d, d], vec![(100, 0.032226563)]),
        ("model.layers.1.self_attn.k_proj.weight", vec![kv, d], vec![(100, -0.21386719)]),
        ("model.layers.1.self_attn.v_proj.weight", vec![kv, d], vec![]),
        ("model.layers.1.self_attn.o_proj.weight", vec![d, d], vec![]),
        ("model.layers.1.post_attention_layernorm.weight", vec![d], vec![(10, 0.32421875)]),
        ("model.layers.1.mlp.up_proj.weight", vec![di, d], vec![]),
        ("model.layers.1.mlp.gate_proj.weight", vec![di, d], vec![(100, 0.296875)]),
        ("model.layers.1.mlp.down_proj.weight", vec![d, di], vec![]),
        ("model.norm.weight", vec![d], vec![(100, 0.73046875)]),
    ])
}

#[test]
fn test_load_safetensors() {
    let config = LlamaConfigJson {
        bos_token_id: 1,
        eos_token_id: 2,
        hidden_size: 128,
        intermediate_size: 384,
        max_position_embeddings: 512,
        num_attention_heads: 8,
        num_hidden_layers: 2,
        num_key_value_heads: 4,
        vocab_size: 2048,
        rms_norm_eps: 1e-6,
        rope_theta: 10000.,
        tie_word_embeddings: true,
    };
    let model = Llama::from_safetensors::<Single>(&story(), &config).unwrap();
    assert_eq!(model.vocab, 2048);
    assert_eq!(model.n_layers, 2);
    assert_eq!(model.n_q_h, 8);
    assert_eq!(model.n_kv_h, 4);
    assert_eq!(model.d, 128);
    assert_eq!(model.dqkv, 16);
    assert_eq!(model.di, 384);

    assert!(float_eq(&model.params.embedding_table.data()[50], &0.14453125, 1e-6));
    assert_eq!(model.params.lm_head.data()[10], model.params.embedding_table.data()[10]);
    assert!(float_eq(&model.params.rms_att_w[0].data()[10], &0.18652344, 1e-6));
    assert!(float_eq(&model.params.rms_ffn_w[1].data()[10], &0.32421875, 1e-6));
    assert!(float_eq(&model.params.rms_out_w.data()[100], &0.73046875, 1e-6));
    assert!(float_eq(&model.params.w_down[0].data()[100], &-0.0625, 1e-6));
    assert!(float_eq(&model.params.w_up[0].data()[100], &1.46875, 1e-6));
    assert!(float_eq(&model.params.w_gate[1].data()[100], &0.296875, 1e-6));
    assert!(float_eq(&model.params.wq[1].data()[100], &0.032226563, 1e-6));
    assert!(float_eq(&model.params.wk[1].data()[100], &-0.21386719, 1e-6));
    assert!(float_eq(&model.params.wv[0].data()[100], &0.041015625, 1e-6));
    assert!(float_eq(&model.params.wo[0].data()[100], &0.01965332, 1e-6));

    assert!(model.is_consistent());
}

#[test]
fn numerals_are_decimal() {
    assert_eq!(numeral(0), "0");
    assert_eq!(numeral(7), "7");
    assert_eq!(numeral(10), "10");
    assert_eq!(numeral(90210), "90210");
}

#[test]
fn layer_tensors_have_their_names() {
    let names = [
        (LayerTensor::AttNorm, "model.layers.12.input_layernorm.weight"),
        (LayerTensor::Query, "model.layers.12.self_attn.q_proj.weight"),
        (LayerTensor::Key, "model.layers.12.self_attn.k_proj.weight"),
        (LayerTensor::Value, "model.layers.12.self_attn.v_proj.weight"),
        (LayerTensor::Output, "model.layers.12.self_attn.o_proj.weight"),
        (LayerTensor::FfnNorm, "model.layers.12.post_attention_layernorm.weight"),
        (LayerTensor::Up, "model.layers.12.mlp.up_proj.weight"),
        (LayerTensor::Gate, "model.layers.12.mlp.gate_proj.weight"),
        (LayerTensor::Down, "model.layers.12.mlp.down_proj.weight"),
    ];
    for (which, name) in names {
        assert_eq!(layer_tensor_name(12, which), name);
    }
}

#[test]
fn decoding_is_little_endian_and_drops_a_rest() {
    let data: Vec<f32> = decode::<f32, Single>(&[0, 0, 0x80, 0x3f, 0, 0, 0x20, 0xc1, 1, 2, 3]);
    assert_eq!(data, [1., -10.]);
}

#[test]
fn separate_embeddings_are_read() {
    let names = list_names(false, 2);
    assert_eq!(names.len(), 21);
    assert_eq!(names[0], "model.embed_tokens.weight");
    assert_eq!(names[19], "model.norm.weight");
    assert_eq!(names[20], "lm_head.weight");
    let model = Llama::from_safetensors::<Single>(&file(&names), &config(false)).unwrap();
    assert_eq!(model.params.embedding_table.data(), [0., 0.]);
    assert_eq!(model.params.embedding_table.shape(), &vec![1, 2]);
    assert_eq!(model.params.rms_att_w[0].data(), [1., 0.5]);
    assert_eq!(model.params.wq[0].data(), [2., 1.]);
    assert_eq!(model.params.wk[0].data(), [3., 1.5]);
    assert_eq!(model.params.wv[0].data(), [4., 2.]);
    assert_eq!(model.params.wo[0].data(), [5., 2.5]);
    assert_eq!(model.params.rms_ffn_w[0].data(), [6., 3.]);
    assert_eq!(model.params.w_up[0].data(), [7., 3.5]);
    assert_eq!(model.params.w_gate[0].data(), [8., 4.]);
    assert_eq!(model.params.w_down[0].data(), [9., 4.5]);
    assert_eq!(model.params.w_down[1].data(), [18., 9.]);
    assert_eq!(model.params.rms_out_w.data(), [19., 9.5]);
    assert_eq!(model.params.lm_head.data(), [20., 10.]);
}

#[test]
fn tied_embeddings_are_shared() {
    let names = list_names(true, 2);
    assert_eq!(names.len(), 20);
    assert_eq!(names[0], "lm_head.weight");
    let bytes = file(&names);
    let archive = SafeTensors::deserialize(&bytes).unwrap();
    let params = LLamaParams::load::<Single>(&archive, &config(true)).unwrap();
    assert_eq!(params.lm_head.data(), params.embedding_table.data());
    assert_eq!(params.lm_head.shape(), params.embedding_table.shape());
    let params = LLamaParams::from_safetensors::<Single>(&archive, &config(true));
    assert_eq!(params.rms_out_w.data(), [19., 9.5]);
}

#[test]
fn sizes_come_from_the_configuration() {
    let names = list_names(true, 2);
    let model = Llama::from_safetensors::<Single>(&file(&names), &config(true)).unwrap();
    assert_eq!(model.vocab, 7);
    assert_eq!(model.n_layers, 2);
    assert_eq!(model.n_q_h, 2);
    assert_eq!(model.n_kv_h, 1);
    assert_eq!(model.d, 5);
    assert_eq!(model.dqkv, 2);
    assert_eq!(model.di, 3);
    assert_eq!(model.eps, 1e-6);
    assert_eq!(model.rope_theta, 10000.);
    assert_eq!(model.max_seq_len, 16);
    assert_eq!(model.bos_token_id, 1);
    assert_eq!(model.eos_token_id, 2);
}

#[test]
fn files_that_are_no_archives_are_refused() {
    let r = Llama::from_safetensors::<Single>(&[1, 2, 3], &config(true));
    assert!(matches!(r, Err(LoadError::BadArchive)));
}

#[test]
fn the_first_missing_tensor_is_named() {
    let mut names = list_names(true, 2);
    names.remove(12);
    names.remove(3);
    match Llama::from_safetensors::<Single>(&file(&names), &config(true)) {
        Err(LoadError::MissingTensor(name)) => {
            assert_eq!(name, "model.layers.0.self_attn.k_proj.weight")
        }
        _ => panic!("the tensor is missing"),
    }
}

#[test]
fn a_tensor_of_another_width_is_named() {
    let header = "{\"lm_head.weight\":{\"dtype\":\"F16\",\"shape\":[2],\"data_offsets\":[0,4]}}";
    let mut bytes = (header.len() as u64).to_le_bytes().to_vec();
    bytes.extend_from_slice(header.as_bytes());
    bytes.extend_from_slice(&[0; 4]);
    match Llama::from_safetensors::<Single>(&bytes, &config(true)) {
        Err(LoadError::BadShape(name)) => assert_eq!(name, "lm_head.weight"),
        _ => panic!("the tensor has another width"),
    }
}

fn with_header(header: &str) -> Vec<u8> {
    let mut bytes = (header.len() as u64).to_le_bytes().to_vec();
    bytes.extend_from_slice(header.as_bytes());
    bytes
}

#[test]
fn huge_offsets_are_found_in_the_header() {
    assert!(find_huge_offset(&with_header("{\"a\":[0,99999999999999999999]}")));
    assert!(find_huge_offset(&with_header(&format!("[{}]", usize::MAX))));
    assert!(find_huge_offset(&with_header(&format!("[{:21}]", usize::MAX - 30))));
    assert!(!find_huge_offset(&with_header(&format!("[{:21}]", usize::MAX - 31))));
    assert!(!find_huge_offset(&with_header(&format!("[1,{},2]", usize::MAX / 2))));
    assert!(!find_huge_offset(&with_header("{\"a\":[1234567890,1234567890,1234567890]}")));
}

#[test]
fn digits_in_strings_and_data_are_no_numbers() {
    assert!(!find_huge_offset(&with_header("{\"99999999999999999999\":1}")));
    assert!(!find_huge_offset(&with_header("{\"\\\"99999999999999999999\":1}")));
    assert!(find_huge_offset(&with_header("{\"\\\\\":99999999999999999999}")));
    let mut bytes = with_header("{}");
    bytes.extend_from_slice(b"99999999999999999999");
    assert!(!find_huge_offset(&bytes));
    assert!(!find_huge_offset(&[1, 2, 3]));
    assert!(find_huge_offset(b"\xff\xff\xff\xff\xff\xff\xff\xff99999999999999999999"));
}

#[test]
fn dimensions_may_be_huge() {
    let huge = "\"shape\":[18446744073709551615,0],\"data_offsets\":[0,0]";
    let header = format!("{{\"lm_head.weight\":{{\"dtype\":\"F32\",{}}}}}", huge);
    let bytes = with_header(&header);
    assert!(!find_huge_offset(&bytes));
    assert!(SafeTensors::deserialize(&bytes).is_ok());
    let longer = "\"shape\":[99999999999999999999999999999999999999999]";
    assert!(!find_huge_offset(&with_header(longer)));
    assert!(find_huge_offset(&with_header("\"shapes\":[99999999999999999999]")));
    assert!(find_huge_offset(&with_header("\"shape\":[1],\"x\":99999999999999999999")));
    assert!(find_huge_offset(&with_header("\"\\u0073hape\":[99999999999999999999]")));
}

#[test]
fn readable_files_have_no_huge_offsets() {
    assert!(!find_huge_offset(&file(&list_names(true, 2))));
}
