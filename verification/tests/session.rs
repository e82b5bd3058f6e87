use llama::arith::{Arithmetic, Widen};
use llama::manager::SessionManager;
use llama::model::Llama;
use llama::params::LLamaParams;
use llama::session::ChatSession;
use llama::tensor::Tensor;
use std::cell::RefCell;
use std::sync::Arc;

struct Single;

impl Arithmetic<f32> for Single {
    fn zero() -> f32 {
        0.0
    }

    fn one() -> f32 {
        1.0
    }

    fn plus(a: f32, b: f32) -> f32 {
        a + b
    }

    fn minus(a: f32, b: f32) -> f32 {
        a - b
    }

    fn times(a: f32, b: f32) -> f32 {
        a * b
    }

    fn over(a: f32, b: f32) -> f32 {
        a / b
    }

    fn negate(a: f32) -> f32 {
        -a
    }

    fn exp(a: f32) -> f32 {
        a.exp()
    }

    fn sqrt(a: f32) -> f32 {
        a.sqrt()
    }

    fn powf(a: f32, b: f32) -> f32 {
        a.powf(b)
    }

    fn sin_cos(a: f32) -> (f32, f32) {
        a.sin_cos()
    }

    fn larger(a: f32, b: f32) -> f32 {
        a.max(b)
    }

    fn smaller(a: f32, b: f32) -> f32 {
        a.min(b)
    }

    fn from_usize(n: usize) -> f32 {
        n as f32
    }

    fn to_bits(a: f32) -> u32 {
        a.to_bits()
    }

    fn from_bits(bits: u32) -> f32 {
        f32::from_bits(bits)
    }

    fn random() -> f32 {
        rand::random::<f32>()
    }
}

impl Widen<f32, f32> for Single {
    fn widen(u: f32) -> f32 {
        u
    }
}

fn tensor(data: Vec<f32>, shape: Vec<usize>) -> Tensor<f32> {
    Tensor::<f32>::new(data, &shape)
}

/// A model whose layer changes nothing: token 0 is followed by 1, 1 by 2 and 2 by 2.
fn chain(eos_token_id: u32) -> Llama<f32> {
    let identity = vec![1., 0., 0., 1.];
    Llama {
        vocab: 3,
        n_layers: 1,
        n_q_h: 1,
        n_kv_h: 1,
        d: 2,
        dqkv: 2,
        di: 1,
        eps: 0.,
        rope_theta: 10000.,
        max_seq_len: 8,
        params: LLamaParams {
            embedding_table: tensor(vec![1., 0., 0., 1., 1., 1.], vec![3, 2]),
            rms_att_w: vec![tensor(vec![1., 1.], vec![2])],
            wq: vec![tensor(identity.clone(), vec![2, 2])],
            wk: vec![tensor(identity.clone(), vec![2, 2])],
            wv: vec![tensor(identity, vec![2, 2])],
            wo: vec![tensor(vec![0.; 4], vec![2, 2])],
            rms_ffn_w: vec![tensor(vec![1., 1.], vec![2])],
            w_up: vec![tensor(vec![0.; 2], vec![1, 2])],
            w_gate: vec![tensor(vec![0.; 2], vec![1, 2])],
            w_down: vec![tensor(vec![0.; 2], vec![2, 1])],
            rms_out_w: tensor(vec![1., 1.], vec![2]),
            lm_head: tensor(vec![-1., -1., 1., 0., 0., 1.], vec![3, 2]),
        },
        bos_token_id: 0,
        eos_token_id,
    }
}

fn session() -> ChatSession<f32> {
    ChatSession::new(Arc::new(chain(2)))
}

#[test]
fn prompt_of_an_empty_conversation() {
    assert_eq!(session().build_prompt(), "<|im_start|>assistant\n");
}

#[test]
fn prompt_holds_the_messages_in_order() {
    let mut s = session();
    s.add_user_message("Hi".to_string());
    s.add_assistant_message("Hello!".to_string());
    assert_eq!(
        s.build_prompt(),
        "<|im_start|>user\nHi<|im_end|>\n<|im_start|>assistant\nHello!<|im_end|>\n\
         <|im_start|>assistant\n"
    );
}

#[test]
fn history_lists_role_and_content() {
    let mut s = session();
    s.add_user_message("Hi".to_string());
    s.add_assistant_message("Hello!".to_string());
    assert_eq!(s.get_history(), ["user: Hi", "assistant: Hello!"]);
}

#[test]
fn messages_can_be_copied_and_shown() {
    let mut s = session();
    s.add_user_message("Hi".to_string());
    let copy = s.conversation[0].clone();
    assert_eq!(format!("{:?}", copy), "Message { role: \"user\", content: \"Hi\" }");
}

#[test]
fn each_message_makes_a_snapshot() {
    let mut s = session();
    s.add_user_message("a".to_string());
    s.add_user_message("b".to_string());
    let lengths: Vec<usize> = s.history_versions.iter().map(|v| v.len()).collect();
    assert_eq!(lengths, [0, 1]);
}

#[test]
fn rollback_takes_a_message_back() {
    let mut s = session();
    s.add_user_message("a".to_string());
    s.add_assistant_message("b".to_string());
    let before = s.get_history();
    let versions = s.history_versions.len();
    s.add_user_message("c".to_string());
    s.rollback(versions);
    assert_eq!(s.get_history(), before);
    assert_eq!(s.history_versions.len(), versions + 1);
}

#[test]
fn rollback_twice_is_rollback_once() {
    let mut s = session();
    s.add_user_message("a".to_string());
    s.add_user_message("b".to_string());
    s.rollback(1);
    s.rollback(1);
    assert_eq!(s.get_history(), ["user: a"]);
    assert_eq!(s.history_versions.len(), 2);
    s.rollback(0);
    assert!(s.get_history().is_empty());
    assert_eq!(s.history_versions.len(), 1);
}

#[test]
fn rollback_beyond_the_snapshots_does_nothing() {
    let mut s = session();
    s.add_user_message("a".to_string());
    s.rollback(1);
    assert_eq!(s.get_history(), ["user: a"]);
    assert_eq!(s.history_versions.len(), 1);
}

#[test]
fn snapshots_are_earlier_states() {
    let mut s = session();
    s.add_user_message("a".to_string());
    s.add_user_message("b".to_string());
    s.rollback(1);
    s.add_user_message("c".to_string());
    assert_eq!(s.get_history(), ["user: a", "user: c"]);
    assert!(s.conversation.len() <= s.history_versions.len());
    for (v, version) in s.history_versions.iter().enumerate() {
        assert!(version.len() <= v);
        for (i, message) in version.iter().enumerate() {
            assert_eq!(message.content, s.conversation[i].content);
        }
    }
}

#[test]
fn chat_returns_tokens_before_the_end() {
    let mut s = session();
    let seen = RefCell::new(Vec::new());
    let reply = s.chat::<Single, _>(&[0], 5, 1., 1, 1., &|t: u32| seen.borrow_mut().push(t));
    assert_eq!(reply, Some(vec![1]));
    assert_eq!(seen.into_inner(), [1]);
    assert_eq!(s.cache.len(), 3);
}

#[test]
fn chat_goes_on_from_the_cache() {
    let mut s = session();
    s.chat::<Single, _>(&[0], 1, 1., 1, 1., &|_: u32| {});
    assert_eq!(s.cache.len(), 2);
    let reply = s.chat::<Single, _>(&[1], 1, 1., 1, 1., &|_: u32| {});
    assert_eq!(reply, Some(vec![]));
    assert_eq!(s.cache.len(), 4);
}

#[test]
fn chat_needs_room() {
    let mut s = session();
    assert_eq!(s.chat::<Single, _>(&[0; 9], 1, 1., 1, 1., &|_: u32| {}), None);
    assert_eq!(s.cache.len(), 0);
}

#[test]
fn generation_gives_prompt_reply_and_end() {
    for (eos, max_len) in [(2, 5), (2, 1), (2, 2), (9, 4), (9, 0)] {
        let model = Arc::new(chain(eos));
        let full = model.generate::<Single>(&[1, 0], max_len, 1., 1, 1.).unwrap();
        let mut s = ChatSession::new(model);
        let reply = s.chat::<Single, _>(&[1, 0], max_len, 1., 1, 1., &|_: u32| {}).unwrap();
        let mut expected = vec![1, 0];
        expected.extend_from_slice(&reply);
        if reply.len() < max_len {
            expected.push(eos);
        }
        assert_eq!(full, expected);
    }
}

#[test]
fn clear_forgets_everything() {
    let mut s = session();
    s.add_user_message("a".to_string());
    s.chat::<Single, _>(&[0], 1, 1., 1, 1., &|_: u32| {});
    s.clear();
    assert!(s.get_history().is_empty());
    assert!(s.history_versions.is_empty());
    assert_eq!(s.cache.len(), 0);
}

#[test]
fn identifiers_are_random_and_well_formed() {
    let model = Arc::new(chain(2));
    let mut manager = SessionManager::<ChatSession<f32>>::new();
    let a = manager.create_session(model.clone());
    let b = manager.create_session(model);
    assert_ne!(a, b);
    assert_eq!(a.len(), 36);
    for (i, c) in a.chars().enumerate() {
        match i {
            8 | 13 | 18 | 23 => assert_eq!(c, '-'),
            14 => assert_eq!(c, '4'),
            19 => assert!("89ab".contains(c)),
            _ => assert!(c.is_ascii_digit() || ('a'..='f').contains(&c)),
        }
    }
}

#[test]
fn created_session_is_found() {
    let mut manager = SessionManager::<ChatSession<f32>>::new();
    let id = manager.create_session(Arc::new(chain(2)));
    assert!(manager.get_session(&id).unwrap().get_history().is_empty());
    assert!(manager.get_session("nobody").is_none());
}

#[test]
fn updated_session_is_found_and_others_stay() {
    let mut manager = SessionManager::<u32>::new();
    manager.update_session("a", 1);
    manager.update_session("b", 2);
    manager.update_session("a", 3);
    assert_eq!(manager.get_session("a"), Some(&3));
    assert_eq!(manager.get_session("b"), Some(&2));
    let id = manager.register(4);
    assert_eq!(manager.get_session(&id), Some(&4));
    let mut ids = manager.session_ids();
    ids.sort();
    let mut expected = vec!["a".to_string(), "b".to_string(), id];
    expected.sort();
    assert_eq!(ids, expected);
}

#[test]
fn sessions_are_rolled_back_by_identifier() {
    let model = Arc::new(chain(2));
    let mut manager = SessionManager::<ChatSession<f32>>::new();
    for name in ["a", "b"] {
        let mut s = ChatSession::new(model.clone());
        s.add_user_message(name.to_string());
        manager.update_session(name, s);
    }
    assert_eq!(manager.rollback_session("a", 0), Some(()));
    assert_eq!(manager.rollback_session("c", 0), None);
    assert!(manager.get_session("a").unwrap().get_history().is_empty());
    assert_eq!(manager.get_session("b").unwrap().get_history(), ["user: b"]);
}
