//! What the operations on a conversation do to its messages, and what a reply is made of.

use crate::arith::{Arithmetic, Widen};
use crate::kvcache::KVCache;
use crate::laws::law_continuation;
use crate::model::{Llama, Sampling};
use crate::model_laws::law_continuation_steps;
use crate::session::{
    prompt_for, rendered, rendered_all, transcript, without_end, ChatSession, Message, Said,
};
use std::sync::Arc;
use vstd::prelude::*;

verus! {

/// What is said in a conversation is the role and the content of each message, in their order.
pub proof fn law_said_is_role_and_content<T>(s: ChatSession<T>, i: int, v: int, j: int)
    ensures
        s.said().len() == s.conversation@.len(),
        0 <= i < s.conversation@.len() ==> s.said()[i].0 == s.conversation@[i].role@
            && s.said()[i].1 == s.conversation@[i].content@,
        s.versions().len() == s.history_versions@.len(),
        0 <= v < s.history_versions@.len() ==> s.versions()[v].len()
            == s.history_versions@[v]@.len(),
        0 <= v < s.history_versions@.len() && 0 <= j < s.history_versions@[v]@.len() ==> {
            &&& s.versions()[v][j].0 == s.history_versions@[v]@[j].role@
            &&& s.versions()[v][j].1 == s.history_versions@[v]@[j].content@
        },
{
}

/// The messages say the same.
pub open spec fn say_the_same(a: Seq<Message>, b: Seq<Message>) -> bool {
    &&& a.len() == b.len()
    &&& forall|i: int|
        0 <= i < a.len() ==> (#[trigger] a[i]).role@ == b[i].role@ && a[i].content@ == b[i].content@
}

/// Messages that say the same agree in number, and one by one in role and content.
pub proof fn law_messages_that_say_the_same(a: Seq<Message>, b: Seq<Message>, i: int)
    requires
        say_the_same(a, b),
        0 <= i < a.len(),
    ensures
        a.len() == b.len(),
        a[i].role@ == b[i].role@,
        a[i].content@ == b[i].content@,
{
}

proof fn lemma_transcripts(a: Seq<Message>, b: Seq<Message>)
    requires
        transcript(a) == transcript(b),
    ensures
        say_the_same(a, b),
{
    assert(a.len() == transcript(a).len() && b.len() == transcript(b).len());
    assert forall|i: int| 0 <= i < a.len() implies (#[trigger] a[i]).role@ == b[i].role@
        && a[i].content@ == b[i].content@ by {
        assert(transcript(a)[i] == transcript(b)[i]);
    }
}

/// Adding a message puts it behind the others, which stay as they are, and puts a snapshot of the
/// conversation before it behind the other snapshots, which stay as they are too. The model keeps
/// what it has taken in.
pub proof fn law_adding_a_message<T>(
    before: ChatSession<T>,
    message: Said,
    after: ChatSession<T>,
    v: int,
)
    requires
        after.extended_by(before, message),
    ensures
        after.model == before.model,
        after.cache == before.cache,
        after.conversation@.len() == before.conversation@.len() + 1,
        after.conversation@.last().role@ == message.0,
        after.conversation@.last().content@ == message.1,
        say_the_same(after.conversation@.drop_last(), before.conversation@),
        after.history_versions@.len() == before.history_versions@.len() + 1,
        say_the_same(after.history_versions@.last()@, before.conversation@),
        0 <= v < before.history_versions@.len() ==> say_the_same(
            after.history_versions@[v]@,
            before.history_versions@[v]@,
        ),
{
    let n = before.conversation@.len() as int;
    let k = before.history_versions@.len() as int;
    assert(after.said().len() == after.conversation@.len());
    assert(after.versions().len() == after.history_versions@.len());
    assert(after.said()[n] == message);
    assert(transcript(after.conversation@.drop_last()) =~= after.said().drop_last());
    assert(after.said().drop_last() =~= before.said());
    lemma_transcripts(after.conversation@.drop_last(), before.conversation@);
    assert(after.versions()[k] == before.said());
    lemma_transcripts(after.history_versions@[k]@, before.conversation@);
    if 0 <= v < k {
        assert(after.versions()[v] == before.versions()[v]);
        lemma_transcripts(after.history_versions@[v]@, before.history_versions@[v]@);
    }
}

/// Rolling back makes the conversation say what the snapshot says, and keeps the snapshots up to
/// and including this one. Without such a snapshot it changes nothing.
pub proof fn law_rolling_back<T>(
    before: ChatSession<T>,
    version: int,
    after: ChatSession<T>,
    v: int,
)
    requires
        0 <= version,
        after.rolled_back(before, version),
    ensures
        after.model == before.model,
        after.cache == before.cache,
        version >= before.history_versions@.len() ==> after == before,
        version < before.history_versions@.len() ==> {
            &&& say_the_same(after.conversation@, before.history_versions@[version]@)
            &&& after.history_versions@.len() == version + 1
            &&& 0 <= v <= version ==> say_the_same(
                after.history_versions@[v]@,
                before.history_versions@[v]@,
            )
        },
{
    assert(before.versions().len() == before.history_versions@.len());
    if version < before.history_versions@.len() {
        assert(after.versions().len() == after.history_versions@.len());
        lemma_transcripts(after.conversation@, before.history_versions@[version]@);
        if 0 <= v <= version {
            assert(after.versions()[v] == before.versions()[v]);
            lemma_transcripts(after.history_versions@[v]@, before.history_versions@[v]@);
        }
    }
}

/// A new session has no messages, no snapshots and an empty cache.
pub proof fn law_new_session<T: Default>(s: ChatSession<T>, model: Arc<Llama<T>>)
    requires
        s.is_fresh(model),
    ensures
        s.model == model,
        s.conversation@.len() == 0,
        s.history_versions@.len() == 0,
        s.cache.length == 0,
        model.is_empty_cache(s.cache),
{
    assert(s.conversation@.len() == s.said().len());
    assert(s.history_versions@.len() == s.versions().len());
}

/// The prompt of an empty conversation is the opening of a reply. A message stands in the prompt
/// behind the earlier ones, between tags, the role on a line of its own, and the opening of the
/// reply follows.
pub proof fn law_prompt_text(said: Seq<Said>, message: Said)
    ensures
        prompt_for(Seq::<Said>::empty()) == "<|im_start|>assistant\n"@,
        exists|earlier: Seq<char>| #[trigger]
            (earlier + "<|im_start|>assistant\n"@) == prompt_for(said) && prompt_for(
                said.push(message),
            ) == earlier + "<|im_start|>"@ + message.0 + "\n"@ + message.1 + "<|im_end|>\n"@
                + "<|im_start|>assistant\n"@,
{
    assert(prompt_for(Seq::<Said>::empty()) =~= "<|im_start|>assistant\n"@);
    let earlier = rendered_all(said);
    assert(said.push(message).drop_last() =~= said);
    assert(rendered_all(said.push(message)) == earlier + rendered(message));
    assert(earlier + "<|im_start|>assistant\n"@ == prompt_for(said));
    assert(prompt_for(said.push(message)) =~= earlier + "<|im_start|>"@ + message.0 + "\n"@
        + message.1 + "<|im_end|>\n"@ + "<|im_start|>assistant\n"@);
}

/// A reply comes from taking in the prompt after what the cache holds, and continuing it. It is
/// the continuation without the end token, and shorter than allowed only where that was chosen.
/// The cache then holds the prompt and as many positions as tokens were chosen.
pub proof fn law_reply_steps<T: Default, A: Arithmetic<T> + Widen<T, T>>(
    model: Llama<T>,
    prompt: Seq<u32>,
    c0: KVCache<T>,
    max_len: int,
    how: Sampling<T>,
    reply: Seq<u32>,
    c1: KVCache<T>,
)
    requires
        ChatSession::<T>::replied::<A>(model, prompt, c0, max_len, how, Some(reply), c1),
    ensures
        model.accepts(prompt, c0),
        reply.len() <= max_len,
        forall|i: int| 0 <= i < reply.len() ==> #[trigger] reply[i] != model.eos_token_id,
        exists|picks: Seq<u32>, c: KVCache<T>, logits: Seq<T>|
            {
                &&& #[trigger] model.passed::<A>(prompt, c0, c, logits)
                &&& #[trigger] model.continued::<A>(
                    prompt.last(),
                    c,
                    max_len,
                    how,
                    picks,
                    true,
                    c1,
                )
                &&& picks == reply || picks == reply.push(model.eos_token_id)
                &&& reply.len() < max_len ==> picks == reply.push(model.eos_token_id)
                &&& c1.length == c0.length + prompt.len() + picks.len()
            },
{
    let (logits, c, picks, done) = choose|
        logits: Seq<T>,
        c: KVCache<T>,
        picks: Seq<u32>,
        done: bool,
    | #[trigger]
        model.passed::<A>(prompt, c0, c, logits) && #[trigger] model.continued::<A>(
            prompt.last(),
            c,
            max_len,
            how,
            picks,
            done,
            c1,
        ) && done && reply == without_end(picks, model.eos_token_id);
    law_continuation_steps::<T, A>(&model, prompt.last(), c, max_len, how, picks, c1);
    law_continuation::<T, A>(&model, prompt.last(), c, max_len, how, picks, done, c1);
    if picks.len() > 0 && picks.last() == model.eos_token_id {
        assert(picks =~= reply.push(model.eos_token_id));
    }
}

/// There is no reply only if the prompt cannot be taken in, which leaves the cache as it is, or if
/// its continuation breaks off.
pub proof fn law_no_reply<T: Default, A: Arithmetic<T> + Widen<T, T>>(
    model: Llama<T>,
    prompt: Seq<u32>,
    c0: KVCache<T>,
    max_len: int,
    how: Sampling<T>,
    c1: KVCache<T>,
)
    requires
        ChatSession::<T>::replied::<A>(model, prompt, c0, max_len, how, None, c1),
    ensures
        if model.accepts(prompt, c0) {
            exists|picks: Seq<u32>, c: KVCache<T>, logits: Seq<T>| #[trigger]
                model.passed::<A>(prompt, c0, c, logits) && #[trigger] model.continued::<A>(
                    prompt.last(),
                    c,
                    max_len,
                    how,
                    picks,
                    false,
                    c1,
                )
        } else {
            c1 == c0
        },
{
}

/// A generated text comes from taking in the text that it starts from with an empty cache, and
/// continuing it; the tokens of the continuation follow the text.
pub proof fn law_generation_steps<T: Default, A: Arithmetic<T> + Widen<T, T>>(
    model: Llama<T>,
    token_ids: Seq<u32>,
    text: Seq<u32>,
    c0: KVCache<T>,
    max_len: int,
    how: Sampling<T>,
    r: Option<Seq<u32>>,
)
    requires
        model.generated::<A>(token_ids, c0, max_len, how, r),
        token_ids.len() > 0 ==> text == token_ids,
        token_ids.len() == 0 ==> text == seq![model.bos_token_id],
    ensures
        if model.accepts(text, c0) {
            exists|picks: Seq<u32>, c: KVCache<T>, logits: Seq<T>, c1: KVCache<T>|
                {
                    &&& #[trigger] model.passed::<A>(text, c0, c, logits)
                    &&& #[trigger] model.continued::<A>(
                        text.last(),
                        c,
                        max_len,
                        how,
                        picks,
                        r is Some,
                        c1,
                    )
                    &&& r is Some ==> r == Some(text + picks)
                }
        } else {
            r is None
        },
{
    assert(model.start_text(token_ids) == text);
}

} // verus!
