//! Conversations with a model, and the sessions that hold them.

use crate::arith::{Arithmetic, Widen};
use crate::kvcache::KVCache;
use crate::model::{contents, Llama, Sampling};
use crate::tensor::{lemma_entries_1, Tensor};
use std::sync::Arc;
use vstd::prelude::*;

verus! {

/// A message of a conversation.
#[derive(Debug)]
pub struct Message {
    /// "user" or "assistant"
    pub role: String,
    pub content: String,
}

/// The role and the content of a message.
pub type Said = (Seq<char>, Seq<char>);

impl View for Message {
    type V = Said;

    open spec fn view(&self) -> Said {
        (self.role@, self.content@)
    }
}

impl Clone for Message {
    fn clone(&self) -> (r: Message)
        ensures
            r == *self,
    {
        Message { role: self.role.clone(), content: self.content.clone() }
    }
}

/// What is said in the messages.
pub open spec fn transcript(messages: Seq<Message>) -> Seq<Said> {
    messages.map_values(|m: Message| m@)
}

/// What is said in the snapshots of a conversation.
pub open spec fn transcripts(versions: Seq<Vec<Message>>) -> Seq<Seq<Said>> {
    versions.map_values(|v: Vec<Message>| transcript(v@))
}

/// A message as the model reads it.
pub open spec fn rendered(m: Said) -> Seq<char> {
    "<|im_start|>"@ + m.0 + "\n"@ + m.1 + "<|im_end|>\n"@
}

/// The messages as the model reads them, one after the other.
pub open spec fn rendered_all(said: Seq<Said>) -> Seq<char>
    decreases said.len(),
{
    if said.len() == 0 {
        Seq::empty()
    } else {
        rendered_all(said.drop_last()) + rendered(said.last())
    }
}

/// The conversation as the model reads it, up to where its reply begins.
pub open spec fn prompt_for(said: Seq<Said>) -> Seq<char> {
    rendered_all(said) + "<|im_start|>assistant\n"@
}

/// `picks` without the end token, if that comes last.
pub open spec fn without_end(picks: Seq<u32>, end: u32) -> Seq<u32> {
    if picks.len() > 0 && picks.last() == end {
        picks.drop_last()
    } else {
        picks
    }
}

/// A conversation with its history, and what the model has taken in of it.
pub struct ChatSession<T> {
    pub model: Arc<Llama<T>>,
    pub conversation: Vec<Message>,
    pub cache: KVCache<T>,
    /// Snapshots of the conversation, to which it can be rolled back.
    pub history_versions: Vec<Vec<Message>>,
}

impl<T> ChatSession<T> {
    /// The cache belongs to the model.
    pub open spec fn wf(&self) -> bool {
        self.model.owns(self.cache)
    }

    /// What is said in the conversation.
    pub open spec fn said(&self) -> Seq<Said> {
        transcript(self.conversation@)
    }

    /// What is said in the snapshots.
    pub open spec fn versions(&self) -> Seq<Seq<Said>> {
        transcripts(self.history_versions@)
    }

    /// A message is added, and the conversation before it becomes a snapshot.
    pub open spec fn extended_by(&self, before: ChatSession<T>, m: Said) -> bool {
        &&& self.model == before.model
        &&& self.cache == before.cache
        &&& self.said() == before.said().push(m)
        &&& self.versions() == before.versions().push(before.said())
    }

    /// The conversation is back at snapshot `version`, and later snapshots are gone. Without such
    /// a snapshot nothing changes.
    pub open spec fn rolled_back(&self, before: ChatSession<T>, version: int) -> bool {
        &&& self.model == before.model
        &&& self.cache == before.cache
        &&& if version < before.versions().len() {
            &&& self.said() == before.versions()[version]
            &&& self.versions() == before.versions().take(version + 1)
        } else {
            *self == before
        }
    }

    /// The session has just been opened for `model`.
    pub open spec fn is_fresh(&self, model: Arc<Llama<T>>) -> bool where T: Default {
        &&& self.model == model
        &&& self.said() == Seq::<Said>::empty()
        &&& self.versions() == Seq::<Seq<Said>>::empty()
        &&& model.is_empty_cache(self.cache)
    }

    /// `r` can be the reply of `model` to `prompt`, `c0` and `c1` being the caches before and
    /// after: the continuation of the prompt without the end token, or nothing if a token cannot
    /// be taken in or chosen.
    pub open spec fn replied<A: Arithmetic<T> + Widen<T, T>>(
        model: Llama<T>,
        prompt: Seq<u32>,
        c0: KVCache<T>,
        max_len: int,
        how: Sampling<T>,
        r: Option<Seq<u32>>,
        c1: KVCache<T>,
    ) -> bool where T: Default {
        if model.accepts(prompt, c0) {
            exists|logits: Seq<T>, c: KVCache<T>, picks: Seq<u32>, done: bool|
                #[trigger] model.passed::<A>(prompt, c0, c, logits) && #[trigger] model.continued::<
                    A,
                >(prompt.last(), c, max_len, how, picks, done, c1) && match r {
                    Some(reply) => done && reply == without_end(picks, model.eos_token_id),
                    None => !done,
                }
        } else {
            r is None && c1 == c0
        }
    }

    /// Keeps a snapshot of the conversation.
    fn save_current_version(&mut self)
        ensures
            final(self).model == old(self).model,
            final(self).cache == old(self).cache,
            final(self).conversation == old(self).conversation,
            final(self).versions() == old(self).versions().push(old(self).said()),
    {
        let snapshot = self.conversation.clone();
        assert(snapshot@ =~= self.conversation@);
        self.history_versions.push(snapshot);
        assert(self.versions() =~= old(self).versions().push(old(self).said()));
    }

    /// Adds a message of the user, and keeps a snapshot of the conversation before it.
    pub fn add_user_message(&mut self, content: String)
        ensures
            final(self).extended_by(*old(self), ("user"@, content@)),
    {
        self.save_current_version();
        self.conversation.push(Message { role: "user".to_string(), content });
        assert(self.said() =~= old(self).said().push(("user"@, content@)));
    }

    /// Adds a reply of the model, and keeps a snapshot of the conversation before it.
    pub fn add_assistant_message(&mut self, content: String)
        ensures
            final(self).extended_by(*old(self), ("assistant"@, content@)),
    {
        self.save_current_version();
        self.conversation.push(Message { role: "assistant".to_string(), content });
        assert(self.said() =~= old(self).said().push(("assistant"@, content@)));
    }

    /// The conversation as the model reads it, up to where its reply begins.
    pub fn build_prompt(&self) -> (prompt: String)
        ensures
            prompt@ == prompt_for(self.said()),
    {
        let mut prompt = String::new();
        let ghost said = self.said();
        assert(rendered_all(said.take(0)) == Seq::<char>::empty());
        for i in 0..self.conversation.len()
            invariant
                said == self.said(),
                prompt@ == rendered_all(said.take(i as int)),
        {
            let message = &self.conversation[i];
            prompt.append("<|im_start|>");
            prompt.append(message.role.as_str());
            prompt.append("\n");
            prompt.append(message.content.as_str());
            prompt.append("<|im_end|>\n");
            proof {
                assert(said.take(i + 1).drop_last() =~= said.take(i as int));
                assert(said.take(i + 1).last() == message@);
                assert(prompt@ =~= rendered_all(said.take(i as int)) + rendered(message@));
            }
        }
        assert(said.take(said.len() as int) =~= said);
        prompt.append("<|im_start|>assistant\n");
        prompt
    }

    /// The messages as lines of the form "role: content".
    pub fn get_history(&self) -> (lines: Vec<String>)
        ensures
            lines@.len() == self.said().len(),
            forall|i: int|
                0 <= i < lines@.len() ==> #[trigger] lines@[i]@ == self.said()[i].0 + ": "@
                    + self.said()[i].1,
    {
        let mut lines: Vec<String> = Vec::new();
        for i in 0..self.conversation.len()
            invariant
                lines@.len() == i,
                forall|k: int|
                    0 <= k < i ==> #[trigger] lines@[k]@ == self.said()[k].0 + ": "@
                        + self.said()[k].1,
        {
            let message = &self.conversation[i];
            let mut line = message.role.clone();
            line.append(": ");
            line.append(message.content.as_str());
            lines.push(line);
        }
        lines
    }

    /// Rolls the conversation back to snapshot `version_index`. Without such a snapshot nothing
    /// happens.
    pub fn rollback(&mut self, version_index: usize)
        ensures
            final(self).rolled_back(*old(self), version_index as int),
    {
        if version_index < self.history_versions.len() {
            let snapshot = self.history_versions[version_index].clone();
            assert(snapshot@ =~= self.history_versions@[version_index as int]@);
            self.conversation = snapshot;
            self.history_versions.truncate(version_index + 1);
            assert(self.versions() =~= old(self).versions().take(version_index + 1));
        }
    }
}

impl<T: Copy + Default> ChatSession<T> {
    /// Opens a session for `model`.
    pub fn new(model: Arc<Llama<T>>) -> (s: ChatSession<T>)
        requires
            model.cacheable(),
        ensures
            s.wf(),
            s.is_fresh(model),
    {
        let cache = model.new_cache();
        let s = ChatSession {
            model,
            conversation: Vec::new(),
            cache,
            history_versions: Vec::new(),
        };
        assert(s.said() =~= Seq::<Said>::empty());
        assert(s.versions() =~= Seq::<Seq<Said>>::empty());
        s
    }

    /// Clears the conversation and its snapshots, and starts with an empty cache.
    pub fn clear(&mut self)
        requires
            old(self).model.cacheable(),
        ensures
            final(self).wf(),
            final(self).is_fresh(old(self).model),
    {
        self.conversation.clear();
        self.history_versions.clear();
        self.cache = self.model.new_cache();
        assert(self.said() =~= Seq::<Said>::empty());
        assert(self.versions() =~= Seq::<Seq<Said>>::empty());
    }

    /// Takes in the prompt after what the model has already taken in, and returns its
    /// continuation by at most `max_len` tokens, without the end token. Each token is reported to
    /// `progress`. Nothing if a token cannot be taken in or chosen.
    pub fn chat<A: Arithmetic<T> + Widen<T, T>, F: Fn(u32)>(
        &mut self,
        prompt_ids: &[u32],
        max_len: usize,
        top_p: T,
        top_k: u32,
        temperature: T,
        progress: &F,
    ) -> (r: Option<Vec<u32>>)
        requires
            old(self).wf(),
            old(self).model.consistent(),
            prompt_ids@.len() > 0,
            forall|t: u32|
                t != old(self).model.eos_token_id ==> call_requires(*progress, (t,)),
        ensures
            r matches Some(reply) ==> forall|i: int|
                0 <= i < reply@.len() ==> call_ensures(*progress, (#[trigger] reply@[i],), ()),
            final(self).wf(),
            final(self).model == old(self).model,
            final(self).conversation == old(self).conversation,
            final(self).history_versions == old(self).history_versions,
            ChatSession::<T>::replied::<A>(
                *old(self).model,
                prompt_ids@,
                old(self).cache,
                max_len as int,
                (Sampling { top_p, top_k, temperature }),
                contents(r),
                final(self).cache,
            ),
    {
        let ghost how = Sampling { top_p, top_k, temperature };
        let model = self.model.clone();
        let ghost c0 = self.cache;
        let n = prompt_ids.len();
        let mut ids: Vec<u32> = Vec::with_capacity(n);
        for i in 0..n
            invariant
                n == prompt_ids@.len(),
                ids@ == prompt_ids@.take(i as int),
        {
            ids.push(prompt_ids[i]);
            assert(ids@ =~= prompt_ids@.take(i + 1));
        }
        assert(ids@ =~= prompt_ids@);
        let shape = vec![n];
        proof {
            assert(shape@ =~= seq![n]);
            lemma_entries_1(n);
        }
        let prompt = Tensor::<u32>::new(ids, &shape);
        let fed = model.try_forward::<A>(&prompt, &mut self.cache);
        if fed.is_none() {
            return None;
        }
        let ghost c = self.cache;
        let ghost logits = fed.unwrap().data@;
        assert(model.passed::<A>(prompt_ids@, c0, c, logits));
        let last = prompt_ids[n - 1];
        let (mut picks, done) = model.extend::<A, F>(
            last,
            &mut self.cache,
            max_len,
            top_p,
            top_k,
            temperature,
            progress,
        );
        let ghost all = picks@;
        assert(model.continued::<A>(
            prompt_ids@.last(),
            c,
            max_len as int,
            how,
            all,
            done,
            self.cache,
        ));
        if !done {
            return None;
        }
        let count = picks.len();
        if count > 0 && picks[count - 1] == model.eos_token_id {
            picks.truncate(count - 1);
        }
        assert(picks@ =~= without_end(all, model.eos_token_id));
        Some(picks)
    }
}

} // verus!
