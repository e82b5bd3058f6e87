//! The sessions of a server, found by their identifiers.

use crate::model::Llama;
use crate::session::ChatSession;
use std::sync::Arc;
use vstd::hash_map::StringHashMap;
use vstd::prelude::*;

verus! {

/// A lower-case hexadecimal digit.
pub open spec fn is_hex(c: char) -> bool {
    '0' <= c <= '9' || 'a' <= c <= 'f'
}

/// The text form of a random identifier: 32 hexadecimal digits in groups of 8, 4, 4, 4 and 12,
/// with the digit that starts the third group and the bits that start the fourth one fixed.
pub open spec fn is_random_id(s: Seq<char>) -> bool {
    &&& s.len() == 36
    &&& s[8] == '-' && s[13] == '-' && s[18] == '-' && s[23] == '-'
    &&& s[14] == '4'
    &&& s[19] == '8' || s[19] == '9' || s[19] == 'a' || s[19] == 'b'
    &&& forall|i: int|
        0 <= i < 36 && i != 8 && i != 13 && i != 18 && i != 23 ==> is_hex(#[trigger] s[i])
}

/// Calls `uuid::Uuid::new_v4` and writes the result as text. It is random, so two calls may give
/// any two identifiers, even, with negligible probability, the same; only its form is certain.
/// The call panics if the operating system has no random numbers to offer.
#[verifier::external_body]
fn random_id() -> (s: String)
    ensures
        is_random_id(s@),
{
    uuid::Uuid::new_v4().to_string()
}

/// `s` can be an identifier that the generator of random identifiers has drawn.
pub closed spec fn drawn_id(s: String) -> bool {
    call_ensures(random_id, (), s)
}

/// Sessions of type `S`, each found by its identifier.
pub struct SessionManager<S> {
    places: StringHashMap<usize>,
    ids: Vec<String>,
    sessions: Vec<S>,
}

impl<S> View for SessionManager<S> {
    type V = Map<Seq<char>, S>;

    closed spec fn view(&self) -> Map<Seq<char>, S> {
        self.places@.map_values(|i: usize| self.sessions@[i as int])
    }
}

impl<S> SessionManager<S> {
    /// Each identifier has a place of its own, and each place has an identifier.
    pub closed spec fn wf(&self) -> bool {
        &&& self.ids@.len() == self.sessions@.len()
        &&& forall|id: Seq<char>|
            self.places@.contains_key(id) ==> (#[trigger] self.places@[id])
                < self.sessions@.len() && self.ids@[self.places@[id] as int]@ == id
        &&& forall|i: int|
            0 <= i < self.ids@.len() ==> self.places@.contains_key((#[trigger] self.ids@[i])@)
                && self.places@[self.ids@[i]@] == i
    }

    /// No sessions.
    pub fn new() -> (m: SessionManager<S>)
        ensures
            m.wf(),
            m@ == Map::<Seq<char>, S>::empty(),
    {
        let m = SessionManager {
            places: StringHashMap::new(),
            ids: Vec::new(),
            sessions: Vec::new(),
        };
        assert(m@ =~= Map::<Seq<char>, S>::empty());
        m
    }

    /// The session with this identifier.
    pub fn get_session(&self, session_id: &str) -> (r: Option<&S>)
        requires
            self.wf(),
        ensures
            match r {
                Some(session) => self@.contains_key(session_id@) && *session
                    == self@[session_id@],
                None => !self@.contains_key(session_id@),
            },
    {
        match self.places.get(session_id) {
            Some(place) => {
                assert(self.places@[session_id@] < self.sessions@.len());
                Some(&self.sessions[*place])
            },
            None => None,
        }
    }

    /// The identifiers of all sessions.
    pub fn session_ids(&self) -> (ids: Vec<String>)
        requires
            self.wf(),
        ensures
            forall|id: Seq<char>|
                self@.contains_key(id) <==> exists|i: int|
                    0 <= i < ids@.len() && #[trigger] ids@[i]@ == id,
            forall|i: int, j: int|
                0 <= i < j < ids@.len() ==> #[trigger] ids@[i]@ != #[trigger] ids@[j]@,
    {
        let mut ids: Vec<String> = Vec::with_capacity(self.ids.len());
        for i in 0..self.ids.len()
            invariant
                ids@.len() == i,
                forall|k: int| 0 <= k < i ==> #[trigger] ids@[k]@ == self.ids@[k]@,
        {
            ids.push(self.ids[i].clone());
        }
        proof {
            assert forall|id: Seq<char>| self@.contains_key(id) implies exists|i: int|
                0 <= i < ids@.len() && #[trigger] ids@[i]@ == id by {
                assert(ids@[self.places@[id] as int]@ == id);
            }
            assert forall|id: Seq<char>|
                (exists|i: int| 0 <= i < ids@.len() && #[trigger] ids@[i]@ == id) implies self@
                .contains_key(id) by {
                let i = choose|i: int| 0 <= i < ids@.len() && #[trigger] ids@[i]@ == id;
                assert(self.places@.contains_key(self.ids@[i]@));
            }
            assert forall|i: int, j: int| 0 <= i < j < ids@.len() implies #[trigger] ids@[i]@
                != #[trigger] ids@[j]@ by {
                assert(self.places@[self.ids@[i]@] == i && self.places@[self.ids@[j]@] == j);
            }
        }
        ids
    }

    /// Makes `session` the session with this identifier, in place of another if there is one.
    pub fn update_session(&mut self, session_id: &str, session: S)
        requires
            old(self).wf(),
        ensures
            final(self).wf(),
            final(self)@ == old(self)@.insert(session_id@, session),
    {
        match self.places.get(session_id) {
            Some(place) => {
                let place = *place;
                assert(self.places@[session_id@] < self.sessions@.len());
                self.sessions.set(place, session);
            },
            None => {
                let place = self.sessions.len();
                self.sessions.push(session);
                self.ids.push(session_id.to_string());
                self.places.insert(session_id.to_string(), place);
            },
        }
        assert(self@ =~= old(self)@.insert(session_id@, session));
    }

    /// Adds `session` under a random identifier, which is returned.
    pub fn register(&mut self, session: S) -> (id: String)
        requires
            old(self).wf(),
        ensures
            final(self).wf(),
            drawn_id(id),
            is_random_id(id@),
            final(self)@ == old(self)@.insert(id@, session),
    {
        let id = random_id();
        self.update_session(id.as_str(), session);
        id
    }
}

impl<T: Copy + Default> SessionManager<ChatSession<T>> {
    /// Opens a session for `model` under a random identifier, which is returned.
    pub fn create_session(&mut self, model: Arc<Llama<T>>) -> (id: String)
        requires
            old(self).wf(),
            model.cacheable(),
        ensures
            final(self).wf(),
            drawn_id(id),
            is_random_id(id@),
            exists|s: ChatSession<T>| #[trigger]
                s.is_fresh(model) && s.wf() && final(self)@ == old(self)@.insert(id@, s),
    {
        let session = ChatSession::new(model);
        self.register(session)
    }
}

impl<T> SessionManager<ChatSession<T>> {
    /// Rolls the session with this identifier back to its snapshot `version_index`. Nothing if
    /// there is no such session.
    pub fn rollback_session(&mut self, session_id: &str, version_index: usize) -> (r: Option<()>)
        requires
            old(self).wf(),
        ensures
            final(self).wf(),
            match r {
                Some(_) => {
                    &&& old(self)@.contains_key(session_id@)
                    &&& final(self)@ == old(self)@.insert(session_id@, final(self)@[session_id@])
                    &&& final(self)@[session_id@].rolled_back(
                        old(self)@[session_id@],
                        version_index as int,
                    )
                },
                None => !old(self)@.contains_key(session_id@) && final(self)@ == old(self)@,
            },
    {
        match self.places.get(session_id) {
            Some(place) => {
                let place = *place;
                assert(self.places@[session_id@] < self.sessions@.len());
                self.sessions[place].rollback(version_index);
                assert(self@ =~= old(self)@.insert(session_id@, self@[session_id@]));
                Some(())
            },
            None => None,
        }
    }
}

} // verus!
