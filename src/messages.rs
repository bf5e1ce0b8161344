//! A store of text messages keyed by number, which refuses to create a
//! message under a key that is taken and to update one that is missing.

use vstd::prelude::*;
use std::collections::HashMap;

verus! {

broadcast use vstd::std_specs::hash::group_hash_axioms;

/// Why a message could not be stored.
#[derive(Clone, Copy, Debug, PartialEq, Eq, Structural)]
pub enum MessageError {
    /// A message is already stored under the key.
    IdExists,
}

/// The messages, by key.
#[derive(Debug)]
pub struct MessageBook {
    map: HashMap<usize, String>,
}

impl View for MessageBook {
    type V = Map<usize, String>;

    closed spec fn view(&self) -> Map<usize, String> {
        self.map@
    }
}

impl MessageBook {
    /// An empty store.
    pub fn new() -> (r: MessageBook)
        ensures
            r@ == Map::<usize, String>::empty(),
    {
        MessageBook { map: HashMap::new() }
    }

    /// Stores a new message under `id`; `IdExists`, with the store unchanged,
    /// when `id` is taken.
    pub fn insert_new(&mut self, id: usize, contents: String) -> (r: Result<(), MessageError>)
        ensures
            old(self)@.contains_key(id) ==> r == Err::<(), MessageError>(MessageError::IdExists)
                && final(self)@ == old(self)@,
            !old(self)@.contains_key(id) ==> r is Ok && final(self)@ == old(self)@.insert(id, contents),
    {
        if self.map.contains_key(&id) {
            Err(MessageError::IdExists)
        } else {
            self.map.insert(id, contents);
            Ok(())
        }
    }

    /// Replaces the message under `id`, if there is one, and says whether
    /// there was; the store is unchanged when there was not.
    pub fn update(&mut self, id: usize, contents: String) -> (r: bool)
        ensures
            r == old(self)@.contains_key(id),
            r ==> final(self)@ == old(self)@.insert(id, contents),
            !r ==> final(self)@ == old(self)@,
    {
        if self.map.contains_key(&id) {
            self.map.insert(id, contents);
            true
        } else {
            false
        }
    }

    /// A copy of the message under `id`, if there is one.
    pub fn get(&self, id: usize) -> (r: Option<String>)
        ensures
            match r {
                Some(s) => self@.contains_key(id) && s@ == self@[id]@,
                None => !self@.contains_key(id),
            },
    {
        match self.map.get(&id) {
            Some(s) => Some(s.clone()),
            None => None,
        }
    }
}

} // verus!
