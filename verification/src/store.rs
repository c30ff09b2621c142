//! The credential store: one record per key id, never deleted.

use vstd::prelude::*;
use std::collections::HashMap;
use crate::access_key::{AccessKey, AccessKeyView};
use crate::error::ContractError;

verus! {

broadcast use vstd::std_specs::hash::group_hash_axioms;

/// The records of all keys ever issued, by id.
pub struct CredentialStore {
    records: HashMap<u64, AccessKey>,
}

impl View for CredentialStore {
    type V = Map<u64, AccessKeyView>;

    closed spec fn view(&self) -> Map<u64, AccessKeyView> {
        Map::new(|id: u64| self.records@.contains_key(id), |id: u64| self.records@[id]@)
    }
}

impl CredentialStore {
    /// Every record is filed under its own id.
    pub open spec fn wf(&self) -> bool {
        forall|id: u64| #[trigger] self@.contains_key(id) ==> self@[id].id == id
    }

    /// A store without records.
    pub fn new() -> (store: CredentialStore)
        ensures
            store.wf(),
            store@ == Map::<u64, AccessKeyView>::empty(),
    {
        let store = CredentialStore { records: HashMap::new() };
        assert(store@ =~= Map::<u64, AccessKeyView>::empty());
        store
    }

    /// Whether a record is filed under `id`.
    pub fn contains(&self, id: u64) -> (found: bool)
        ensures
            found == self@.contains_key(id),
    {
        self.records.contains_key(&id)
    }

    /// Files a new record under its id. Fails with `AlreadyExists`, and changes
    /// nothing, if the id is taken.
    pub fn create(&mut self, record: AccessKey) -> (done: Result<(), ContractError>)
        requires
            old(self).wf(),
        ensures
            final(self).wf(),
            match done {
                Ok(()) => {
                    &&& !old(self)@.contains_key(record.id)
                    &&& final(self)@ == old(self)@.insert(record.id, record@)
                },
                Err(e) => {
                    &&& e == ContractError::AlreadyExists
                    &&& old(self)@.contains_key(record.id)
                    &&& final(self)@ == old(self)@
                },
            },
    {
        if self.records.contains_key(&record.id) {
            return Err(ContractError::AlreadyExists);
        }
        let ghost id = record.id;
        let ghost rec = record@;
        self.records.insert(record.id, record);
        assert(self@ =~= old(self)@.insert(id, rec));
        Ok(())
    }

    /// A copy of the record filed under `id`, if there is one.
    pub fn get(&self, id: u64) -> (found: Option<AccessKey>)
        ensures
            match found {
                Some(key) => self@.contains_key(id) && key@ == self@[id],
                None => !self@.contains_key(id),
            },
    {
        match self.records.get(&id) {
            Some(key) => Some(key.clone()),
            None => None,
        }
    }

    /// Overwrites the record filed under `id`. Fails, and changes nothing,
    /// with `NotFound` if there is none and with `ValidationError` if `record`
    /// carries another id.
    pub fn update(&mut self, id: u64, record: AccessKey) -> (done: Result<(), ContractError>)
        requires
            old(self).wf(),
        ensures
            final(self).wf(),
            match done {
                Ok(()) => {
                    &&& old(self)@.contains_key(id)
                    &&& record.id == id
                    &&& final(self)@ == old(self)@.insert(id, record@)
                },
                Err(e) => {
                    &&& final(self)@ == old(self)@
                    &&& if !old(self)@.contains_key(id) {
                        e == ContractError::NotFound
                    } else {
                        e == ContractError::ValidationError && record.id != id
                    }
                },
            },
    {
        if !self.records.contains_key(&id) {
            return Err(ContractError::NotFound);
        }
        if record.id != id {
            return Err(ContractError::ValidationError);
        }
        let ghost rec = record@;
        self.records.insert(id, record);
        assert(self@ =~= old(self)@.insert(id, rec));
        Ok(())
    }
}

} // verus!
