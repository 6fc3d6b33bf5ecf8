//! The store: whole-contents read-modify-write over one storage snapshot.
//!
//! A [`Store`] holds what the durable storage currently contains: `None` when
//! no storage exists yet, `Some(text)` once it does. Callers that persist to
//! a file read the file into a `Store` before a command and write
//! [`Store::contents`] back afterwards; two concurrent such cycles race as
//! last-writer-wins, a known limitation of whole-file persistence.
//!
//! Every operation is one load → mutate → save cycle over the full
//! collection, and each contract states the new storage text exactly, as the
//! encoding of the mutated collection.

use vstd::prelude::*;

use crate::codec::{
    dec_collection, decode_collection, enc_collection, encodable, encode_collection,
    lemma_decode_encode,
};
use crate::error::StoreError;
use crate::model::{
    has_name, idx_of, lemma_create_idempotent, list_at, names_of, spec_create, spec_destroy,
    spec_mutate_list, Collection, List, ListV, Mutation,
};

verus! {

/// What [`Store::initialize`] leaves in storage: existing contents stay;
/// absent storage becomes the encoding of the empty collection.
pub open spec fn spec_initialize(st: Option<Seq<char>>) -> Option<Seq<char>> {
    match st {
        None => Some(enc_collection(Seq::<ListV>::empty())),
        Some(text) => Some(text),
    }
}

/// The storage snapshot: the stored text, or `None` while no storage exists.
#[derive(Debug, PartialEq, Eq)]
pub struct Store {
    pub contents: Option<String>,
}

impl View for Store {
    type V = Option<Seq<char>>;

    open spec fn view(&self) -> Option<Seq<char>> {
        match self.contents {
            Some(ref text) => Some(text@),
            None => None,
        }
    }
}

impl Store {
    /// A store over storage that does not exist yet.
    pub fn new_missing() -> (r: Store)
        ensures
            r@ == None::<Seq<char>>,
    {
        Store { contents: None }
    }

    /// A store over existing storage with the given contents.
    pub fn from_contents(text: String) -> (r: Store)
        ensures
            r@ == Some(text@),
    {
        Store { contents: Some(text) }
    }

    /// Whether the storage exists.
    pub fn storage_exists(&self) -> (r: bool)
        ensures
            r == self@.is_some(),
    {
        self.contents.is_some()
    }

    /// Ensures the storage exists: absent storage becomes an empty, valid
    /// collection; existing storage is left exactly as it is, so running
    /// this twice leaves the same bytes as running it once.
    pub fn initialize(&mut self)
        ensures
            final(self)@ == spec_initialize(old(self)@),
            old(self)@ is None ==> (final(self)@ matches Some(text) && dec_collection(text)
                == Some(Seq::<ListV>::empty())),
    {
        if self.contents.is_none() {
            let empty = Collection::new();
            let text = encode_collection(&empty);
            self.contents = Some(text);
            proof {
                lemma_decode_encode(empty@);
            }
        }
    }

    /// Reads the full collection. Fails with `StorageUnreadable` exactly when
    /// the storage is missing, and with `CorruptFormat` exactly when its text
    /// does not encode a collection.
    pub fn load(&self) -> (r: Result<Collection, StoreError>)
        ensures
            match self@ {
                None => r == Err::<Collection, StoreError>(StoreError::StorageUnreadable),
                Some(text) => match dec_collection(text) {
                    None => r == Err::<Collection, StoreError>(StoreError::CorruptFormat),
                    Some(ls) => r matches Ok(c) && c@ == ls && c.wf(),
                },
            },
    {
        match self.contents {
            None => Err(StoreError::StorageUnreadable),
            Some(ref text) => decode_collection(text.as_str()),
        }
    }

    /// Overwrites the storage with the encoding of the full collection.
    /// Writing the snapshot itself cannot fail; a caller that persists it to
    /// a file reports `StorageWriteFailed` when that write fails.
    pub fn save(&mut self, c: &Collection)
        ensures
            final(self)@ == Some(enc_collection(c@)),
            encodable(c@),
    {
        self.contents = Some(encode_collection(c));
    }

    /// Creates an empty list under `name`. A second creation under the same
    /// name is a no-op: the existing list is never clobbered.
    pub fn create_list(&mut self, name: &str) -> (r: Result<(), StoreError>)
        ensures
            match old(self)@ {
                None => r == Err::<(), StoreError>(StoreError::StorageUnreadable) && final(self)@
                    == old(self)@,
                Some(text) => match dec_collection(text) {
                    None => r == Err::<(), StoreError>(StoreError::CorruptFormat) && final(self)@
                        == old(self)@,
                    Some(ls) => r == Ok::<(), StoreError>(()) && final(self)@ == Some(
                        enc_collection(spec_create(ls, name@)),
                    ) && dec_collection(enc_collection(spec_create(ls, name@))) == Some(
                        spec_create(ls, name@),
                    ),
                },
            },
    {
        match self.load() {
            Err(e) => Err(e),
            Ok(mut c) => {
                let ghost ls0 = c@;
                c.create(name);
                self.save(&c);
                proof {
                    lemma_create_idempotent(ls0, name@);
                    lemma_decode_encode(c@);
                }
                Ok(())
            },
        }
    }

    /// Removes the list named `name`; absence is a no-op, not an error.
    pub fn destroy_list(&mut self, name: &str) -> (r: Result<(), StoreError>)
        ensures
            match old(self)@ {
                None => r == Err::<(), StoreError>(StoreError::StorageUnreadable) && final(self)@
                    == old(self)@,
                Some(text) => match dec_collection(text) {
                    None => r == Err::<(), StoreError>(StoreError::CorruptFormat) && final(self)@
                        == old(self)@,
                    Some(ls) => r == Ok::<(), StoreError>(()) && final(self)@ == Some(
                        enc_collection(spec_destroy(ls, name@)),
                    ) && dec_collection(enc_collection(spec_destroy(ls, name@))) == Some(
                        spec_destroy(ls, name@),
                    ),
                },
            },
    {
        match self.load() {
            Err(e) => Err(e),
            Ok(mut c) => {
                c.destroy(name);
                self.save(&c);
                proof {
                    lemma_decode_encode(c@);
                }
                Ok(())
            },
        }
    }

    /// Returns the list named `name`. Fails with `ListNotFound` exactly when
    /// the storage is readable and no list carries that name.
    pub fn get_list(&self, name: &str) -> (r: Result<List, StoreError>)
        ensures
            match self@ {
                None => r == Err::<List, StoreError>(StoreError::StorageUnreadable),
                Some(text) => match dec_collection(text) {
                    None => r == Err::<List, StoreError>(StoreError::CorruptFormat),
                    Some(ls) => if has_name(ls, name@) {
                        r matches Ok(l) && l@ == list_at(ls, name@)
                    } else {
                        r == Err::<List, StoreError>(StoreError::ListNotFound)
                    },
                },
            },
    {
        match self.load() {
            Err(e) => Err(e),
            Ok(c) => match c.get(name) {
                Some(l) => Ok(l.clone()),
                None => Err(StoreError::ListNotFound),
            },
        }
    }

    /// Applies one mutation to the list named `name` and saves the whole
    /// collection. On any failure — unreadable or corrupt storage, unknown
    /// name, index out of range — the storage is left exactly as it was.
    pub fn mutate_list(&mut self, name: &str, m: &Mutation) -> (r: Result<(), StoreError>)
        ensures
            match old(self)@ {
                None => r == Err::<(), StoreError>(StoreError::StorageUnreadable) && final(self)@
                    == old(self)@,
                Some(text) => match dec_collection(text) {
                    None => r == Err::<(), StoreError>(StoreError::CorruptFormat) && final(self)@
                        == old(self)@,
                    Some(ls) => if !has_name(ls, name@) {
                        r == Err::<(), StoreError>(StoreError::ListNotFound) && final(self)@
                            == old(self)@
                    } else {
                        match spec_mutate_list(list_at(ls, name@), m@) {
                            Ok(l2) => r == Ok::<(), StoreError>(()) && final(self)@ == Some(
                                enc_collection(ls.update(idx_of(ls, name@), l2)),
                            ) && dec_collection(enc_collection(ls.update(idx_of(ls, name@), l2)))
                                == Some(ls.update(idx_of(ls, name@), l2)),
                            Err(e) => r == Err::<(), StoreError>(e) && final(self)@ == old(
                                self,
                            )@,
                        }
                    },
                },
            },
    {
        match self.load() {
            Err(e) => Err(e),
            Ok(mut c) => match c.apply_mutation(name, m) {
                Err(e) => Err(e),
                Ok(()) => {
                    self.save(&c);
                    proof {
                        lemma_decode_encode(c@);
                    }
                    Ok(())
                },
            },
        }
    }

    /// Returns all list names, in collection order (the order in which the
    /// lists were created), a stable presentation order.
    pub fn list_names(&self) -> (r: Result<Vec<String>, StoreError>)
        ensures
            match self@ {
                None => r == Err::<Vec<String>, StoreError>(StoreError::StorageUnreadable),
                Some(text) => match dec_collection(text) {
                    None => r == Err::<Vec<String>, StoreError>(StoreError::CorruptFormat),
                    Some(ls) => r matches Ok(v) && v@.map_values(|s: String| s@) == names_of(ls),
                },
            },
    {
        match self.load() {
            Err(e) => Err(e),
            Ok(c) => Ok(c.names()),
        }
    }
}

/// Initialization is idempotent: a second run leaves the storage text
/// exactly as the first left it.
pub proof fn lemma_initialize_idempotent(st: Option<Seq<char>>)
    ensures
        spec_initialize(spec_initialize(st)) == spec_initialize(st),
{
}

} // verus!
