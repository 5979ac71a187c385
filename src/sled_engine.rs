//! A backend on the embedded database `sled`.

use vstd::prelude::*;
use crate::codec::utf8_text;
use crate::engine::{Engine, EngineCall};
use crate::error::StoreError;

verus! {

#[verifier::external_type_specification]
#[verifier::external_body]
pub struct ExDb(sled::Db);

#[verifier::external_type_specification]
#[verifier::external_body]
pub struct ExSledError(sled::Error);

/// Relies on sled's `Tree::insert`, through `Db`'s `Deref`: stores the value's
/// bytes under the key's bytes.
#[verifier::external_body]
fn sled_insert(db: &sled::Db, key: &String, value: &String) -> Result<(), sled::Error> {
    db.insert(key.as_bytes(), value.as_bytes()).map(|_| ())
}

/// Relies on sled's `Tree::get`: the bytes stored under the key's bytes, if any.
#[verifier::external_body]
fn sled_get(db: &sled::Db, key: &String) -> Result<Option<Vec<u8>>, sled::Error> {
    db.get(key.as_bytes()).map(|found| found.map(|v| v.to_vec()))
}

/// Relies on sled's `Tree::remove`: drops the key's bytes and returns what
/// was stored under them, if anything.
#[verifier::external_body]
fn sled_remove(db: &sled::Db, key: &String) -> Result<Option<Vec<u8>>, sled::Error> {
    db.remove(key.as_bytes()).map(|found| found.map(|v| v.to_vec()))
}

/// Relies on sled's `Tree::flush`: writes dirty buffers to disk and syncs.
#[verifier::external_body]
fn sled_flush(db: &sled::Db) -> Result<(), sled::Error> {
    db.flush().map(|_| ())
}

/// Relies on the `Display` of `sled::Error`: the text of the error.
#[verifier::external_body]
fn sled_error_text(e: &sled::Error) -> String {
    e.to_string()
}

/// A sled error as an error of this crate.
fn backend_error(e: sled::Error) -> (r: StoreError)
    ensures
        r is Io,
{
    StoreError::Io(sled_error_text(&e))
}

/// What a removal found: `KeyNotFound` where nothing was stored.
pub fn removal_result(found: Option<Vec<u8>>) -> (r: Result<(), StoreError>)
    ensures
        found is None ==> r matches Err(StoreError::KeyNotFound),
        found is Some ==> r is Ok,
{
    match found {
        Some(_) => Ok(()),
        None => Err(StoreError::KeyNotFound),
    }
}

/// What a lookup found, as text: `Serialization` where the stored bytes are
/// not UTF-8.
pub fn lookup_result(found: Option<Vec<u8>>) -> (r: Result<Option<String>, StoreError>)
    ensures
        match found {
            None => r matches Ok(None),
            Some(b) => if vstd::utf8::valid_utf8(b@) {
                r matches Ok(Some(s)) && s@ == vstd::utf8::decode_utf8(b@)
            } else {
                r matches Err(StoreError::Serialization)
            },
        },
{
    match found {
        None => Ok(None),
        Some(b) => match utf8_text(b.as_slice()) {
            Some(s) => Ok(Some(s)),
            None => Err(StoreError::Serialization),
        },
    }
}

/// A backend that keeps its keys in a sled database.
pub struct Sled {
    db: sled::Db,
    calls: Ghost<Seq<EngineCall>>,
}

impl Sled {
    /// The database that this backend keeps its keys in.
    pub closed spec fn database(&self) -> sled::Db {
        self.db
    }

    /// A backend on `db`.
    pub fn new(db: sled::Db) -> (r: Sled)
        ensures
            r.database() == db,
            r.calls() == Seq::<EngineCall>::empty(),
    {
        Sled { db, calls: Ghost(Seq::empty()) }
    }

    fn put_value(&self, key: &String, value: &String) -> Result<(), StoreError> {
        match sled_insert(&self.db, key, value) {
            Ok(()) => {},
            Err(e) => return Err(backend_error(e)),
        }
        match sled_flush(&self.db) {
            Ok(()) => Ok(()),
            Err(e) => Err(backend_error(e)),
        }
    }

    fn value_of(&self, key: &String) -> Result<Option<String>, StoreError> {
        match sled_get(&self.db, key) {
            Ok(found) => lookup_result(found),
            Err(e) => Err(backend_error(e)),
        }
    }

    fn drop_key(&self, key: &String) -> Result<(), StoreError> {
        let found = match sled_remove(&self.db, key) {
            Ok(found) => found,
            Err(e) => return Err(backend_error(e)),
        };
        match removal_result(found) {
            Ok(()) => {},
            Err(e) => return Err(e),
        }
        match sled_flush(&self.db) {
            Ok(()) => Ok(()),
            Err(e) => Err(backend_error(e)),
        }
    }
}

impl Engine for Sled {
    closed spec fn calls(&self) -> Seq<EngineCall> {
        self.calls@
    }

    fn set(&mut self, key: String, value: String) -> (r: Result<(), StoreError>) {
        let r = self.put_value(&key, &value);
        proof {
            self.calls@ = self.calls@.push(EngineCall::Put { key: key@, value: value@, result: r });
        }
        r
    }

    fn get(&mut self, key: String) -> (r: Result<Option<String>, StoreError>) {
        let r = self.value_of(&key);
        proof {
            self.calls@ = self.calls@.push(EngineCall::Get { key: key@, result: r });
        }
        r
    }

    fn remove(&mut self, key: String) -> (r: Result<(), StoreError>) {
        let r = self.drop_key(&key);
        proof {
            self.calls@ = self.calls@.push(EngineCall::Remove { key: key@, result: r });
        }
        r
    }
}

} // verus!
