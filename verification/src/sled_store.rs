//! An adapter that runs the engine capability on the embedded `sled`
//! database.
//!
//! The adapter only forwards operations; what comes back depends on the
//! database's files, so nothing is claimed of the stored values beyond
//! the UTF-8 validation performed on the way out.

use vstd::prelude::*;

use crate::KvError;
use crate::engine::KvsEngine;

verus! {

#[verifier::external_type_specification]
#[verifier::external_body]
pub struct ExDb(sled::Db);

#[verifier::external_type_specification]
#[verifier::external_body]
pub struct ExIVec(sled::IVec);

/// Relies on `sled::Db::clone`: another handle to the same database.
pub assume_specification[ <sled::Db as Clone>::clone ](db: &sled::Db) -> sled::Db;

/// Relies on `sled::open`: opens or creates the database rooted at the
/// given directory.  Any failure is reported as an I/O error.
#[verifier::external_body]
fn sled_open(path: &str) -> (r: Result<sled::Db, KvError>)
    ensures
        r matches Err(e) ==> e is Io,
{
    sled::open(path).map_err(|_| KvError::Io)
}

/// Relies on `sled::Tree::get`: returns the stored bytes for a key, if
/// any.  What is stored depends on the database's files; any failure is
/// reported as an I/O error.
#[verifier::external_body]
fn sled_get(db: &sled::Db, key: &str) -> (r: Result<Option<Vec<u8>>, KvError>)
    ensures
        r matches Err(e) ==> e is Io,
{
    match db.get(key.as_bytes()) {
        Ok(Some(v)) => Ok(Some(v.to_vec())),
        Ok(None) => Ok(None),
        Err(_) => Err(KvError::Io),
    }
}

/// Relies on `sled::Tree::insert`: stores the value under the key.  Any
/// failure is reported as an I/O error.
#[verifier::external_body]
fn sled_insert(db: &sled::Db, key: sled::IVec, value: sled::IVec) -> (r: Result<(), KvError>)
    ensures
        r matches Err(e) ==> e is Io,
{
    match db.insert(key, value) {
        Ok(_) => Ok(()),
        Err(_) => Err(KvError::Io),
    }
}

/// Relies on `sled::Tree::remove`: drops the key and reports whether a
/// value was there.  Any failure is reported as an I/O error.
#[verifier::external_body]
fn sled_remove(db: &sled::Db, key: &str) -> (r: Result<bool, KvError>)
    ensures
        r matches Err(e) ==> e is Io,
{
    match db.remove(key.as_bytes()) {
        Ok(Some(_)) => Ok(true),
        Ok(None) => Ok(false),
        Err(_) => Err(KvError::Io),
    }
}

/// Relies on `sled::Tree::flush`: forces dirty buffers to disk.  Any
/// failure is reported as an I/O error.
#[verifier::external_body]
fn sled_flush(db: &sled::Db) -> (r: Result<(), KvError>)
    ensures
        r matches Err(e) ==> e is Io,
{
    match db.flush() {
        Ok(_) => Ok(()),
        Err(_) => Err(KvError::Io),
    }
}

/// Relies on `String::from_utf8`: succeeds exactly on valid UTF-8 and
/// keeps the bytes.
#[verifier::external_body]
fn utf8_string_from_bytes(bytes: Vec<u8>) -> (r: Result<String, KvError>)
    ensures
        match r {
            Ok(s) => vstd::utf8::valid_utf8(bytes@) && vstd::utf8::encode_utf8(s@) == bytes@,
            Err(e) => !vstd::utf8::valid_utf8(bytes@) && e is Protocol,
        },
{
    match String::from_utf8(bytes) {
        Ok(s) => Ok(s),
        Err(_) => Err(KvError::Protocol),
    }
}

/// Adapter for the sled engine.
#[derive(Clone)]
pub struct SledAdapter {
    db: sled::Db,
}

impl SledAdapter {
    /// Opens or creates a sled database under the given directory.
    pub fn open(path: &str) -> (r: Result<SledAdapter, KvError>) {
        match sled_open(path) {
            Ok(db) => Ok(SledAdapter { db }),
            Err(e) => Err(e),
        }
    }

    /// Relies on `sled::IVec::from`: wraps a string's bytes.
    #[verifier::external_body]
    fn ivec_from_str(s: &str) -> (r: sled::IVec) {
        sled::IVec::from(s)
    }

    /// Decodes stored bytes as UTF-8, rejecting invalid data instead of
    /// trusting it.
    fn ivec_to_str(bytes: Vec<u8>) -> (r: Result<String, KvError>)
        ensures
            match r {
                Ok(s) => vstd::utf8::valid_utf8(bytes@) && vstd::utf8::encode_utf8(s@) == bytes@,
                Err(e) => !vstd::utf8::valid_utf8(bytes@) && e is Protocol,
            },
    {
        utf8_string_from_bytes(bytes)
    }
}

impl KvsEngine for SledAdapter {
    /// Forwards to the database and validates the bytes that come back.
    fn get(&self, key: &str) -> Result<Option<String>, KvError> {
        match sled_get(&self.db, key) {
            Ok(Some(bytes)) => match Self::ivec_to_str(bytes) {
                Ok(s) => Ok(Some(s)),
                Err(e) => Err(e),
            },
            Ok(None) => Ok(None),
            Err(e) => Err(e),
        }
    }

    /// Forwards to the database.
    fn set(&self, key: &str, value: &str) -> Result<(), KvError> {
        let ikey = Self::ivec_from_str(key);
        let ivalue = Self::ivec_from_str(value);
        sled_insert(&self.db, ikey, ivalue)
    }

    /// Forwards to the database; an absent key is the caller's error,
    /// reported with the queried key.
    fn remove(&self, key: &str) -> (r: Result<(), KvError>)
        ensures
            r matches Err(KvError::KeyNotFound { key: k }) ==> k@ == key@,
    {
        match sled_remove(&self.db, key) {
            Ok(true) => Ok(()),
            Ok(false) => Err(KvError::KeyNotFound { key: String::from_str(key) }),
            Err(e) => Err(e),
        }
    }

    /// Forwards to the database's flush.
    fn flush(&self) -> Result<(), KvError> {
        sled_flush(&self.db)
    }
}

} // verus!
