//! The capability every storage backend offers: get, set, remove, flush.
//!
//! The server works against this trait so that the log-structured engine
//! and the embedded-database adapter are interchangeable.  Handles are
//! cheap to clone and shareable across worker threads; the functional
//! contracts live on each engine's own inherent methods.

use vstd::prelude::*;

use crate::KvError;
use crate::codec::valid_text;

verus! {

/// Trait which every key-value storage engine obeys.
pub trait KvsEngine: Clone + Send + 'static {
    /// Get the value bound to a key.
    fn get(&self, key: &str) -> Result<Option<String>, KvError>
        requires
            valid_text(key@),
    ;

    /// Insert a key-value pair.
    fn set(&self, key: &str, value: &str) -> Result<(), KvError>
        requires
            valid_text(key@),
            valid_text(value@),
    ;

    /// Remove an existing key-value pair, or report that it is absent.
    fn remove(&self, key: &str) -> Result<(), KvError>
        requires
            valid_text(key@),
    ;

    /// Flush all in-memory data to the device.
    fn flush(&self) -> Result<(), KvError> {
        Ok(())
    }
}

/// A stand-in engine for wiring tests that need the type, not the
/// behaviour.
pub struct MockKvsEngine;

} // verus!
