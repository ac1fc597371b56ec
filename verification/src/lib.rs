//! A log-structured, persistent key-value store.
//!
//! The store appends `Insertion` and `Discard` records to numbered segment
//! logs, keeps an in-memory index from keys to record positions, and compacts
//! dead records once enough of them accumulate.  The storage engine itself is
//! a verified state machine over the segment contents; reading and writing the
//! actual files, sockets and threads is left to an unverified shell around
//! this crate.

use vstd::prelude::*;
use vstd::string::StringExecFns;

pub mod codec;
pub mod engine;
pub mod kvstore;
pub mod persist;
pub mod protocol;
pub mod sled_store;

pub use engine::KvsEngine;

verus! {

/// Which storage backend a data directory belongs to.
#[derive(Debug, PartialEq, Eq, Structural, Clone, Copy)]
pub enum EngineType {
    /// The log-structured engine of this crate.
    Kvs,
    /// The embedded `sled` database, behind an adapter.
    Sled,
    /// A stub engine used in tests.
    Mock,
}

/// The error kinds the store reports.
#[derive(Debug)]
pub enum KvError {
    /// `remove` was asked for a key that is not live.
    KeyNotFound {
        /// The key that was not found.
        key: String,
    },
    /// The index pointed at a missing or mismatched record.
    Corruption,
    /// A wire request line was not a well-formed request.
    Protocol,
    /// The filesystem or the embedded database reported a failure.
    Io,
    /// The recovery metadata file could not be parsed.
    BadMetadata,
    /// The data directory's segments were missing or misnumbered.
    BadLayout,
    /// A stored record line could not be parsed.
    BadRecord,
}

impl KvError {
    /// The human-readable message for this error.
    pub fn message(&self) -> (s: String)
        ensures
            s@ == message_view(*self),
    {
        match self {
            KvError::KeyNotFound { key } => {
                let mut s = String::from_str("Key: ");
                s.append(key.as_str());
                s.append(" not found.");
                assert(s@ =~= "Key: "@ + key@ + " not found."@);
                s
            },
            KvError::Corruption => String::from_str("Corrupted record on disk."),
            KvError::Protocol => String::from_str("Malformed request."),
            KvError::Io => String::from_str("I/O failure."),
            KvError::BadMetadata => String::from_str("Malformed recovery metadata."),
            KvError::BadLayout => String::from_str("Malformed data directory."),
            KvError::BadRecord => String::from_str("Malformed record line."),
        }
    }
}


/// The message text of each error, as character sequences.
pub open spec fn message_view(e: KvError) -> Seq<char> {
    match e {
        KvError::KeyNotFound { key } => "Key: "@ + key@ + " not found."@,
        KvError::Corruption => "Corrupted record on disk."@,
        KvError::Protocol => "Malformed request."@,
        KvError::Io => "I/O failure."@,
        KvError::BadMetadata => "Malformed recovery metadata."@,
        KvError::BadLayout => "Malformed data directory."@,
        KvError::BadRecord => "Malformed record line."@,
    }
}

/// What a startup check of the engine marker file concluded.
#[derive(Debug, PartialEq, Eq, Structural, Clone, Copy)]
pub enum MarkCheck {
    /// The marker names the configured engine: proceed.
    Matches,
    /// No valid marker: write one and proceed.
    Absent,
    /// The marker names another engine: refuse to start.
    Mismatch,
}

/// Lowercasing of one ASCII character.
pub open spec fn lower_char(c: char) -> char {
    if 'A' <= c <= 'Z' {
        ((c as u8) + 32) as char
    } else {
        c
    }
}

/// Lowercasing of an ASCII string.
pub open spec fn lower_chars(s: Seq<char>) -> Seq<char> {
    Seq::new(s.len(), |i: int| lower_char(s[i]))
}

/// Which engine a token names, compared case-insensitively.
pub open spec fn engine_of_token(s: Seq<char>) -> Option<EngineType> {
    if !vstd::utf8::is_ascii_chars(s) {
        None
    } else if lower_chars(s) == "kvs"@ {
        Some(EngineType::Kvs)
    } else if lower_chars(s) == "sled"@ {
        Some(EngineType::Sled)
    } else if lower_chars(s) == "mock"@ {
        Some(EngineType::Mock)
    } else {
        None
    }
}

/// The marker token of each engine.
pub open spec fn token_view(t: EngineType) -> Seq<char> {
    match t {
        EngineType::Kvs => "kvs"@,
        EngineType::Sled => "sled"@,
        EngineType::Mock => "mock"@,
    }
}

impl EngineType {
    /// The token this engine writes into the marker file.
    pub fn token(&self) -> (s: String)
        ensures
            s@ == token_view(*self),
    {
        match self {
            EngineType::Kvs => String::from_str("kvs"),
            EngineType::Sled => String::from_str("sled"),
            EngineType::Mock => String::from_str("mock"),
        }
    }

    /// Parses an engine name, case-insensitively.
    pub fn from_str(s: &str) -> (r: Option<EngineType>)
        ensures
            r == engine_of_token(s@),
    {
        broadcast use vstd::string::group_string_axioms;

        proof {
            reveal_strlit("kvs");
            reveal_strlit("sled");
            reveal_strlit("mock");
        }
        if !s.is_ascii() {
            return None;
        }
        let bs = s.as_bytes();
        let n = bs.len();
        proof {
            broadcast use vstd::slice::axiom_spec_len;

            crate::codec::ascii_len_is_char_len(s);
            assert(bs@.len() == s@.len());
        }
        if n > 4 {
            assert(lower_chars(s@).len() > 4);
            return None;
        }
        let mut low: Vec<u8> = Vec::new();
        let mut i: usize = 0;
        while i < n
            invariant
                vstd::string::is_ascii(s),
                n == s@.len(),
                0 <= i <= n,
                low@.len() == i,
                forall|m: int| 0 <= m < i ==> low@[m] < 128,
                forall|m: int|
                    0 <= m < i ==> (#[trigger] low@[m]) as char == lower_char(s@[m]),
            decreases n - i,
        {
            let b = s.get_ascii(i);
            let lb: u8 = if 65 <= b && b <= 90 {
                b + 32
            } else {
                b
            };
            proof {
                assert(b == s@[i as int] as u8);
                assert(lb as char == lower_char(s@[i as int]));
            }
            low.push(lb);
            i = i + 1;
        }
        let lowered = crate::codec::ascii_string_from_bytes(low);
        proof {
            assert(lowered@ =~= lower_chars(s@));
            assert(vstd::utf8::is_ascii_chars(lowered@));
            assert(vstd::utf8::is_ascii_chars("kvs"@));
            assert(vstd::utf8::is_ascii_chars("sled"@));
            assert(vstd::utf8::is_ascii_chars("mock"@));
        }
        let ls = lowered.as_str();
        if crate::kvstore::str_eq_ascii(ls, "kvs") {
            Some(EngineType::Kvs)
        } else if crate::kvstore::str_eq_ascii(ls, "sled") {
            Some(EngineType::Sled)
        } else if crate::kvstore::str_eq_ascii(ls, "mock") {
            Some(EngineType::Mock)
        } else {
            None
        }
    }
}

/// The startup guard: what to do given the marker file's content and the
/// configured engine.  A missing or unreadable marker counts as absent; a
/// marker naming another engine is fatal.
pub fn mark_decision(mark: &str, configured: EngineType) -> (r: MarkCheck)
    ensures
        r == (match engine_of_token(mark@) {
            Some(prev) => if prev == configured {
                MarkCheck::Matches
            } else {
                MarkCheck::Mismatch
            },
            None => MarkCheck::Absent,
        }),
{
    match EngineType::from_str(mark) {
        Some(prev) => {
            if prev == configured {
                MarkCheck::Matches
            } else {
                MarkCheck::Mismatch
            }
        },
        None => MarkCheck::Absent,
    }
}

} // verus!
