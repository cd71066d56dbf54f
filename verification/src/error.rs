use vstd::prelude::*;

verus! {

/// The error kinds surfaced by the store, the engines and the wire protocol.
#[derive(Debug, Clone)]
pub enum TsaError {
    /// An underlying file or socket error, as a message.
    Io(String),
    /// `remove` of a key that has no live value.
    KeyNotFound,
    /// A position refers to a segment that is not present.
    FileNotFound,
    /// `set` with an empty value; the zero-length encoding is reserved for
    /// tombstones.
    EmptyValue,
    /// Compaction could not run to completion.
    Compaction(String),
    /// A record that should not appear where it did.
    UnexpectedCommand(String),
    /// The data directory was written by a different engine.
    WrongEngine,
    /// A concurrency fault, as a message.
    Concurrency(String),
    /// A record that cannot be decoded, or a short read on a byte range the
    /// index claims exists.
    CorruptedLog,
    /// A wire-format violation.
    Protocol(String),
    /// A thread panicked while holding a lock.
    LockPoisoned,
}

impl TsaError {
    /// A short description of the error, for responses and logs.
    pub fn message(&self) -> String {
        match self {
            TsaError::Io(m) => m.clone(),
            TsaError::KeyNotFound => String::from_str("Key not found"),
            TsaError::FileNotFound => String::from_str("File not found"),
            TsaError::EmptyValue => String::from_str("Empty values not allowed"),
            TsaError::Compaction(m) => m.clone(),
            TsaError::UnexpectedCommand(m) => m.clone(),
            TsaError::WrongEngine => String::from_str("Engine mismatch error"),
            TsaError::Concurrency(m) => m.clone(),
            TsaError::CorruptedLog => String::from_str("Corrupted or incomplete log data"),
            TsaError::Protocol(m) => m.clone(),
            TsaError::LockPoisoned => String::from_str("Lock poison error"),
        }
    }
}

} // verus!
