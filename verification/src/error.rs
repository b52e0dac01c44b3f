//! The error kinds that the store reports.

use vstd::prelude::*;

verus! {

/// What can go wrong in an operation of the store.
#[derive(Debug, Clone, Copy, PartialEq, Eq, Structural)]
pub enum KVStoreError {
    /// `remove` was asked for a key that the index does not hold.
    KeyNotFound,
    /// A segment could not be opened, read or written.
    Io,
    /// Bytes could not be encoded or decoded as a command record.
    Encoding,
    /// An index entry points at a record that is not a `SET`.
    UnknownCommandType,
}

impl KVStoreError {
    /// The text of the message for each kind.
    pub open spec fn message_text(self) -> Seq<char> {
        match self {
            KVStoreError::KeyNotFound => "Key not found"@,
            KVStoreError::Io => "I/O error"@,
            KVStoreError::Encoding => "Encoding error"@,
            KVStoreError::UnknownCommandType => "Unknown command type"@,
        }
    }

    /// The message that a front end sends back to its client.
    pub fn message(&self) -> (s: String)
        ensures
            s@ == self.message_text(),
    {
        match self {
            KVStoreError::KeyNotFound => "Key not found".to_owned(),
            KVStoreError::Io => "I/O error".to_owned(),
            KVStoreError::Encoding => "Encoding error".to_owned(),
            KVStoreError::UnknownCommandType => "Unknown command type".to_owned(),
        }
    }
}

} // verus!
