//! The errors of the store and of its clients.

use vstd::prelude::*;
use vstd::string::StringExecFns;

verus! {

/// What can go wrong in the store, on the wire, or in a backend.
#[derive(Debug)]
pub enum StoreError {
    /// The key to remove is not in the store.
    KeyNotFound,
    /// A file, socket or backend failed; the text says how.
    Io(String),
    /// Bytes on the wire or in a log do not decode.
    Serialization,
    /// The index points at bytes that do not hold a `Put` record.
    UnexpectedCommand,
    /// An error that the server reported, as text.
    Message(String),
}

impl StoreError {
    /// The text of this error.
    pub open spec fn message_text(&self) -> Seq<char> {
        match self {
            StoreError::KeyNotFound => "key not found"@,
            StoreError::Io(m) => "io error: "@ + m@,
            StoreError::Serialization => "serialization failed"@,
            StoreError::UnexpectedCommand => "unexpected command"@,
            StoreError::Message(m) => m@,
        }
    }

    /// The text that the server sends back for this error.
    pub fn message(&self) -> (r: String)
        ensures
            r@ == self.message_text(),
    {
        match self {
            StoreError::KeyNotFound => "key not found".to_owned(),
            StoreError::Io(m) => "io error: ".to_owned().concat(m.as_str()),
            StoreError::Serialization => "serialization failed".to_owned(),
            StoreError::UnexpectedCommand => "unexpected command".to_owned(),
            StoreError::Message(m) => m.clone(),
        }
    }
}

} // verus!
