//! The errors that the store reports.

use vstd::prelude::*;
use vstd::string::StringExecFns;

verus! {

/// What can go wrong in an operation on the store.
#[derive(Debug, PartialEq, Eq)]
pub enum KvError {
    /// An operation on the file system failed. The store itself never
    /// returns this: it is for the code that moves segments to and from disk.
    IOError {
        /// The message of the underlying error.
        cause: String,
    },
    /// A record could not be encoded, or bytes could not be decoded as a record.
    SerializationError {
        /// The message of the codec.
        cause: String,
    },
    /// `remove` was called on a key that the store does not hold.
    KeyNotFound,
    /// The directory or a segment breaks a structural rule of the store.
    Consistency(String),
}

impl KvError {
    /// The text that a front end shows for this error.
    pub open spec fn message_model(self) -> Seq<char> {
        match self {
            KvError::IOError { cause } => "IOError: "@ + cause@,
            KvError::SerializationError { cause } => "SerializationError: "@ + cause@,
            KvError::KeyNotFound => "Key not found"@,
            KvError::Consistency(msg) => "ConsistencyError: "@ + msg@,
        }
    }

    /// Renders the error as a line for the user.
    pub fn message(&self) -> (out: String)
        ensures
            out@ == self.message_model(),
    {
        match self {
            KvError::IOError { cause } => {
                let mut out = String::from_str("IOError: ");
                out.append(cause.as_str());
                out
            },
            KvError::SerializationError { cause } => {
                let mut out = String::from_str("SerializationError: ");
                out.append(cause.as_str());
                out
            },
            KvError::KeyNotFound => String::from_str("Key not found"),
            KvError::Consistency(msg) => {
                let mut out = String::from_str("ConsistencyError: ");
                out.append(msg.as_str());
                out
            },
        }
    }
}

} // verus!
