//! The errors of the store.

use vstd::prelude::*;
use vstd::string::*;

verus! {

/// What can go wrong in the store, its server and its client. A variant that
/// stands for a fault met outside the library carries that fault's text.
#[derive(Debug, Clone, PartialEq, Eq)]
pub enum KvsError {
    /// An I/O fault.
    Io(String),
    /// A record or a message that is not in the expected format.
    SerdeError(String),
    /// The index points at a record that is no `Set`.
    UndefCmdline,
    /// The key to remove is not in the store.
    KeyNotFound,
    /// The name of an engine is neither `kvs` nor `sled`.
    ParseEngineNameErr,
    /// An error that the server sent to the client.
    StringErr(String),
    /// A fault of the embedded `sled` store.
    SledErr(String),
    /// A stored value is not valid UTF-8.
    Utf8Error(String),
}

/// The text that an error shows to a user.
pub open spec fn message_of(e: KvsError) -> Seq<char> {
    match e {
        KvsError::Io(text) => text@,
        KvsError::SerdeError(text) => text@,
        KvsError::UndefCmdline => "Undefined Command Error"@,
        KvsError::KeyNotFound => "Key not found"@,
        KvsError::ParseEngineNameErr => "Parse Engine Name Fail"@,
        KvsError::StringErr(text) => text@,
        KvsError::SledErr(text) => "sled error: "@ + text@,
        KvsError::Utf8Error(text) => "UTF-8 error: "@ + text@,
    }
}

impl KvsError {
    /// The text that the error shows to a user; the server sends it to the
    /// client as it is.
    pub fn message(&self) -> (r: String)
        ensures
            r@ == message_of(*self),
    {
        match self {
            KvsError::Io(text) => text.clone(),
            KvsError::SerdeError(text) => text.clone(),
            KvsError::UndefCmdline => String::from_str("Undefined Command Error"),
            KvsError::KeyNotFound => String::from_str("Key not found"),
            KvsError::ParseEngineNameErr => String::from_str("Parse Engine Name Fail"),
            KvsError::StringErr(text) => text.clone(),
            KvsError::SledErr(text) => String::from_str("sled error: ").concat(text.as_str()),
            KvsError::Utf8Error(text) => String::from_str("UTF-8 error: ").concat(text.as_str()),
        }
    }
}

} // verus!
