//! The error type shared by the engine, the server and the client.

use vstd::prelude::*;

verus! {

/// Everything that can go wrong in the store.
#[derive(Debug)]
pub enum KvsError {
    /// The key of a `remove` is not in the store.
    KeyNotFound,
    /// The operating system failed an I/O request; its description.
    Io(String),
    /// A segment named by the index is missing.
    FileNotFound,
    /// `serde_json` refused a string; its description.
    SerdeJson(String),
    /// A segment holds bytes that are no record.
    Decode,
    /// An invariant of the engine does not hold.
    InternalError,
    /// The command line could not be understood.
    CommandLineArgumentError,
    /// The server answered with something that is no response.
    InvalidServerResponse,
    /// A request has too few tokens or an unknown verb.
    InvalidRequest,
    /// The directory was initialised by another engine.
    InvalidStorageEngineType,
}

impl KvsError {
    /// The text that describes the error to a user.
    pub open spec fn text(&self) -> Seq<char> {
        match self {
            KvsError::KeyNotFound => "Key not found"@,
            KvsError::Io(description) => description@,
            KvsError::FileNotFound => "File not found"@,
            KvsError::SerdeJson(description) => description@,
            KvsError::Decode => "Malformed record"@,
            KvsError::InternalError => "Internal error"@,
            KvsError::CommandLineArgumentError => "Command line argument error"@,
            KvsError::InvalidServerResponse => "Invalid server response"@,
            KvsError::InvalidRequest => "Invalid request"@,
            KvsError::InvalidStorageEngineType => "Invalid storage engine type"@,
        }
    }

    /// The text that describes the error to a user.
    pub fn message(&self) -> (r: String)
        ensures
            r@ == self.text(),
    {
        match self {
            KvsError::KeyNotFound => "Key not found".to_string(),
            KvsError::Io(description) => description.clone(),
            KvsError::FileNotFound => "File not found".to_string(),
            KvsError::SerdeJson(description) => description.clone(),
            KvsError::Decode => "Malformed record".to_string(),
            KvsError::InternalError => "Internal error".to_string(),
            KvsError::CommandLineArgumentError => "Command line argument error".to_string(),
            KvsError::InvalidServerResponse => "Invalid server response".to_string(),
            KvsError::InvalidRequest => "Invalid request".to_string(),
            KvsError::InvalidStorageEngineType => "Invalid storage engine type".to_string(),
        }
    }
}

} // verus!
