//! The errors of the store, its engines, its server and its client.
use vstd::prelude::*;
use crate::codec::DecodeError;

verus! {

/// What went wrong in an operation.
#[derive(Debug, Clone, PartialEq, Eq)]
pub enum KvsError {
    /// `remove` of a key that holds no value.
    KeyNotFound,
    /// The index points at a record that is not a value.
    LogInconsistent,
    /// The engine on disk is not the engine asked for.
    EngineMismatch,
    /// Bytes on disk or on the wire are not a well-formed record or message.
    Codec(DecodeError),
    /// The server answered with a response of the wrong kind.
    Protocol,
    /// A file or socket operation failed; the text says how.
    Io(String),
    /// The server reported a failure; the text is its message.
    Server(String),
    /// The embedded database failed; the text says how.
    Sled(String),
    /// A stored value is not valid UTF-8.
    Utf8,
    /// The active segment cannot grow: its length would not fit 64 bits.
    SegmentFull,
}

/// The human-readable text of an error.
pub open spec fn error_text(e: KvsError) -> Seq<char> {
    match e {
        KvsError::KeyNotFound => "Key not found"@,
        KvsError::LogInconsistent => "Log entry is not a value"@,
        KvsError::EngineMismatch => "Engine mismatch"@,
        KvsError::Codec(_) => "Malformed record"@,
        KvsError::Protocol => "Unexpected response"@,
        KvsError::Io(m) => m@,
        KvsError::Server(m) => m@,
        KvsError::Sled(m) => m@,
        KvsError::Utf8 => "Stored value is not UTF-8"@,
        KvsError::SegmentFull => "Segment is full"@,
    }
}

impl KvsError {
    /// The human-readable text of this error.
    pub fn message(&self) -> (r: String)
        ensures
            r@ == error_text(*self),
    {
        match self {
            KvsError::KeyNotFound => "Key not found".to_owned(),
            KvsError::LogInconsistent => "Log entry is not a value".to_owned(),
            KvsError::EngineMismatch => "Engine mismatch".to_owned(),
            KvsError::Codec(_) => "Malformed record".to_owned(),
            KvsError::Protocol => "Unexpected response".to_owned(),
            KvsError::Io(m) => m.clone(),
            KvsError::Server(m) => m.clone(),
            KvsError::Sled(m) => m.clone(),
            KvsError::Utf8 => "Stored value is not UTF-8".to_owned(),
            KvsError::SegmentFull => "Segment is full".to_owned(),
        }
    }
}

} // verus!
