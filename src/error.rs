use vstd::prelude::*;
use vstd::string::StringExecFns;

verus! {

/// The errors that the store and the transport can report.
#[derive(Debug, Clone, PartialEq, Eq)]
pub enum KvError {
    /// No entry under (table, key).
    NotFound(String, String),
    /// The request carries no command, or an ill-formed one.
    InvalidCommand(String),
    /// A frame whose length is above the protocol maximum.
    FrameTooLarge,
    /// A frame whose body cannot be read back (bad compression, truncation).
    FrameCorrupt(String),
    /// The underlying transport failed.
    TransportIo(String),
    /// The TLS handshake did not complete.
    TlsHandshakeFailed(String),
    /// The storage backend failed.
    StorageInternal(String),
}

/// The text that describes an error.
pub open spec fn error_message(e: KvError) -> Seq<char> {
    match e {
        KvError::NotFound(t, k) => "Not found for table: "@ + t@ + ", key: "@ + k@,
        KvError::InvalidCommand(s) => "Invalid command: "@ + s@,
        KvError::FrameTooLarge => "Frame is larger than the maximum size"@,
        KvError::FrameCorrupt(s) => "Frame error: "@ + s@,
        KvError::TransportIo(s) => "I/O error: "@ + s@,
        KvError::TlsHandshakeFailed(s) => "TLS error: "@ + s@,
        KvError::StorageInternal(s) => "Internal error: "@ + s@,
    }
}

fn prefixed(prefix: &str, s: &String) -> (r: String)
    ensures
        r@ == prefix@ + s@,
{
    String::from_str(prefix).concat(s.as_str())
}

impl KvError {
    /// The text that describes this error.
    pub fn message(&self) -> (r: String)
        ensures
            r@ == error_message(*self),
    {
        match self {
            KvError::NotFound(t, k) => prefixed("Not found for table: ", t).concat(", key: ").concat(
                k.as_str(),
            ),
            KvError::InvalidCommand(s) => prefixed("Invalid command: ", s),
            KvError::FrameTooLarge => String::from_str("Frame is larger than the maximum size"),
            KvError::FrameCorrupt(s) => prefixed("Frame error: ", s),
            KvError::TransportIo(s) => prefixed("I/O error: ", s),
            KvError::TlsHandshakeFailed(s) => prefixed("TLS error: ", s),
            KvError::StorageInternal(s) => prefixed("Internal error: ", s),
        }
    }
}

} // verus!
