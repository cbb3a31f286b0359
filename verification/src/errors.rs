use vstd::prelude::*;
use vstd::string::StringExecFns;

verus! {

/// The error taxonomy shared by the engine, the codec, the server state
/// machine and the client-facing helpers.  Variants that in a running
/// process would carry an operating-system error carry its text instead,
/// so that every field is a plain value.
#[derive(Clone, Debug, PartialEq, Eq)]
pub enum KvsError {
    /// An empty reply body, used where a command has no payload to print.
    EmptyResponse,
    /// An operating-system level failure, carrying its description.
    IoError(String),
    /// A failure to open a segment file for reading, carrying its description.
    BufReaderError(String),
    /// A catch-all error surfaced over the wire as its message.
    GeneralError(String),
    /// `remove` was asked for a key that is not in the store.
    KeyNotFound,
    /// A segment id could not be created or detected.
    LogIndexIDError,
    /// A segment file name is not a decimal number.
    LogIndexParseError,
    /// A synchronization primitive was poisoned.
    PoisonError(String),
    /// A record or a wire message is malformed or truncated.
    SerializationError,
    /// The server was asked to act before it finished starting.
    ServerNotInitialized,
    /// A worker thread could not be spawned.
    ThreadError(String),
    /// Bytes that should spell a string are not valid UTF-8.
    Utf8Error,
    /// The directory was created by a different engine.
    WrongEngine,
}

/// The text that each error shows, as a sequence of characters.
pub open spec fn spec_error_message(e: KvsError) -> Seq<char> {
    match e {
        KvsError::EmptyResponse => ""@,
        KvsError::IoError(s) => "IO Error: "@ + s@,
        KvsError::BufReaderError(s) => "BufReader Error: "@ + s@,
        KvsError::GeneralError(s) => "Error: "@ + s@,
        KvsError::KeyNotFound => "Key not found"@,
        KvsError::LogIndexIDError => "Can't create or detect log index ID"@,
        KvsError::LogIndexParseError => "Can't parse log index ID"@,
        KvsError::PoisonError(s) => "PoisonError: "@ + s@,
        KvsError::SerializationError => "Can't serialize data"@,
        KvsError::ServerNotInitialized => "Server Not Initialized"@,
        KvsError::ThreadError(s) => "Thread Error: "@ + s@,
        KvsError::Utf8Error => "UTF8 Error"@,
        KvsError::WrongEngine => "Wrong engine selected"@,
    }
}

impl KvsError {
    /// The text that this error shows when printed or sent over the wire.
    pub fn message(&self) -> (r: String)
        ensures
            r@ == spec_error_message(*self),
    {
        match self {
            KvsError::EmptyResponse => String::from_str(""),
            KvsError::IoError(s) => String::from_str("IO Error: ").concat(s.as_str()),
            KvsError::BufReaderError(s) => String::from_str("BufReader Error: ").concat(
                s.as_str(),
            ),
            KvsError::GeneralError(s) => String::from_str("Error: ").concat(s.as_str()),
            KvsError::KeyNotFound => String::from_str("Key not found"),
            KvsError::LogIndexIDError => String::from_str("Can't create or detect log index ID"),
            KvsError::LogIndexParseError => String::from_str("Can't parse log index ID"),
            KvsError::PoisonError(s) => String::from_str("PoisonError: ").concat(s.as_str()),
            KvsError::SerializationError => String::from_str("Can't serialize data"),
            KvsError::ServerNotInitialized => String::from_str("Server Not Initialized"),
            KvsError::ThreadError(s) => String::from_str("Thread Error: ").concat(s.as_str()),
            KvsError::Utf8Error => String::from_str("UTF8 Error"),
            KvsError::WrongEngine => String::from_str("Wrong engine selected"),
        }
    }
}

} // verus!
