use vstd::prelude::*;

verus! {

/// Every failure the core can report.
///
/// `InvalidFunctionName` and `UnknownFunction` are surfaced to the caller
/// verbatim; `ScriptError` carries the script's own error message back to the
/// function author; the remaining kinds are reported opaquely by the layer
/// around the core.
#[derive(Debug, PartialEq, Eq)]
pub enum ServiceError {
    /// The submitted name holds a character that is not an ASCII letter.
    InvalidFunctionName,
    /// No function of that name was ever submitted.
    UnknownFunction,
    /// An underlying storage fault; aborts the invocation that hit it.
    StorageError(String),
    /// A participant failed while holding a shared lock.
    LockPoisoned(String),
    /// The script raised an uncaught error; carries its message.
    ScriptError(String),
    /// The script's result holds a value with no canonical representation.
    SerializationError,
    /// A fresh runtime instance could not be constructed.
    RuntimeConstructionError(String),
}

} // verus!
