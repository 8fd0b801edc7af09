use vstd::prelude::*;

use crate::errors::ServiceError;
use crate::json::json_of;
use crate::json::to_json_text;
use crate::value::CanonicalValue;

verus! {

/// How one script evaluation ended. The sandboxed runtime reports exactly one
/// of these for every invocation; each is terminal, none is retried, and none
/// touches registry or storage state by itself.
pub enum ScriptOutcome {
    /// The last top-level expression produced this canonical value.
    Completed(CanonicalValue),
    /// The script raised an uncaught error; the message is carried verbatim.
    Threw(String),
    /// The result was cyclic, held a function value, or was otherwise opaque,
    /// so it has no canonical representation.
    NotRepresentable,
    /// No runtime instance could be constructed for this invocation.
    EngineFailure(String),
}

/// Turns the outcome of one script evaluation into the invocation result: a
/// completed script yields the canonical JSON text of its value, an uncaught
/// script error yields `ScriptError` carrying its message, a non-representable
/// result yields `SerializationError`, and a runtime-construction failure
/// yields `RuntimeConstructionError` — never a partial or fallback result.
pub fn finish_invocation(outcome: ScriptOutcome) -> (r: Result<String, ServiceError>)
    ensures
        match outcome {
            ScriptOutcome::Completed(v) => r matches Ok(t) && t@ == json_of(v),
            ScriptOutcome::Threw(m) => r == Err::<String, ServiceError>(
                ServiceError::ScriptError(m),
            ),
            ScriptOutcome::NotRepresentable => r == Err::<String, ServiceError>(
                ServiceError::SerializationError,
            ),
            ScriptOutcome::EngineFailure(m) => r == Err::<String, ServiceError>(
                ServiceError::RuntimeConstructionError(m),
            ),
        },
{
    match outcome {
        ScriptOutcome::Completed(v) => Ok(to_json_text(&v)),
        ScriptOutcome::Threw(m) => Err(ServiceError::ScriptError(m)),
        ScriptOutcome::NotRepresentable => Err(ServiceError::SerializationError),
        ScriptOutcome::EngineFailure(m) => Err(ServiceError::RuntimeConstructionError(m)),
    }
}

} // verus!
