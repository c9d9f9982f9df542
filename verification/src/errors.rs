//! Error taxonomy of the engine.
//!
//! Every failure surfaced to a caller falls in one of these classes; the
//! numeric code mirrors the HTTP status family used on the wire.

use vstd::prelude::*;
use crate::amount::Amount;

verus! {

/// Classes of failure raised by the engine.
#[derive(Clone, Copy, Debug, PartialEq, Eq, Structural)]
pub enum EngineError {
    /// Malformed input; never retried.
    Validation,
    /// Invalid or missing credential; closes the session.
    Auth,
    /// Entity lookup miss.
    NotFound,
    /// Duplicate resource or self-conflict.
    Conflict,
    /// A sell was admitted against a wallet that cannot cover it.
    InsufficientBalance { available: Amount, required: Amount },
    /// Storage-layer failure; aborts the current admission.
    Persistence,
    /// Malformed frame on the wire.
    Protocol,
}

impl EngineError {
    /// The numeric code a client sees, mirroring HTTP status families.
    pub fn code(&self) -> (r: u16)
        ensures
            r == self.spec_code(),
    {
        match self {
            EngineError::Validation => 400,
            EngineError::Auth => 401,
            EngineError::NotFound => 404,
            EngineError::Conflict => 409,
            EngineError::InsufficientBalance { .. } => 400,
            EngineError::Persistence => 500,
            EngineError::Protocol => 400,
        }
    }

    /// Code of each error class.
    pub open spec fn spec_code(self) -> u16 {
        match self {
            EngineError::Validation => 400,
            EngineError::Auth => 401,
            EngineError::NotFound => 404,
            EngineError::Conflict => 409,
            EngineError::InsufficientBalance { .. } => 400,
            EngineError::Persistence => 500,
            EngineError::Protocol => 400,
        }
    }
}

} // verus!
