//! Error conditions of the funding-round engine.
//!
//! Every operation that can be refused reports which condition refused it,
//! and the caller decides whether to recover or abort.

use vstd::prelude::*;

verus! {

/// The conditions under which an operation of the engine is refused.
#[derive(Clone, Copy, Debug, PartialEq, Eq, Structural)]
pub enum FundingError {
    /// A supplied value is outside the accepted range (a zero matching pool).
    InvalidArgument,
    /// A project with the same identifier is already registered.
    DuplicateKey,
    /// A contribution targets a project identifier that is not registered.
    NotFound,
    /// The allocation was requested before the matching pool was set.
    PreconditionFailed,
    /// Accepting the amount would push a running total past the largest
    /// representable whole-unit amount.
    Overflow,
}

} // verus!
