//! The ways in which a call can fail.

use vstd::prelude::*;

verus! {

/// Why a call was refused.
#[derive(Clone, Copy, Debug, PartialEq, Eq, Structural)]
pub enum Error {
    /// An argument does not meet what the function asks of it.
    PreconditionViolation,
    /// The formatter at hand is not that of the stable toolchain.
    ToolchainUnavailable,
}

} // verus!
