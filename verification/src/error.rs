//! Errors of cache construction.

use vstd::prelude::*;

verus! {

/// Why a cache could not be built.
#[derive(Clone, Copy, Debug, PartialEq, Eq, Structural)]
pub enum ConfigError {
    /// A cache must be able to hold at least one entry.
    ZeroCapacity,
}

} // verus!
