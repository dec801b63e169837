//! The ways in which a protocol list can be refused.

use vstd::prelude::*;

verus! {

/// Why a text, a range or a numeric protocol identifier was refused.
#[derive(Clone, Copy, Debug, PartialEq, Eq, Structural)]
pub enum ProtoverError {
    /// Two ranges given for the same protocol share a version.
    Overlap,
    /// A range whose lower bound is above its upper bound.
    LowGreaterThanHigh,
    /// The text does not follow the grammar, or a name is too long.
    Unparseable,
    /// A version above [`MAX_VERSION`](crate::text::MAX_VERSION).
    ExceedsMax,
    /// A protocol that is named by two entries of one list.
    Duplicate,
    /// A number that stands for no known protocol, or a name that is
    /// not one of the known ones where a known one is asked for.
    UnknownProtocol,
}

} // verus!
