//! Errors of the public interface.

use vstd::prelude::*;

verus! {

/// Which rule a configuration breaks.
#[derive(Clone, Copy, Debug, PartialEq, Eq, Structural)]
pub enum ConfigIssue {
    /// The ring degree is not a power of two of at least four.
    RingDegree,
    /// `gamma0` is not a power of two in `1 ..= n / 2`.
    Gamma0,
    /// `gamma1` is not a power of two in `1 ..= n / 2`.
    Gamma1,
    /// `gamma2` is not a power of two in `1 ..= n / 2`.
    Gamma2,
    /// The torus precision is not a multiple of the limb width above 16 bits.
    Precision,
    /// The modulus after packing exceeds the torus precision.
    Qtilde,
    /// A payload does not fit a column.
    PayloadHeight,
}

/// Which construction a message belongs to.
#[derive(Clone, Copy, Debug, PartialEq, Eq, Structural)]
pub enum CollapseKind {
    Interpolation,
    Recursion,
}

/// Errors of the fallible constructors, queries and updates.
#[derive(Clone, Copy, Debug, PartialEq, Eq, Structural)]
pub enum PirError {
    /// A database dimension is zero.
    InvalidLayout { rows: usize, cols: usize },
    /// A configuration breaks a rule.
    InvalidConfig { issue: ConfigIssue },
    /// A payload index is not below the capacity.
    PayloadOutOfBounds { index: usize, capacity: usize },
    /// A write reaches past the capacity.
    ShardOutOfBounds { start: usize, len: usize, capacity: usize },
    /// A query of the other construction.
    WrongQueryVariant { expected: CollapseKind, found: CollapseKind },
    /// A response of the other construction.
    WrongResponseVariant { expected: CollapseKind, found: CollapseKind },
}

} // verus!
