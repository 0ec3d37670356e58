use vstd::prelude::*;

verus! {

/// Reasons a configuration is rejected before any cryptography runs.
#[derive(Clone, Copy, Debug, PartialEq, Eq, Structural)]
pub enum ConfigIssue {
    /// Fewer than two parties.
    TooFewParties,
    /// Threshold is zero or exceeds the party count.
    ThresholdOutOfRange,
    /// Party count is not a power of two.
    PartiesNotPowerOfTwo,
}

/// Errors raised by the algebraic backends and the math helpers built on them.
#[derive(Clone, Copy, Debug, PartialEq, Eq)]
pub enum BackendError {
    /// The (backend, curve) pair is known but not enabled in this build.
    UnsupportedFeature(&'static str),
    /// The backend cannot work with the requested curve.
    UnsupportedCurve(&'static str),
    /// An arithmetic precondition failed (degree bound, inversion of zero, domain size).
    Math(&'static str),
}

/// Errors returned by the library's entry points.
#[derive(Clone, Copy, Debug, PartialEq, Eq)]
pub enum Error {
    /// The backend selection is not usable.
    Backend(BackendError),
    /// The threshold parameters are inconsistent.
    InvalidConfig(ConfigIssue),
    /// A partial-decryption set is insufficient or inconsistent.
    Protocol(&'static str),
}

} // verus!
