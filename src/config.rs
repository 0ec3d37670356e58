use vstd::prelude::*;

use crate::errors::{BackendError, ConfigIssue, Error};

verus! {

/// Pairing groups a configuration can name.
#[derive(Clone, Copy, Debug, PartialEq, Eq, Structural)]
pub enum CurveId {
    Bn254,
    Bls12_381,
    /// The order-17 groups of the transparent backend.
    Z17,
}

/// Cryptographic backends a configuration can name.
#[derive(Clone, Copy, Debug, PartialEq, Eq, Structural)]
pub enum BackendId {
    Arkworks,
    Blst,
    /// `crate::transparent::TransparentBackend`.
    Transparent,
}

/// Whether the backend can, in principle, serve the curve: Arkworks both
/// pairing-friendly curves, blstrs BLS12-381 only, the transparent backend
/// its own groups only.
pub open spec fn pair_known(backend: BackendId, curve: CurveId) -> bool {
    match backend {
        BackendId::Arkworks => curve != CurveId::Z17,
        BackendId::Blst => curve == CurveId::Bls12_381,
        BackendId::Transparent => curve == CurveId::Z17,
    }
}

/// Which (backend, curve) pairs this library provides: only the transparent
/// backend is built in; the Arkworks and blstrs bindings are not.
pub open spec fn pair_enabled(backend: BackendId, curve: CurveId) -> bool {
    backend == BackendId::Transparent && curve == CurveId::Z17
}

/// Message of the error for the blstrs backend, which is not built in.
pub const BLST_NOT_BUILT: &'static str = "the blstrs backend is not built into this library";

/// Message of the error for the Arkworks backend, which is not built in.
pub const ARKWORKS_NOT_BUILT: &'static str = "the Arkworks backend is not built into this library";

/// Message of the error for bn254 under blstrs.
pub const BLST_NO_BN254: &'static str = "bn254 is not yet supported by the blstrs backend";

/// Message of the error for any other pair of a backend and a curve it cannot serve.
pub const CURVE_MISMATCH: &'static str = "the backend cannot serve this curve";

/// The answer of the backend registry for a pair.
pub open spec fn support_outcome(backend: BackendId, curve: CurveId) -> Result<(), BackendError> {
    if backend == BackendId::Blst && curve == CurveId::Bn254 {
        Err(BackendError::UnsupportedCurve(BLST_NO_BN254))
    } else if !pair_known(backend, curve) {
        Err(BackendError::UnsupportedCurve(CURVE_MISMATCH))
    } else if backend == BackendId::Arkworks {
        Err(BackendError::UnsupportedFeature(ARKWORKS_NOT_BUILT))
    } else if backend == BackendId::Blst {
        Err(BackendError::UnsupportedFeature(BLST_NOT_BUILT))
    } else {
        Ok(())
    }
}

/// Configuration that selects both the backend and the curve.
#[derive(Clone, Copy, Debug, PartialEq, Eq, Structural)]
pub struct BackendConfig {
    pub backend: BackendId,
    pub curve: CurveId,
}

impl BackendConfig {
    pub fn new(backend: BackendId, curve: CurveId) -> (r: Self)
        ensures
            r.backend == backend,
            r.curve == curve,
    {
        Self { backend, curve }
    }

    /// Checks the pair against the registry of backends built into the library.
    pub fn ensure_supported(&self) -> (r: Result<(), BackendError>)
        ensures
            r == support_outcome(self.backend, self.curve),
            r is Ok <==> pair_enabled(self.backend, self.curve),
    {
        match (self.backend, self.curve) {
            (BackendId::Transparent, CurveId::Z17) => Ok(()),
            (BackendId::Blst, CurveId::Bn254) => Err(BackendError::UnsupportedCurve(BLST_NO_BN254)),
            (BackendId::Arkworks, CurveId::Bn254) => Err(
                BackendError::UnsupportedFeature(ARKWORKS_NOT_BUILT),
            ),
            (BackendId::Arkworks, CurveId::Bls12_381) => Err(
                BackendError::UnsupportedFeature(ARKWORKS_NOT_BUILT),
            ),
            (BackendId::Blst, CurveId::Bls12_381) => Err(
                BackendError::UnsupportedFeature(BLST_NOT_BUILT),
            ),
            _ => Err(BackendError::UnsupportedCurve(CURVE_MISMATCH)),
        }
    }
}

/// Whether `n` is a power of two (`n == 2^k` for some `k`).
pub open spec fn is_pow2(n: nat) -> bool
    decreases n,
{
    if n == 0 {
        false
    } else if n == 1 {
        true
    } else {
        n % 2 == 0 && is_pow2(n / 2)
    }
}

/// High-level parameters for the threshold encryption scheme.
#[derive(Clone, Debug)]
pub struct ThresholdParameters {
    pub parties: usize,
    pub threshold: usize,
    pub chunk_size: usize,
    pub backend: BackendConfig,
    pub kzg_tau: Option<Vec<u8>>,
}

/// The error `validate` reports, checked in order: backend, party count,
/// threshold range, power-of-two domain size.
pub open spec fn validation_outcome(p: ThresholdParameters) -> Result<(), Error> {
    if support_outcome(p.backend.backend, p.backend.curve) is Err {
        Err(Error::Backend(support_outcome(p.backend.backend, p.backend.curve)->Err_0))
    } else if p.parties < 2 {
        Err(Error::InvalidConfig(ConfigIssue::TooFewParties))
    } else if p.threshold == 0 || p.threshold > p.parties {
        Err(Error::InvalidConfig(ConfigIssue::ThresholdOutOfRange))
    } else if !is_pow2(p.parties as nat) {
        Err(Error::InvalidConfig(ConfigIssue::PartiesNotPowerOfTwo))
    } else {
        Ok(())
    }
}

/// Exec check that `n` is a power of two.
pub fn is_power_of_two(n: usize) -> (r: bool)
    ensures
        r == is_pow2(n as nat),
{
    let mut m: usize = n;
    while m > 1 && m % 2 == 0
        invariant
            m <= n,
            is_pow2(n as nat) == is_pow2(m as nat),
        decreases m,
    {
        m = m / 2;
    }
    m == 1
}

impl ThresholdParameters {
    /// Rejects unusable configurations before any cryptographic work.
    pub fn validate(&self) -> (r: Result<(), Error>)
        ensures
            r == validation_outcome(*self),
            r is Ok <==> (pair_enabled(self.backend.backend, self.backend.curve) && 2
                <= self.parties && 1 <= self.threshold <= self.parties && is_pow2(
                self.parties as nat,
            )),
    {
        match self.backend.ensure_supported() {
            Err(e) => {
                return Err(Error::Backend(e));
            },
            Ok(()) => {},
        }
        if self.parties < 2 {
            return Err(Error::InvalidConfig(ConfigIssue::TooFewParties));
        }
        if self.threshold == 0 || self.threshold > self.parties {
            return Err(Error::InvalidConfig(ConfigIssue::ThresholdOutOfRange));
        }
        if !is_power_of_two(self.parties) {
            return Err(Error::InvalidConfig(ConfigIssue::PartiesNotPowerOfTwo));
        }
        Ok(())
    }
}

} // verus!
