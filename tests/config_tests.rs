use tess::config::{is_power_of_two, BackendConfig, BackendId, CurveId, ThresholdParameters};
use tess::errors::{BackendError, ConfigIssue, Error};

fn params(parties: usize, threshold: usize) -> ThresholdParameters {
    ThresholdParameters {
        parties,
        threshold,
        chunk_size: 32,
        backend: BackendConfig::new(BackendId::Transparent, CurveId::Z17),
        kzg_tau: None,
    }
}

#[test]
fn valid_configuration_passes() {
    assert_eq!(params(16, 3).validate(), Ok(()));
    assert_eq!(params(2048, 3).validate(), Ok(()));
    assert_eq!(params(2, 2).validate(), Ok(()));
}

#[test]
fn non_power_of_two_parties_rejected() {
    assert_eq!(
        params(15, 3).validate(),
        Err(Error::InvalidConfig(ConfigIssue::PartiesNotPowerOfTwo))
    );
}

#[test]
fn threshold_out_of_range_rejected() {
    assert_eq!(
        params(16, 0).validate(),
        Err(Error::InvalidConfig(ConfigIssue::ThresholdOutOfRange))
    );
    assert_eq!(
        params(16, 17).validate(),
        Err(Error::InvalidConfig(ConfigIssue::ThresholdOutOfRange))
    );
}

#[test]
fn too_few_parties_rejected() {
    assert_eq!(
        params(1, 1).validate(),
        Err(Error::InvalidConfig(ConfigIssue::TooFewParties))
    );
    assert_eq!(
        params(0, 1).validate(),
        Err(Error::InvalidConfig(ConfigIssue::TooFewParties))
    );
}

#[test]
fn backend_registry() {
    let transparent = BackendConfig::new(BackendId::Transparent, CurveId::Z17);
    assert_eq!(transparent.ensure_supported(), Ok(()));
    for curve in [CurveId::Bn254, CurveId::Bls12_381] {
        assert!(matches!(
            BackendConfig::new(BackendId::Arkworks, curve).ensure_supported(),
            Err(BackendError::UnsupportedFeature(_))
        ));
        assert!(matches!(
            BackendConfig::new(BackendId::Transparent, curve).ensure_supported(),
            Err(BackendError::UnsupportedCurve(_))
        ));
    }
    assert!(matches!(
        BackendConfig::new(BackendId::Blst, CurveId::Bls12_381).ensure_supported(),
        Err(BackendError::UnsupportedFeature(_))
    ));
    assert_eq!(
        BackendConfig::new(BackendId::Blst, CurveId::Bn254).ensure_supported(),
        Err(BackendError::UnsupportedCurve("bn254 is not yet supported by the blstrs backend"))
    );
    assert!(matches!(
        BackendConfig::new(BackendId::Arkworks, CurveId::Z17).ensure_supported(),
        Err(BackendError::UnsupportedCurve(_))
    ));
    let mut p = params(16, 3);
    p.backend = BackendConfig::new(BackendId::Arkworks, CurveId::Bn254);
    assert!(matches!(
        p.validate(),
        Err(Error::Backend(BackendError::UnsupportedFeature(_)))
    ));
}

#[test]
fn unsupported_backend_fails_validation_first() {
    let mut p = params(15, 0);
    p.backend = BackendConfig::new(BackendId::Blst, CurveId::Bn254);
    assert!(matches!(
        p.validate(),
        Err(Error::Backend(BackendError::UnsupportedCurve(_)))
    ));
}

#[test]
fn power_of_two_check() {
    assert!(!is_power_of_two(0));
    assert!(is_power_of_two(1));
    assert!(is_power_of_two(2));
    assert!(!is_power_of_two(6));
    assert!(is_power_of_two(1 << 40));
    assert!(!is_power_of_two(usize::MAX));
}
