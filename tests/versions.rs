use bff::versions::Version;

#[test]
fn asobo_signature() {
    let v = Version::from_signature("v1.291.03.06 - Asobo Studio - Internal Cross Technology");
    assert!(matches!(v, Version::Asobo(1, 291, 3, 6)));
}

#[test]
fn asobo_legacy_signature() {
    let v = Version::from_signature("v1.06 - Asobo Studio - Internal Cross Technology");
    assert!(matches!(v, Version::AsoboLegacy(1, 6)));
}

#[test]
fn kalisto_signature() {
    let v = Version::from_signature(
        "TotemTech Data v1.4 (c) 1999-2002 Kalisto Entertainment - All right reserved",
    );
    assert!(matches!(v, Version::Kalisto(1, 4)));
}

#[test]
fn black_sheep_signature_needs_trailing_space() {
    let v = Version::from_signature("Bigfile Data v2.0 ");
    assert!(matches!(v, Version::BlackSheep(2, 0)));
    let w = Version::from_signature("Bigfile Data v2.0");
    assert!(matches!(w, Version::Other(ref s) if s == "Bigfile Data v2.0"));
}

#[test]
fn ubisoft_signature() {
    let v = Version::from_signature(
        "Opal 1.2 BigFile | Data Version v3.4 | CVT 5 | CVANIM 6 | CVMESH 7 | CVSHADER 8 |",
    );
    match v {
        Version::Ubisoft { opal_version, data_version, cvt, cvanim, cvmesh, cvshader } => {
            assert_eq!(opal_version, (1, 2));
            assert_eq!(data_version, (3, 4));
            assert_eq!((cvt, cvanim, cvmesh, cvshader), (5, 6, 7, 8));
        },
        other => panic!("unexpected {:?}", other),
    }
}

#[test]
fn unknown_signature_is_kept() {
    let v = Version::from_signature("some other engine");
    assert!(matches!(v, Version::Other(ref s) if s == "some other engine"));
}

#[test]
fn number_too_large_is_not_a_match() {
    let sig = "v4294967296.01 - Asobo Studio - Internal Cross Technology";
    let v = Version::from_signature(sig);
    assert!(matches!(v, Version::Other(ref s) if s == sig));
}

#[test]
fn missing_number_is_not_a_match() {
    let v = Version::from_signature("v.01 - Asobo Studio - Internal Cross Technology");
    assert!(matches!(v, Version::Other(_)));
}

#[test]
fn signatures_render_with_padding() {
    assert_eq!(
        Version::Asobo(1, 291, 3, 6).to_signature(),
        "v1.291.03.06 - Asobo Studio - Internal Cross Technology"
    );
    assert_eq!(
        Version::AsoboLegacy(1, 6).to_signature(),
        "v1.06 - Asobo Studio - Internal Cross Technology"
    );
    assert_eq!(Version::BlackSheep(2, 0).to_signature(), "Bigfile Data v2.0 ");
    assert_eq!(
        Version::Kalisto(10, 4).to_signature(),
        "TotemTech Data v10.4 (c) 1999-2002 Kalisto Entertainment - All right reserved"
    );
    assert_eq!(Version::Other("xyz".to_string()).to_signature(), "xyz");
}

#[test]
fn rendered_signatures_parse_back() {
    let versions = vec![
        Version::Asobo(1, 381, 67, 9),
        Version::AsoboLegacy(4294967295, 0),
        Version::Kalisto(0, 12),
        Version::BlackSheep(7, 99),
        Version::Ubisoft {
            opal_version: (1, 2),
            data_version: (3, 4),
            cvt: 5,
            cvanim: 6,
            cvmesh: 7,
            cvshader: 8,
        },
    ];
    for v in &versions {
        let back = Version::from_signature(&v.to_signature());
        assert_eq!(back.to_signature(), v.to_signature());
        assert_eq!(format!("{:?}", back), format!("{:?}", v));
    }
}
