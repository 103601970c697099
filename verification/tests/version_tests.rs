use elm_solve_deps::version::{SemVer, VersionParseError};

#[test]
fn version_text_is_major_minor_patch() {
    assert_eq!(SemVer::new(1, 0, 5).to_string(), "1.0.5");
    assert_eq!(SemVer::new(0, 19, 1).to_string(), "0.19.1");
    assert_eq!(SemVer::new(4294967295, 0, 10).to_string(), "4294967295.0.10");
}

#[test]
fn version_is_read_from_text() {
    assert_eq!(SemVer::from_str("1.2.3"), Ok(SemVer::new(1, 2, 3)));
    assert_eq!(SemVer::from_str("0.0.0"), Ok(SemVer::zero()));
    assert_eq!(SemVer::from_str("+1.02.3"), Ok(SemVer::new(1, 2, 3)));
}

#[test]
fn version_with_two_parts_is_refused() {
    assert_eq!(
        SemVer::from_str("1.2"),
        Err(VersionParseError::NotThreeParts { full_version: "1.2".to_string() })
    );
    assert_eq!(
        SemVer::from_str("1.2.3."),
        Err(VersionParseError::NotThreeParts { full_version: "1.2.3.".to_string() })
    );
}

#[test]
fn version_with_a_part_that_is_no_number_is_refused() {
    match SemVer::from_str("1.abc.3") {
        Err(VersionParseError::ParseIntError { full_version, version_part, .. }) => {
            assert_eq!(full_version, "1.abc.3");
            assert_eq!(version_part, "abc");
        }
        other => panic!("unexpected {:?}", other),
    }
    match SemVer::from_str("1.2.9876543210") {
        Err(VersionParseError::ParseIntError { version_part, .. }) => {
            assert_eq!(version_part, "9876543210");
        }
        other => panic!("unexpected {:?}", other),
    }
    match SemVer::from_str("x.y.z") {
        Err(VersionParseError::ParseIntError { version_part, .. }) => {
            assert_eq!(version_part, "x");
        }
        other => panic!("unexpected {:?}", other),
    }
}

#[test]
fn version_text_round_trip() {
    let v = SemVer::new(12, 0, 345);
    assert_eq!(SemVer::from_str(&v.to_string()), Ok(v));
    let text = "7.10.0";
    assert_eq!(SemVer::from_str(text).unwrap().to_string(), text);
}

#[test]
fn versions_are_ordered_by_major_then_minor_then_patch() {
    assert!(SemVer::new(1, 9, 9).lt(&SemVer::new(2, 0, 0)));
    assert!(SemVer::new(1, 0, 9).lt(&SemVer::new(1, 1, 0)));
    assert!(SemVer::new(1, 0, 0).lt(&SemVer::new(1, 0, 1)));
    assert!(!SemVer::new(1, 0, 0).lt(&SemVer::new(1, 0, 0)));
    assert!(SemVer::new(1, 0, 0).le(&SemVer::new(1, 0, 0)));
    assert!(!SemVer::new(1, 0, 1).le(&SemVer::new(1, 0, 0)));
}

#[test]
fn bump_patch_raises_the_patch_number() {
    assert_eq!(SemVer::new(1, 0, 5).bump_patch(), SemVer::new(1, 0, 6));
    assert_eq!(SemVer::new(1, 0, 5).successor(), Some(SemVer::new(1, 0, 6)));
    assert_eq!(SemVer::new(1, 0, u32::MAX).successor(), Some(SemVer::new(1, 1, 0)));
    assert_eq!(SemVer::new(1, u32::MAX, u32::MAX).successor(), Some(SemVer::new(2, 0, 0)));
    assert_eq!(SemVer::new(u32::MAX, u32::MAX, u32::MAX).successor(), None);
}
