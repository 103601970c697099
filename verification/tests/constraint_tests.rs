use elm_solve_deps::constraint::{Constraint, ConstraintParseError};
use elm_solve_deps::version::{SemVer, VersionParseError};

fn v(major: u32, minor: u32, patch: u32) -> SemVer {
    SemVer::new(major, minor, patch)
}

fn samples() -> Vec<SemVer> {
    vec![
        v(0, 0, 0),
        v(0, 9, 9),
        v(1, 0, 0),
        v(1, 0, 1),
        v(1, 0, 5),
        v(1, 0, 6),
        v(1, 1, 0),
        v(1, 9, 9),
        v(2, 0, 0),
        v(2, 0, 1),
        v(3, 0, 0),
        v(u32::MAX, u32::MAX, u32::MAX),
    ]
}

fn ranges() -> Vec<Constraint> {
    vec![
        Constraint::none(),
        Constraint::any(),
        Constraint::exact(v(1, 0, 5)),
        Constraint::higher_than(v(1, 0, 1)),
        Constraint::strictly_lower_than(v(2, 0, 0)),
        Constraint::between(v(1, 0, 0), v(2, 0, 0)),
        Constraint::between(v(1, 0, 0), v(1, 0, 6)).union(&Constraint::higher_than(v(2, 0, 1))),
    ]
}

#[test]
fn intersection_with_itself_is_the_range() {
    for r in ranges() {
        assert_eq!(r.intersection(&r).0, r.0);
    }
}

#[test]
fn intersection_with_any_is_the_range() {
    for r in ranges() {
        assert_eq!(r.intersection(&Constraint::any()).0, r.0);
    }
}

#[test]
fn intersection_with_none_is_none() {
    for r in ranges() {
        assert_eq!(r.intersection(&Constraint::none()).0, Constraint::none().0);
        assert!(r.intersection(&Constraint::none()).is_none());
    }
}

#[test]
fn union_with_the_complement_is_any() {
    for r in ranges() {
        assert_eq!(r.union(&r.negate()).0, Constraint::any().0);
    }
}

#[test]
fn complement_contains_what_the_range_does_not() {
    for r in ranges() {
        let c = r.negate();
        for s in samples() {
            assert_eq!(r.contains(s), !c.contains(s));
        }
    }
}

#[test]
fn intersection_and_union_contain_pointwise() {
    for a in ranges() {
        for b in ranges() {
            let i = a.intersection(&b);
            let u = a.union(&b);
            for s in samples() {
                assert_eq!(i.contains(s), a.contains(s) && b.contains(s));
                assert_eq!(u.contains(s), a.contains(s) || b.contains(s));
            }
        }
    }
}

#[test]
fn exact_is_satisfied_by_its_version_only() {
    let e = Constraint::exact(v(1, 0, 5));
    assert!(e.contains(v(1, 0, 5)));
    assert!(!e.contains(v(1, 0, 5).bump_patch()));
    assert!(!e.contains(v(1, 0, 4)));
    assert!(!e.contains(v(0, 0, 0)));
    assert!(!e.contains(v(2, 0, 0)));
}

#[test]
fn building_blocks_contain_what_they_say() {
    assert!(Constraint::any().contains(v(0, 0, 0)));
    assert!(Constraint::any().contains(v(u32::MAX, u32::MAX, u32::MAX)));
    assert!(!Constraint::none().contains(v(0, 0, 0)));
    assert!(Constraint::higher_than(v(1, 0, 1)).contains(v(1, 0, 1)));
    assert!(!Constraint::higher_than(v(1, 0, 1)).contains(v(1, 0, 0)));
    assert!(!Constraint::strictly_lower_than(v(2, 0, 0)).contains(v(2, 0, 0)));
    assert!(Constraint::strictly_lower_than(v(2, 0, 0)).contains(v(1, 9, 9)));
    assert!(Constraint::strictly_lower_than(v(0, 0, 0)).is_none());
    assert!(Constraint::between(v(1, 0, 0), v(2, 0, 0)).contains(v(1, 0, 0)));
    assert!(!Constraint::between(v(1, 0, 0), v(2, 0, 0)).contains(v(2, 0, 0)));
    assert!(Constraint::between(v(2, 0, 0), v(1, 0, 0)).is_none());
}

#[test]
fn lowest_version_is_the_start_of_the_range() {
    assert_eq!(Constraint::none().lowest_version(), None);
    assert_eq!(Constraint::any().lowest_version(), Some(v(0, 0, 0)));
    assert_eq!(Constraint::higher_than(v(1, 0, 1)).lowest_version(), Some(v(1, 0, 1)));
    assert!(!Constraint::any().is_none());
}

#[test]
fn constraint_is_read_from_text() {
    let c = Constraint::from_str("1.0.0 <= v < 2.0.0").unwrap();
    assert_eq!(c.0, Constraint::between(v(1, 0, 0), v(2, 0, 0)).0);
    assert!(c.contains(v(1, 0, 0)));
    assert!(c.contains(v(1, 9, 9)));
    assert!(!c.contains(v(2, 0, 0)));
    assert!(!c.contains(v(0, 9, 9)));
}

#[test]
fn inclusive_upper_bound_admits_the_bound() {
    let c = Constraint::from_str("1.0.0 <= v <= 2.0.0").unwrap();
    assert!(c.contains(v(2, 0, 0)));
    assert!(!c.contains(v(2, 0, 1)));
    let d = Constraint::from_str("1.0.0 <= v < 2.0.0").unwrap();
    assert!(!d.contains(v(2, 0, 0)));
}

#[test]
fn exclusive_lower_bound_leaves_the_bound_out() {
    let c = Constraint::from_str("1.0.0 < v < 2.0.0").unwrap();
    assert!(!c.contains(v(1, 0, 0)));
    assert!(c.contains(v(1, 0, 1)));
    assert_eq!(c.0, Constraint::between(v(1, 0, 1), v(2, 0, 0)).0);
}

#[test]
fn bounds_at_the_highest_patch_number_are_read() {
    let c = Constraint::from_str("1.0.4294967295 < v <= 2.0.4294967295").unwrap();
    assert!(!c.contains(v(1, 0, u32::MAX)));
    assert!(c.contains(v(1, 1, 0)));
    assert!(c.contains(v(2, 0, u32::MAX)));
    assert!(!c.contains(v(2, 1, 0)));
}

#[test]
fn spaces_between_the_words_do_not_count() {
    let c = Constraint::from_str("  1.0.0\t<=   v <  2.0.0 \n").unwrap();
    assert_eq!(c.0, Constraint::between(v(1, 0, 0), v(2, 0, 0)).0);
}

#[test]
fn constraint_with_another_third_word_is_refused() {
    for text in ["1.0.0 <= x < 2.0.0", "1.0.0 <= version < 2.0.0", "1.0.0 <= V < 2.0.0", "1.0.0 <= vv < 2.0.0"] {
        assert_eq!(
            Constraint::from_str(text).err(),
            Some(ConstraintParseError::InvalidFormat { full_constraint: text.to_string() })
        );
    }
}

#[test]
fn another_third_word_is_refused_before_a_bad_version_or_separator() {
    assert_eq!(
        Constraint::from_str("1.0 == x > 2").err(),
        Some(ConstraintParseError::InvalidFormat { full_constraint: "1.0 == x > 2".to_string() })
    );
}

#[test]
fn constraint_that_is_not_five_words_is_refused() {
    assert_eq!(
        Constraint::from_str("1.0.0 <= v").err(),
        Some(ConstraintParseError::InvalidFormat { full_constraint: "1.0.0 <= v".to_string() })
    );
    assert_eq!(
        Constraint::from_str("").err(),
        Some(ConstraintParseError::InvalidFormat { full_constraint: "".to_string() })
    );
    assert_eq!(
        Constraint::from_str("1.0.0 <= v < 2.0.0 x").err(),
        Some(ConstraintParseError::InvalidFormat {
            full_constraint: "1.0.0 <= v < 2.0.0 x".to_string()
        })
    );
}

#[test]
fn constraint_with_another_separator_is_refused() {
    assert_eq!(
        Constraint::from_str("1.0.0 <= v > 2.0.0").err(),
        Some(ConstraintParseError::InvalidSeparator {
            full_constraint: "1.0.0 <= v > 2.0.0".to_string()
        })
    );
    assert_eq!(
        Constraint::from_str("1.0.0 == v < 2.0.0").err(),
        Some(ConstraintParseError::InvalidSeparator {
            full_constraint: "1.0.0 == v < 2.0.0".to_string()
        })
    );
}

#[test]
fn constraint_with_a_bad_version_is_refused_before_a_bad_separator() {
    assert_eq!(
        Constraint::from_str("1.0 == v < 2.0.0").err(),
        Some(ConstraintParseError::InvalidVersion(VersionParseError::NotThreeParts {
            full_version: "1.0".to_string()
        }))
    );
    assert_eq!(
        Constraint::from_str("1.0.0 == v < 2").err(),
        Some(ConstraintParseError::InvalidVersion(VersionParseError::NotThreeParts {
            full_version: "2".to_string()
        }))
    );
}

#[test]
fn constraint_text_can_be_read_back() {
    for text in ["1.0.0 <= v < 2.0.0", "1.0.2 < v <= 1.9.9", "2.6.1 <= v <= 3.0.0"] {
        let c = Constraint::from_str(text).unwrap();
        let d = Constraint::from_str(&c.to_string()).unwrap();
        assert_eq!(c.0, d.0);
    }
    assert_eq!(
        Constraint::from_str("1.0.0 <= v < 2.0.0").unwrap().to_string(),
        "1.0.0 <= v < 2.0.0"
    );
    assert_eq!(
        Constraint::from_str("1.0.2 < v <= 1.9.9").unwrap().to_string(),
        "1.0.3 <= v < 1.9.10"
    );
}

#[test]
fn clone_is_the_same_range() {
    for r in ranges() {
        assert_eq!(r.clone().0, r.0);
    }
}

#[test]
fn range_text_is_written_by_shape() {
    assert_eq!(Constraint::none().to_string(), "∅");
    assert_eq!(Constraint::any().to_string(), "∗");
    assert_eq!(Constraint::higher_than(v(1, 0, 1)).to_string(), "1.0.1 <= v");
    assert_eq!(Constraint::exact(v(1, 0, 5)).to_string(), "1.0.5");
    assert_eq!(Constraint::exact(v(0, 0, 0)).to_string(), "0.0.0");
    assert_eq!(Constraint::strictly_lower_than(v(2, 0, 0)).to_string(), "v < 2.0.0");
    assert_eq!(Constraint::between(v(1, 0, 0), v(2, 0, 0)).to_string(), "1.0.0 <= v < 2.0.0");
    let two = Constraint::between(v(1, 0, 0), v(1, 0, 6)).union(&Constraint::higher_than(v(2, 0, 1)));
    assert_eq!(two.to_string(), "[ 1.0.0, 1.0.6 [  [ 2.0.1, ∞ [");
    let three = two.union(&Constraint::exact(v(0, 1, 0)));
    assert_eq!(three.to_string(), "[ 0.1.0, 0.1.1 [  [ 1.0.0, 1.0.6 [  [ 2.0.1, ∞ [");
}
