use bevy_book::versioning::{ChangeType, MigrationStep, SemVer, VersionRange};

#[test]
fn semver_parse() {
    let v = SemVer::parse("1.2.3").unwrap();
    assert_eq!(v, SemVer::new(1, 2, 3));
}

#[test]
fn semver_parse_with_v() {
    let v = SemVer::parse("v0.19.0").unwrap();
    assert_eq!(v, SemVer::new(0, 19, 0));
}

#[test]
fn semver_parse_invalid() {
    assert!(SemVer::parse("1.2").is_err());
    assert!(SemVer::parse("abc").is_err());
}

#[test]
fn semver_parse_error_messages() {
    assert_eq!(SemVer::parse("1.2").unwrap_err(), "Expected MAJOR.MINOR.PATCH, got '1.2'");
    assert_eq!(
        SemVer::parse("x.2.3").unwrap_err(),
        "Invalid major: invalid digit found in string"
    );
    assert_eq!(
        SemVer::parse("1..3").unwrap_err(),
        "Invalid minor: cannot parse integer from empty string"
    );
    assert_eq!(
        SemVer::parse("1.2.99999999999").unwrap_err(),
        "Invalid patch: number too large to fit in target type"
    );
}

#[test]
fn semver_to_string_parses_back() {
    let v = SemVer::new(3, 14, 159);
    assert_eq!(v.to_string(), "3.14.159");
    assert_eq!(SemVer::parse(&v.to_string()).unwrap(), v);
}

#[test]
fn semver_ordering() {
    let v1 = SemVer::new(1, 0, 0);
    let v2 = SemVer::new(1, 0, 1);
    let v3 = SemVer::new(1, 1, 0);
    let v4 = SemVer::new(2, 0, 0);

    assert!(v1 < v2);
    assert!(v2 < v3);
    assert!(v3 < v4);
}

#[test]
fn change_type_major() {
    let from = SemVer::new(1, 0, 0);
    let to = SemVer::new(2, 0, 0);
    assert_eq!(to.change_type(&from), ChangeType::Major);
    assert!(to.change_type(&from).requires_migration());
}

#[test]
fn change_type_minor() {
    let from = SemVer::new(0, 18, 0);
    let to = SemVer::new(0, 19, 0);
    assert_eq!(to.change_type(&from), ChangeType::Minor);
    assert!(!to.change_type(&from).requires_migration());
}

#[test]
fn change_type_patch() {
    let from = SemVer::new(0, 19, 0);
    let to = SemVer::new(0, 19, 1);
    assert_eq!(to.change_type(&from), ChangeType::Patch);
}

#[test]
fn change_type_none() {
    let v = SemVer::new(1, 0, 0);
    assert_eq!(v.change_type(&v), ChangeType::Unchanged);
}

#[test]
fn change_type_downgrade() {
    let from = SemVer::new(1, 2, 0);
    let to = SemVer::new(1, 1, 9);
    assert_eq!(to.change_type(&from), ChangeType::Downgrade);
    assert!(!to.change_type(&from).requires_migration());
    assert_eq!(ChangeType::Downgrade.description(), "Version downgraded (unusual)");
}

#[test]
fn semver_compatible() {
    let v1 = SemVer::new(0, 19, 0);
    let v2 = SemVer::new(0, 19, 5);
    let v3 = SemVer::new(0, 20, 0);
    let v4 = SemVer::new(1, 0, 0);

    assert!(v1.is_compatible_with(&v2));
    assert!(v1.is_compatible_with(&v3));

    assert!(!v1.is_compatible_with(&v4));
}

#[test]
fn version_range_satisfies() {
    let range = VersionRange {
        min: Some(SemVer::new(0, 18, 0)),
        max: Some(SemVer::new(0, 19, u32::MAX)),
    };

    assert!(range.satisfies(&SemVer::new(0, 18, 0)));
    assert!(range.satisfies(&SemVer::new(0, 19, 0)));
    assert!(!range.satisfies(&SemVer::new(0, 17, 0)));
}

#[test]
fn version_range_open_ends() {
    let range = VersionRange { min: None, max: None };
    assert!(range.satisfies(&SemVer::new(9, 9, 9)));
    let upper = VersionRange { min: None, max: Some(SemVer::new(1, 0, 0)) };
    assert!(!upper.satisfies(&SemVer::new(1, 0, 1)));
}

#[test]
fn at_least() {
    let v = SemVer::new(0, 19, 0);
    assert!(v.at_least(&SemVer::new(0, 18, 0)));
    assert!(v.at_least(&SemVer::new(0, 19, 0)));
    assert!(!v.at_least(&SemVer::new(0, 20, 0)));
    assert!(!v.at_least(&SemVer::new(1, 0, 0)));
}

#[test]
fn migration_step_example() {
    let step = MigrationStep {
        from_version: SemVer::new(0, 18, 0),
        to_version: SemVer::new(0, 19, 0),
        description: "Trigger<E> renamed to On<E>".to_string(),
        code_before: "fn observer(trigger: Trigger<MyEvent>)".to_string(),
        code_after: "fn observer(on: On<MyEvent>)".to_string(),
    };

    assert_eq!(step.to_version.change_type(&step.from_version), ChangeType::Minor);
    assert!(step.description.contains("Trigger"));
    assert!(step.code_after.contains("On<"));
}

#[test]
fn bevy_version_compatibility() {
    let bevy_18 = SemVer::new(0, 18, 0);
    let bevy_19 = SemVer::new(0, 19, 0);

    assert!(bevy_19.change_type(&bevy_18) == ChangeType::Minor);
    assert!(bevy_19.is_compatible_with(&bevy_18));
}
