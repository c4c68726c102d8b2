use given::version::{PreRelease, Version};

fn semver(major: u32, minor: u32, patch: u32, pre_release: Option<PreRelease>) -> Version {
    Version::SemVer { major, minor, patch, pre_release }
}

#[test]
fn test_version_parsing() {
    let parsing_expectations = vec![
        ("1.0.0", semver(1, 0, 0, None)),
        ("1.0.0-RC4", semver(1, 0, 0, Some(PreRelease::RC(4)))),
        ("2.0-RC4", semver(2, 0, 0, Some(PreRelease::RC(4)))),
        ("1.5.5-M1", semver(1, 5, 5, Some(PreRelease::M(1)))),
        ("4.5.5.5", Version::Other("4.5.5.5".to_string())),
        ("i-hate-semver", Version::Other("i-hate-semver".to_string())),
        (
            "1.1.1-alpha",
            semver(1, 1, 1, Some(PreRelease::Other("alpha".to_string()))),
        ),
        (
            "1.1.1-alpha.5",
            semver(1, 1, 1, Some(PreRelease::Other("alpha.5".to_string()))),
        ),
        (
            "1.1.1-beta",
            semver(1, 1, 1, Some(PreRelease::Other("beta".to_string()))),
        ),
        (
            "1.1.1-beta.5",
            semver(1, 1, 1, Some(PreRelease::Other("beta.5".to_string()))),
        ),
    ];

    for (input, expected) in parsing_expectations {
        assert_eq!(Version::new(input), expected);
    }
}

#[test]
fn test_version_ordering() {
    let ordering_expectations = vec![
        (
            vec!["1.1.1", "2.0.0", "0.0.5"],
            vec!["0.0.5", "1.1.1", "2.0.0"],
        ),
        (
            vec![
                "0.5.0",
                "0.1.0-RC12",
                "0.1.0-RC13",
                "1.0.0",
                "1.0.0-RC2",
                "1.0.0-RC1",
                "1.0.0-M1",
                "1.0.0-alpha",
                "1.0.0-alpha.1",
                "2.0.0",
                "2.1.0",
                "2.0.1",
            ],
            vec![
                "0.1.0-RC12",
                "0.1.0-RC13",
                "0.5.0",
                "1.0.0-alpha",
                "1.0.0-alpha.1",
                "1.0.0-M1",
                "1.0.0-RC1",
                "1.0.0-RC2",
                "1.0.0",
                "2.0.0",
                "2.0.1",
                "2.1.0",
            ],
        ),
    ];

    for (input, expected) in ordering_expectations {
        let mut input_versions: Vec<Version> = input.iter().map(|v| Version::new(v)).collect();
        let expected_versions: Vec<Version> = expected.iter().map(|v| Version::new(v)).collect();
        input_versions.sort_by(|a, b| a.compare(b));
        assert_eq!(input_versions, expected_versions);
    }
}

#[test]
fn test_pre_release_ordering() {
    let pre_releases = vec![
        PreRelease::Other("alpha".to_string()),
        PreRelease::Other("alpha.1".to_string()),
        PreRelease::M(1),
        PreRelease::RC(1),
        PreRelease::RC(2),
    ];

    let expected_order = vec![
        PreRelease::Other("alpha".to_string()),
        PreRelease::Other("alpha.1".to_string()),
        PreRelease::M(1),
        PreRelease::RC(1),
        PreRelease::RC(2),
    ];

    let mut sorted_pre_releases = pre_releases.clone();
    sorted_pre_releases.sort_by(|a, b| a.compare(b));

    assert_eq!(sorted_pre_releases, expected_order);
}

#[test]
fn test_semver_sorts_below_other() {
    let numbered = Version::new("9.9.9");
    let raw = Version::new("i-hate-semver");
    assert!(matches!(
        numbered.compare(&raw),
        std::cmp::Ordering::Less
    ));
    assert!(matches!(raw.compare(&numbered), std::cmp::Ordering::Greater));
}

#[test]
fn test_display_round_trip() {
    assert_eq!(Version::new("1.2.3").display_string(), "1.2.3");
    assert_eq!(Version::new("1.0.0-RC4").display_string(), "1.0.0-RC4");
    assert_eq!(Version::new("2.0-RC4").display_string(), "2.0.0-RC4");
    assert_eq!(Version::new("1.1.1-alpha.5").display_string(), "1.1.1-alpha.5");
    assert_eq!(Version::new("i-hate-semver").display_string(), "i-hate-semver");
    let shown = Version::new("2.0-M7").display_string();
    assert_eq!(Version::new(&shown), Version::new("2.0-M7"));
}

#[test]
fn test_accessors() {
    let v = Version::new("1.2.3-RC4");
    assert_eq!(v.major(), Some(1));
    assert_eq!(v.minor(), Some(2));
    assert_eq!(v.patch(), Some(3));
    assert_eq!(v.pre_release(), Some(PreRelease::RC(4)));
    assert!(v.is_pre_release());
    assert!(!Version::new("1.2.3").is_pre_release());
    assert!(Version::new("not-a-version").is_pre_release());
    assert_eq!(Version::new("not-a-version").major(), None);
}

#[test]
fn test_pre_release_tag_with_non_numeric_tail_stays_whole() {
    // an RC or M prefix counts as a tier only when digits follow it
    assert_eq!(
        Version::new("1.0.0-RCx"),
        semver(1, 0, 0, Some(PreRelease::Other("RCx".to_string())))
    );
    assert_eq!(
        Version::new("1.0.0-RC"),
        semver(1, 0, 0, Some(PreRelease::Other("RC".to_string())))
    );
    assert_eq!(
        Version::new("1.0.0-M"),
        semver(1, 0, 0, Some(PreRelease::Other("M".to_string())))
    );
    assert_eq!(
        Version::new("2.0-Mx"),
        semver(2, 0, 0, Some(PreRelease::Other("Mx".to_string())))
    );
    assert_eq!(
        Version::new("1.0.0-RC1a"),
        semver(1, 0, 0, Some(PreRelease::Other("RC1a".to_string())))
    );
    // a digit run too large for the numeric type reads as 0
    assert_eq!(
        Version::new("1.0.0-RC99999999999"),
        semver(1, 0, 0, Some(PreRelease::RC(0)))
    );
}
