use given::update_options::UpdateOptions;
use given::version::Version;

#[test]
fn test_get_options() {
    let current = Version::new("1.2.3");
    let available = vec![
        Version::new("1.2.1"),
        Version::new("1.2.3"),
        Version::new("1.2.4"),
        Version::new("2.0.0"),
    ];

    let options = UpdateOptions::new(&current, &available).unwrap();

    assert_eq!(options.major, Some(Version::new("2.0.0")));
    assert_eq!(options.minor, None);
    assert_eq!(options.patch, Some(Version::new("1.2.4")));
    assert_eq!(options.pre_release, None);
}

#[test]
fn test_get_options_with_pre_release() {
    let current = Version::new("1.2.3");
    let available = vec![
        Version::new("1.2.1"),
        Version::new("1.2.3"),
        Version::new("3.1.0-RC1"),
        Version::new("3.0.0"),
        Version::new("2.0.0"),
    ];

    let options = UpdateOptions::new(&current, &available).unwrap();

    assert_eq!(options.major, Some(Version::new("3.0.0")));
    assert_eq!(options.minor, None);
    assert_eq!(options.patch, None);
    assert_eq!(options.pre_release, Some(Version::new("3.1.0-RC1")));
}

#[test]
fn test_get_options_no_updates() {
    let current = Version::new("2.2.3");
    let available = vec![
        Version::new("1.0.0"),
        Version::new("1.1.0"),
        Version::new("1.2.0"),
        Version::new("1.2.3"),
        Version::new("1.2.3-RC1"),
        Version::new("1.2.3-M1"),
        Version::new("2.0.0"),
        Version::new("2.1.0"),
        Version::new("2.2.0"),
        Version::new("2.2.3"),
        Version::new("2.2.3-RC1"),
        Version::new("2.2.3-M1"),
    ];

    let options = UpdateOptions::new(&current, &available);

    assert_eq!(options.is_none(), true);
}

#[test]
fn test_get_options_mixed_versions() {
    let current = Version::new("2.1.0");
    let available = vec![
        Version::new("1.0.0"),
        Version::new("1.1.0"),
        Version::new("1.2.0"),
        Version::new("1.2.3"),
        Version::new("1.2.3-RC1"),
        Version::new("1.2.3-M1"),
        Version::new("2.0.0"),
        Version::new("2.1.0"),
        Version::new("2.1.1"),
        Version::new("2.1.1-RC1"),
        Version::new("2.1.1-M1"),
        Version::new("2.2.0"),
        Version::new("2.2.3"),
        Version::new("2.2.3-RC1"),
        Version::new("2.2.3-M1"),
        Version::new("3.0.0"),
        Version::new("3.0.0-RC1"),
        Version::new("3.1.0-M1"),
    ];

    let options = UpdateOptions::new(&current, &available).unwrap();

    assert_eq!(options.major, Some(Version::new("3.0.0")));
    assert_eq!(options.minor, Some(Version::new("2.2.3")));
    assert_eq!(options.patch, Some(Version::new("2.1.1")));
    assert_eq!(options.pre_release, Some(Version::new("3.1.0-M1")));
}

#[test]
fn test_pre_release_suppressed_by_stable_option() {
    let current = Version::new("1.2.3");
    let available = vec![Version::new("3.0.0"), Version::new("2.9.0-RC1")];

    let options = UpdateOptions::new(&current, &available).unwrap();

    assert_eq!(options.major, Some(Version::new("3.0.0")));
    assert_eq!(options.pre_release, None);
}

#[test]
fn test_get_options_empty_available() {
    let current = Version::new("1.2.3");
    let available: Vec<Version> = vec![];
    assert!(UpdateOptions::new(&current, &available).is_none());
}

#[test]
fn test_get_options_unparsed_current() {
    // an unparsed current version is compared as 0.0.0
    let current = Version::new("not-a-version");
    let available = vec![Version::new("0.1.0"), Version::new("1.0.0")];

    let options = UpdateOptions::new(&current, &available).unwrap();

    assert_eq!(options.major, Some(Version::new("1.0.0")));
    assert_eq!(options.minor, Some(Version::new("0.1.0")));
    assert_eq!(options.patch, None);
    assert_eq!(options.pre_release, None);
}
