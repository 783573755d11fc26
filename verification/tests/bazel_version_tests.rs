use bazelrc_lsp::bazel_version::{find_closest_version, parse_bazel_version, BazelVersion};

#[test]
fn test_parse_bazel_version() {
    assert_eq!(
        parse_bazel_version("7.1.2"),
        Some(BazelVersion {
            major: 7,
            minor: 1,
            patch: 2,
            fork_owner: None,
            pre_release: None
        })
    );
    assert_eq!(
        parse_bazel_version("7.*"),
        Some(BazelVersion {
            major: 7,
            minor: 99,
            patch: 0,
            fork_owner: None,
            pre_release: None
        })
    );
    assert_eq!(
        parse_bazel_version("7.+"),
        Some(BazelVersion {
            major: 7,
            minor: 99,
            patch: 0,
            fork_owner: None,
            pre_release: None
        })
    );
    // A missing minor reads as 99: a partial version is the upper bound of
    // its range.
    assert_eq!(
        parse_bazel_version("7."),
        Some(BazelVersion {
            major: 7,
            minor: 99,
            patch: 99,
            fork_owner: None,
            pre_release: None
        })
    );
    assert_eq!(
        parse_bazel_version("7"),
        Some(BazelVersion {
            major: 7,
            minor: 99,
            patch: 99,
            fork_owner: None,
            pre_release: None
        })
    );
    assert_eq!(
        parse_bazel_version("8.1.1rc3"),
        Some(BazelVersion {
            major: 8,
            minor: 1,
            patch: 1,
            fork_owner: None,
            pre_release: None
        })
    );
    assert_eq!(
        parse_bazel_version("9.0.0-pre.20210317.1"),
        Some(BazelVersion {
            major: 9,
            minor: 0,
            patch: 0,
            fork_owner: None,
            pre_release: Some("pre.20210317.1".to_string())
        })
    );
    assert_eq!(
        parse_bazel_version("GitHubUser/8.0.0"),
        Some(BazelVersion {
            major: 8,
            minor: 0,
            patch: 0,
            fork_owner: Some("GitHubUser".to_string()),
            pre_release: None
        })
    );
    assert_eq!(
        parse_bazel_version("GitHubUser/9.1.2-pre.20210317.1"),
        Some(BazelVersion {
            major: 9,
            minor: 1,
            patch: 2,
            fork_owner: Some("GitHubUser".to_string()),
            pre_release: Some("pre.20210317.1".to_string())
        })
    );
}

#[test]
fn test_find_closest_version() {
    let versions = [
        "7.0.0",
        "7.0.1",
        "7.0.2",
        "7.1.0",
        "7.1.1",
        "7.1.2",
        "7.2.0",
        "8.0.0",
        "8.0.1",
        "9.0.0-pre.20250121.1",
    ];
    let version_strings: Vec<String> = versions.iter().map(|s| s.to_string()).collect();
    // Versions with an exact match
    assert_eq!(find_closest_version(&version_strings, "7.1.1"), "7.1.1");
    assert_eq!(find_closest_version(&version_strings, "7.2.0"), "7.2.0");
    // An outdated version for which we no longer provide flags data
    assert_eq!(find_closest_version(&version_strings, "5.0.0"), "7.0.0");
    assert_eq!(find_closest_version(&version_strings, "5.1.1"), "7.0.0");
    // Release candidate versions
    assert_eq!(find_closest_version(&version_strings, "7.1.1rc2"), "7.1.1");
    assert_eq!(find_closest_version(&version_strings, "7.1.2rc2"), "7.1.2");
    assert_eq!(
        find_closest_version(&version_strings, "7.1.2-pre.123434"),
        "7.1.2"
    );
    // A newer patch version for which we don't have flags, yet
    assert_eq!(find_closest_version(&version_strings, "7.1.4"), "7.1.2");
    assert_eq!(find_closest_version(&version_strings, "7.2.3"), "7.2.0");
    assert_eq!(find_closest_version(&version_strings, "8.0.2"), "8.0.1");
    // A newer version, where we only have a pre-release version
    assert_eq!(
        find_closest_version(&version_strings, "9.1.2"),
        "9.0.0-pre.20250121.1"
    );
    // A partial version specification
    assert_eq!(find_closest_version(&version_strings, "7.*"), "7.2.0");
    assert_eq!(find_closest_version(&version_strings, "7.+"), "7.2.0");
    assert_eq!(find_closest_version(&version_strings, "7.1"), "7.1.2");
    assert_eq!(
        find_closest_version(&version_strings, "latest"),
        "9.0.0-pre.20250121.1"
    );
    assert_eq!(
        find_closest_version(&version_strings, "latest-1"),
        "9.0.0-pre.20250121.1"
    );
}

#[test]
fn version_tuples_copy_the_key() {
    let v = parse_bazel_version("Owner/8.1.2-pre.5").unwrap();
    assert_eq!(
        v.as_tuple(),
        (
            8,
            1,
            2,
            Some("Owner".to_string()),
            Some("pre.5".to_string())
        )
    );
}

#[test]
fn version_parse_rejects_words() {
    assert_eq!(parse_bazel_version("latest"), None);
    assert_eq!(parse_bazel_version(""), None);
    // An out-of-range numeric part does not parse as a major version.
    assert_eq!(parse_bazel_version("99999"), None);
}
