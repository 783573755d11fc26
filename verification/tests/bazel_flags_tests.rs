use bazelrc_lsp::bazel_flags::{combine_key_value_flags, FlagLookupType};
use bazelrc_lsp::bazel_flags_data::load_bazel_flags;
use bazelrc_lsp::parser::parse_from_str;

#[test]
fn test_flags() {
    let flags = load_bazel_flags("7.1.0");
    let commands = flags.flags_by_commands.keys();
    assert!(commands.contains(&"build".to_string()));
    assert!(commands.contains(&"clean".to_string()));
    assert!(commands.contains(&"test".to_string()));
    assert!(commands.contains(&"common".to_string()));

    // Can lookup a flag by its invocation
    let preemptible_info = flags.get_by_invocation("--preemptible");
    assert_eq!(
        preemptible_info
            .unwrap()
            .1
            .commands
            .iter()
            .map(|n| n.to_string())
            .collect::<Vec<_>>(),
        vec!["startup"]
    );

    // Supports both short and long forms
    assert_eq!(
        flags.get_by_invocation("-k").map(|r| r.1),
        flags.get_by_invocation("--keep_going").map(|r| r.1)
    );

    // The `remote_cache` is valid for at least one command. Hence, it should
    // be in `common`.
    assert!(flags
        .flags_by_commands
        .get("common")
        .unwrap()
        .iter()
        .any(|id| { flags.flags[*id].name == "remote_cache" }));
    assert!(flags
        .flags_by_commands
        .get("always")
        .unwrap()
        .iter()
        .any(|id| flags.flags[*id].name == "remote_cache"));
}

// Test that different flags are available in different Bazel versions
#[test]
fn test_flag_versions() {
    let bazel7_flags = load_bazel_flags("7.0.0");
    let bazel8_flags = load_bazel_flags("8.0.0");
    let bazel9_flags = load_bazel_flags("9.0.0");

    // `python3_path` was removed in Bazel 8
    assert!(bazel7_flags.flags_by_name.contains_key("python3_path"));
    assert!(!bazel8_flags.flags_by_name.contains_key("python3_path"));
    assert!(!bazel9_flags.flags_by_name.contains_key("python3_path"));
}

#[test]
fn lookup_reports_how_a_name_resolved() {
    let flags = load_bazel_flags("8.0.0");

    let (kind, info) = flags.get_by_invocation("--keep_going").unwrap();
    assert_eq!(kind, FlagLookupType::CurrentName);
    assert_eq!(info.name, "keep_going");

    // The negated form resolves to the same flag.
    let (kind_no, info_no) = flags.get_by_invocation("--nokeep_going").unwrap();
    assert_eq!(kind_no, FlagLookupType::CurrentName);
    assert_eq!(info_no.name, "keep_going");

    // A trailing `=` is ignored.
    let (_, info_eq) = flags.get_by_invocation("--keep_going=").unwrap();
    assert_eq!(info_eq.name, "keep_going");

    // An abbreviation resolves through the abbreviation index.
    let (kind_ab, info_ab) = flags.get_by_invocation("-k").unwrap();
    assert_eq!(kind_ab, FlagLookupType::Abbreviation);
    assert_eq!(info_ab.name, "keep_going");

    // A historical name resolves through the old-name index.
    let (kind_old, info_old) = flags.get_by_invocation("--remote_worker").unwrap();
    assert_eq!(kind_old, FlagLookupType::OldName);
    assert_eq!(info_old.name, "remote_executor");

    // Custom settings and unknown names do not resolve.
    assert!(flags.get_by_invocation("---x").is_none());
    assert!(flags.get_by_invocation("--no_such_flag_exists").is_none());
    assert!(flags.get_by_invocation("plain").is_none());
}

#[test]
fn combiner_absorbs_the_next_flag() {
    let flags = load_bazel_flags("8.0.0");

    // `--copt` requires a value, so it absorbs the following token.
    let mut lines = parse_from_str("build --copt --std=c++20").lines;
    combine_key_value_flags(&mut lines, &flags);
    assert_eq!(lines[0].flags.len(), 1);
    let combined = &lines[0].flags[0];
    assert_eq!(combined.name.as_ref().unwrap().0, "--copt");
    assert_eq!(combined.value.as_ref().unwrap().0, "--std=c++20");
    // The absorbed value's span covers the absorbed token.
    assert_eq!(combined.value.as_ref().unwrap().1.start, 13);
    assert_eq!(combined.value.as_ref().unwrap().1.end, 24);

    // `--keep_going` does not require a value: nothing is absorbed.
    let mut lines2 = parse_from_str("build --keep_going --foobar").lines;
    combine_key_value_flags(&mut lines2, &flags);
    assert_eq!(lines2[0].flags.len(), 2);
}

#[test]
fn combiner_is_idempotent_on_combined_lines() {
    // A combined flag carries its value and absorbs nothing further, so a
    // second pass changes nothing — also on `--copt a b`, where only `a` is
    // absorbed and `b` stays a flag of its own.
    let flags = load_bazel_flags("8.0.0");
    let mut once = parse_from_str(
        "build --keep_going --copt x\nbuild --copt --std=c++20\nbuild --copt a b",
    )
    .lines;
    combine_key_value_flags(&mut once, &flags);
    assert_eq!(once[2].flags.len(), 2);
    let mut twice = once.clone();
    combine_key_value_flags(&mut twice, &flags);
    assert_eq!(once, twice);
}

#[test]
fn combiner_leaves_flags_that_already_carry_a_value() {
    // A value-consuming flag that already has its value is complete: the
    // following token stays a flag of its own.
    let flags = load_bazel_flags("8.0.0");
    let mut lines = parse_from_str("build --copt=x y").lines;
    combine_key_value_flags(&mut lines, &flags);
    assert_eq!(lines[0].flags.len(), 2);
    assert_eq!(lines[0].flags[0].value.as_ref().unwrap().0, "x");
    assert_eq!(lines[0].flags[1].value.as_ref().unwrap().0, "y");
}

#[test]
fn flag_predicates_follow_the_descriptor() {
    let flags = load_bazel_flags("8.0.0");
    let (_, lwa) = flags.get_by_invocation("--legacy_whole_archive").unwrap();
    assert!(lwa.is_deprecated());
    assert!(!lwa.is_noop());
    let (_, noop) = flags
        .get_by_invocation("--incompatible_override_toolchain_transition")
        .unwrap();
    assert!(noop.is_noop());
    assert!(!noop.is_deprecated());
    let (_, copt) = flags.get_by_invocation("--copt").unwrap();
    assert!(copt.get_requires_value());
    assert!(copt.supports_command("build"));
    assert!(copt.supports_command("common"));
    assert!(copt.supports_command("always"));
    assert!(!copt.supports_command("startup"));
}
