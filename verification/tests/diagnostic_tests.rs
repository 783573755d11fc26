use bazelrc_lsp::bazel_flags_data::load_bazel_flags;
use bazelrc_lsp::diagnostic::{
    diagnostics_for_import_path, diagnostics_from_string, ImportPathStatus, Severity,
};
use bazelrc_lsp::tokenizer::Span;

fn test_diagnose_string(input: &str) -> Vec<String> {
    let bazel_flags = load_bazel_flags("8.0.0");
    diagnostics_from_string(input, &bazel_flags)
        .iter()
        .map(|d| d.message.clone())
        .collect()
}

#[test]
fn test_diagnose_commands() {
    // Nothing wrong with this `build` command
    assert_eq!(
        test_diagnose_string("build --remote_upload_local_results=false"),
        Vec::<&str>::new()
    );
    // The command should be named `build`, not `built`
    assert_eq!(
        test_diagnose_string("built --remote_upload_local_results=false"),
        vec!["Unknown command \"built\""]
    );
    // Completely missing command
    assert_eq!(
        test_diagnose_string("--remote_upload_local_results=false"),
        vec!["Missing command"]
    );
    // Completely missing command
    assert_eq!(
        test_diagnose_string(":opt --remote_upload_local_results=false"),
        vec!["Missing command"]
    );
}

#[test]
fn test_diagnose_config_names() {
    // Diagnose empty config names
    assert_eq!(
        test_diagnose_string("build: --disk_cache="),
        vec!["Empty configuration names are pointless"]
    );

    // Diagnose config names on commands which don't support configs
    assert_eq!(
        test_diagnose_string("startup:opt --digest_function=blake3"),
        vec!["Configuration names not supported on \"startup\" commands"]
    );
    assert_eq!(
        test_diagnose_string("import:opt \"x.bazelrc\""),
        vec!["Configuration names not supported on \"import\" commands"]
    );
    assert_eq!(
        test_diagnose_string("try-import:opt \"x.bazelrc\""),
        vec!["Configuration names not supported on \"try-import\" commands"]
    );

    // Diagnose overly complicated config names
    let config_name_diag = "Overly complicated config name. Config names should consist only of lower-case ASCII characters.";
    assert_eq!(
        test_diagnose_string("common:Uncached --disk_cache="),
        vec![config_name_diag]
    );
    assert_eq!(
        test_diagnose_string("common:-opt --disk_cache="),
        vec![config_name_diag]
    );
    assert_eq!(
        test_diagnose_string("common:opt- --disk_cache="),
        vec![config_name_diag]
    );
    assert_eq!(
        test_diagnose_string("common:2opt --disk_cache="),
        vec![config_name_diag]
    );
    assert_eq!(
        test_diagnose_string("common:opt2 --disk_cache="),
        Vec::<String>::new()
    );
    assert_eq!(
        test_diagnose_string("common:opt-2 --disk_cache="),
        Vec::<String>::new()
    );
    assert_eq!(
        test_diagnose_string("common:opt--2 --disk_cache="),
        vec![config_name_diag]
    );
    // The Bazel documentation recommends to prefix all user-specific settings
    // with an `_`. As such, config names prefixed that way shouldn't be
    // diagnosed as errors.
    assert_eq!(
        test_diagnose_string("common:_personal --disk_cache="),
        Vec::<String>::new()
    );
}

#[test]
fn test_diagnose_flags() {
    // Diagnose unknown flags
    assert_eq!(
        test_diagnose_string("build --unknown_flag"),
        vec!["Unknown flag \"--unknown_flag\""]
    );
    // Diagnose flags which are applied for the wrong command
    assert_eq!(
        test_diagnose_string("startup --disk_cache="),
        vec!["The flag \"--disk_cache\" is not supported for \"startup\". It is supported for [\"analyze-profile\", \"aquery\", \"build\", \"canonicalize-flags\", \"clean\", \"config\", \"coverage\", \"cquery\", \"dump\", \"fetch\", \"help\", \"info\", \"license\", \"mobile-install\", \"mod\", \"print_action\", \"query\", \"run\", \"shutdown\", \"sync\", \"test\", \"vendor\", \"version\"] commands, though."]
    );
    // Diagnose deprecated flags
    assert_eq!(
        test_diagnose_string("common --legacy_whole_archive"),
        vec!["The flag \"--legacy_whole_archive\" is deprecated."]
    );
    // Diagnose no_op flags
    assert_eq!(
        test_diagnose_string("common --incompatible_override_toolchain_transition"),
        vec!["The flag \"--incompatible_override_toolchain_transition\" is a no-op."]
    );
    // Diagnose abbreviated flag names
    assert_eq!(
        test_diagnose_string("build -k"),
        vec!["Use the full name \"keep_going\" instead of its abbreviation."]
    );

    // Don't diagnose custom flags
    assert_eq!(
        test_diagnose_string(
            "build --//my/package:setting=foobar
            build --no//my/package:bool_flag
            build --@dependency:my/package:bool_flag
            build --no@dependency:my/package:bool_flag"
        ),
        Vec::<String>::new()
    );
}

#[test]
fn test_diagnose_combined_flags() {
    // The `--copt` flag expects an argument and hence consumes the
    // following `--std=c++20`. `--std=c++20` should not raise
    // an error about an unrecognized Bazel flag.
    assert_eq!(
        test_diagnose_string("build --copt --std=c++20"),
        Vec::<&str>::new()
    );
    // On the other hand, `--keep_going` only takes an optional value.
    // Hence, the `true` is interpreted as a separate flag, which then
    // triggers an error.
    assert_eq!(
        test_diagnose_string("build --keep_going --foobar"),
        vec!["Unknown flag \"--foobar\""]
    );
}

#[test]
fn test_diagnose_import() {
    assert_eq!(test_diagnose_string("import"), vec!["Missing file path"]);
    assert_eq!(
        test_diagnose_string("try-import"),
        vec!["Missing file path"]
    );
    assert_eq!(
        test_diagnose_string("import --a"),
        vec!["`import` expects a file name, not a flag name"]
    );
    assert_eq!(
        test_diagnose_string("import a b"),
        vec!["`import` expects a single file name, but received multiple arguments"]
    );
}

#[test]
fn diagnose_renamed_flags() {
    assert_eq!(
        test_diagnose_string("build --remote_worker=grpc://x"),
        vec!["The flag \"--remote_worker\" was renamed to \"--remote_executor\"."]
    );
    // The renamed warning carries the deprecation marker.
    let bazel_flags = load_bazel_flags("8.0.0");
    let ds = diagnostics_from_string("build --remote_worker=grpc://x", &bazel_flags);
    assert_eq!(ds.len(), 1);
    assert_eq!(ds[0].severity, Severity::Warning);
    assert!(ds[0].deprecated);
}

#[test]
fn diagnose_severities_and_spans() {
    let bazel_flags = load_bazel_flags("8.0.0");
    let ds = diagnostics_from_string("built --x", &bazel_flags);
    assert_eq!(ds.len(), 1);
    assert_eq!(ds[0].severity, Severity::Error);
    // The diagnostic points at the command token.
    assert_eq!(ds[0].span, Span { start: 0, end: 5 });

    let ds2 = diagnostics_from_string("common --legacy_whole_archive", &bazel_flags);
    assert_eq!(ds2.len(), 1);
    assert_eq!(ds2[0].severity, Severity::Warning);
    assert!(ds2[0].deprecated);
    assert_eq!(ds2[0].span, Span { start: 7, end: 29 });
}

#[test]
fn config_name_diagnostics_are_warnings() {
    let bazel_flags = load_bazel_flags("8.0.0");
    let ds = diagnostics_from_string("build: --disk_cache=", &bazel_flags);
    assert_eq!(ds.len(), 1);
    assert_eq!(ds[0].severity, Severity::Warning);
    let ds2 = diagnostics_from_string("common:Uncached --disk_cache=", &bazel_flags);
    assert_eq!(ds2.len(), 1);
    assert_eq!(ds2[0].severity, Severity::Warning);
    // A configuration name on a command that takes none stays an error.
    let ds3 = diagnostics_from_string("startup:opt --digest_function=blake3", &bazel_flags);
    assert_eq!(ds3.len(), 1);
    assert_eq!(ds3[0].severity, Severity::Error);
}

#[test]
fn diagnose_unrecognized_characters() {
    // A lone backslash cannot be lexed: the error is recoverable and is
    // reported as a diagnostic of its own.
    let bazel_flags = load_bazel_flags("8.0.0");
    let ds = diagnostics_from_string("build \\", &bazel_flags);
    assert_eq!(ds.len(), 1);
    assert_eq!(ds[0].message, "Unrecognized character");
    assert_eq!(ds[0].span, Span { start: 6, end: 7 });
}

#[test]
fn import_path_checks_become_diagnostics() {
    let span = Span { start: 7, end: 16 };
    // `import` reports a missing file as an error...
    let d = diagnostics_for_import_path("import", span, ImportPathStatus::Missing).unwrap();
    assert_eq!(d.message, "Imported file does not exist");
    assert_eq!(d.severity, Severity::Error);
    assert_eq!(d.span, span);
    // ... while `try-import` only warns.
    let d2 = diagnostics_for_import_path("try-import", span, ImportPathStatus::Missing).unwrap();
    assert_eq!(d2.severity, Severity::Warning);
    let d3 = diagnostics_for_import_path("import", span, ImportPathStatus::NotAFile).unwrap();
    assert_eq!(d3.message, "Imported path exists, but is not a file");
    let d4 = diagnostics_for_import_path("import", span, ImportPathStatus::Unresolved).unwrap();
    assert_eq!(d4.message, "Unable to resolve file name");
    // A found file is fine.
    assert!(diagnostics_for_import_path("import", span, ImportPathStatus::Found).is_none());
}
