use bazelrc_lsp::bazel_flags::FlagInfo;
use bazelrc_lsp::file_utils::{resolve_bazelrc_path, workspace_root_markers};
use bazelrc_lsp::parser::parse_from_str;
use bazelrc_lsp::semantic_token::{semantic_tokens_from_lines, RCSemanticToken};

#[test]
fn resolve_bazelrc_paths() {
    // A relative path nests below the importing file's location.
    assert_eq!(
        resolve_bazelrc_path("/repo", "tools/x.bazelrc", None),
        Some("/repo/tools/x.bazelrc".to_string())
    );
    // An absolute path stands alone.
    assert_eq!(
        resolve_bazelrc_path("/repo", "/abs/x.bazelrc", None),
        Some("/abs/x.bazelrc".to_string())
    );
    // The workspace placeholder takes the workspace root the host found.
    assert_eq!(
        resolve_bazelrc_path("/repo", "%workspace%/x.bazelrc", Some("/ws")),
        Some("/ws/x.bazelrc".to_string())
    );
    assert_eq!(
        resolve_bazelrc_path("/repo", "tools/%workspace%.bazelrc", Some("/ws")),
        Some("/repo/tools//ws.bazelrc".to_string())
    );
    // Without a workspace root the placeholder cannot be resolved.
    assert_eq!(
        resolve_bazelrc_path("/repo", "%workspace%/x.bazelrc", None),
        None
    );
    assert_eq!(
        workspace_root_markers(),
        vec!["MODULE.bazel", "REPO.bazel", "WORKSPACE.bazel", "WORKSPACE"]
    );
}

#[test]
fn semantic_tokens_cover_line_symbols() {
    let lines = parse_from_str("build:opt --x=1 # c\n").lines;
    let toks = semantic_tokens_from_lines(&lines);
    assert_eq!(
        toks,
        vec![
            RCSemanticToken { start: 0, end: 5, token_type: 1 },
            RCSemanticToken { start: 5, end: 9, token_type: 2 },
            RCSemanticToken { start: 10, end: 13, token_type: 3 },
            RCSemanticToken { start: 13, end: 15, token_type: 4 },
            RCSemanticToken { start: 16, end: 19, token_type: 0 },
        ]
    );
}

#[test]
fn documentation_markdown_renders_the_descriptor() {
    let flag = FlagInfo {
        name: "keep_going".to_string(),
        has_negative_flag: Some(true),
        documentation: Some("Continue building %{product} targets: a_b.".to_string()),
        commands: vec!["build".to_string()],
        abbreviation: Some("k".to_string()),
        allows_multiple: None,
        effect_tags: vec!["EAGERNESS_TO_EXIT".to_string()],
        metadata_tags: vec!["DEPRECATED".to_string(), "EXPERIMENTAL".to_string()],
        documentation_category: Some("OUTPUT_SELECTION".to_string()),
        requires_value: None,
        old_name: None,
        deprecation_warning: None,
        bazel_versions: vec![],
    };
    assert_eq!(
        flag.get_documentation_markdown(),
        "`--keep_going` [`-k`], `--nokeep_going`\n\nContinue building Bazel targets: a\\_b\\.\n\nEffect tags: eagerness_to_exit\nTags: deprecated, experimental\nCategory: output_selection\n"
    );
}
