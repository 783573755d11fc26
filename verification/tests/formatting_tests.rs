use bazelrc_lsp::bazel_flags_data::load_bazel_flags;
use bazelrc_lsp::formatting::{format_token, pretty_print, FormatLineFlow};

#[test]
fn test_format_token() {
    // No escaping for common, unescaped versions
    assert_eq!(format_token("abc123"), "abc123");
    assert_eq!(format_token("--my_flag"), "--my_flag");
    assert_eq!(format_token("--my_flag=123"), "--my_flag=123");
    assert_eq!(format_token("//my/package:target"), "//my/package:target");
    assert_eq!(format_token("@a://b/c:*"), "@a://b/c:*");
    // Also, non-ASCII characters are formatted without quoting
    assert_eq!(format_token("Täst"), "Täst");
    // Whitespaces need to be escaped
    assert_eq!(format_token("--my_flag= "), "\"--my_flag= \"");
    assert_eq!(format_token("--my_flag= x"), "\"--my_flag= x\"");
    assert_eq!(format_token("a b c"), "\"a b c\"");
    // Escaping of quotes and backslashes
    assert_eq!(format_token("a\"b"), "\"a\\\"b\"");
    assert_eq!(format_token("a\\b"), "\"a\\\\b\"");
}

#[test]
fn test_pretty_print_command() {
    let flags = load_bazel_flags("7.4.0");
    let lf = FormatLineFlow::Keep;

    // Command & config names
    assert_eq!(pretty_print("build", &flags, lf).unwrap(), "build\n");
    assert_eq!(
        pretty_print("build:opt", &flags, lf).unwrap(),
        "build:opt\n"
    );
    assert_eq!(
        pretty_print("build:o\\ p\\ t", &flags, lf).unwrap(),
        "build:\"o p t\"\n"
    );
    assert_eq!(
        pretty_print("buil\" d:o p\"\\ t", &flags, lf).unwrap(),
        "\"buil d\":\"o p t\"\n"
    );
    // Invalid command & config names, but should still work
    assert_eq!(pretty_print(":opt", &flags, lf).unwrap(), ":opt\n");
}

#[test]
fn test_pretty_print_flags() {
    let flags = load_bazel_flags("7.4.0");
    let lf = FormatLineFlow::Keep;

    // Flags (also works without a command, although that is strictly
    // speaking invalid)
    assert_eq!(pretty_print("--x", &flags, lf).unwrap(), "--x\n");
    assert_eq!(
        pretty_print("--x=abc123", &flags, lf).unwrap(),
        "--x=abc123\n"
    );
    // Normalizes quoting and whitespaces
    assert_eq!(
        pretty_print("-\"-x=abc12\"3", &flags, lf).unwrap(),
        "--x=abc123\n"
    );
    assert_eq!(
        pretty_print("--\\x=a\\bc", &flags, lf).unwrap(),
        "--x=abc\n"
    );
    assert_eq!(
        pretty_print("--x=a\\ bc\"1 2 3\"", &flags, lf).unwrap(),
        "--x=\"a bc1 2 3\"\n"
    );
    assert_eq!(
        pretty_print("--x\\ =a\\ b", &flags, lf).unwrap(),
        "\"--x \"=\"a b\"\n"
    );
    // Normalizes empty strings
    assert_eq!(pretty_print("--x=\"\"", &flags, lf).unwrap(), "--x=\n");
    // Removes whitespaces between flags
    assert_eq!(
        pretty_print("--x=1    --y=2", &flags, lf).unwrap(),
        "--x=1 --y=2\n"
    );
}

#[test]
fn test_pretty_print_combined_flags() {
    let flags = load_bazel_flags("7.4.0");
    let lf = FormatLineFlow::Keep;

    // The `--copt` flag expects an argument and hence consumes the
    // following `--std=c++20`. `--std=c++20` should not raise
    // an error about an unrecognized Bazel flag.
    assert_eq!(
        pretty_print("build --copt --std=c++20", &flags, lf).unwrap(),
        "build --copt=--std=c++20\n"
    );
    // On the other hand, `--keep_going` only takes an optional value.
    // Hence, the `true` is interpreted as a separate flag, which then
    // triggers an error.
    assert_eq!(
        pretty_print("build --keep_going --foobar", &flags, lf).unwrap(),
        "build --keep_going --foobar\n"
    );

    // Leaves abbreviated flag names alone. `-cdbg` would not be valid.
    assert_eq!(
        pretty_print("build -c dbg", &flags, lf).unwrap(),
        "build -c dbg\n"
    );

    // Handles empty parameters correctly
    assert_eq!(
        pretty_print("build --x \"\"", &flags, lf).unwrap(),
        "build --x \"\"\n"
    );
    assert_eq!(
        pretty_print("build --x=\"\"", &flags, lf).unwrap(),
        "build --x=\n"
    );
}

#[test]
fn test_pretty_print_comments() {
    let flags = load_bazel_flags("7.4.0");
    let lf = FormatLineFlow::Keep;

    // Comments are re-spaced after content, and kept verbatim on their own.
    assert_eq!(
        pretty_print("build --x=1 #c\n# art   ", &flags, lf).unwrap(),
        "build --x=1 # c\n# art\n"
    );
}

#[test]
fn test_pretty_print_whitespace() {
    let flags = load_bazel_flags("7.4.0");
    let lf = FormatLineFlow::Keep;

    // Removes unnecessary whitespace
    assert_eq!(pretty_print("  build   ", &flags, lf).unwrap(), "build\n");
    assert_eq!(
        pretty_print("  build   --x=1  --y", &flags, lf).unwrap(),
        "build --x=1 --y\n"
    );
    assert_eq!(
        pretty_print("  build   --x=1  #   My comment   ", &flags, lf).unwrap(),
        "build --x=1 # My comment\n"
    );
    // We keep whitespace if there are no commands / flags on the line.
    // The line might be part of an ASCII art and we don't want to destroy
    // that
    assert_eq!(
        pretty_print("#   My comment   ", &flags, lf).unwrap(),
        "#   My comment\n"
    );
}

#[test]
fn test_pretty_print_newlines() {
    let flags = load_bazel_flags("7.4.0");
    let lf = FormatLineFlow::Keep;

    // We add a final new line, if it is missing
    assert_eq!(pretty_print("build", &flags, lf).unwrap(), "build\n");

    // We keep empty lines
    assert_eq!(
        pretty_print("build\n\nbuild\n", &flags, lf).unwrap(),
        "build\n\nbuild\n"
    );

    // Multiple empty lines are combined into a single empty line
    assert_eq!(
        pretty_print("build\n\n\n\n\nbuild\n", &flags, lf).unwrap(),
        "build\n\nbuild\n"
    );

    // Empty lines at the end of the file are removed
    assert_eq!(pretty_print("build\n\n\n", &flags, lf).unwrap(), "build\n");

    // Comments are kept on separate lines
    assert_eq!(
        pretty_print("build\n#a\ntest", &flags, lf).unwrap(),
        "build\n#a\ntest\n"
    );
}

#[test]
fn test_pretty_print_line_styles() {
    let flags = load_bazel_flags("7.4.0");

    let input = "build:c1 --a=b\n\
        build:c1 --c=d\n\
        build:c2 --e=f  --g=h\n\
        build:c3 --xyz";

    assert_eq!(
        pretty_print(input, &flags, FormatLineFlow::LineContinuations).unwrap(),
        "build:c1 \\\n    --a=b \\\n    --c=d\n\
         build:c2 \\\n    --e=f \\\n    --g=h\n\
         build:c3 --xyz\n"
    );

    assert_eq!(
        pretty_print(input, &flags, FormatLineFlow::SeparateLines).unwrap(),
        "build:c1 --a=b\n\
         build:c1 --c=d\n\
         build:c2 --e=f\n\
         build:c2 --g=h\n\
         build:c3 --xyz\n"
    );

    assert_eq!(
        pretty_print(input, &flags, FormatLineFlow::SingleLine).unwrap(),
        "build:c1 --a=b --c=d\n\
         build:c2 --e=f --g=h\n\
         build:c3 --xyz\n"
    );

    assert_eq!(
        pretty_print(
            "import \"a.bazelrc\"\nimport \"b.bazelrc\"",
            &flags,
            FormatLineFlow::SingleLine
        )
        .unwrap(),
        "import a.bazelrc\n\
         import b.bazelrc\n"
    );
}

#[test]
fn format_token_round_trips_through_the_tokenizer() {
    // Tokenizing a formatted token yields the token back: plainly rendered
    // ones verbatim, quoted ones through unescaping. (A plainly rendered
    // `#` or `'` is structural to the tokenizer and excluded.)
    let quote = String::from('"');
    let backslash = String::from('\\');
    let cases: Vec<String> = vec![
        "abc123".to_string(),
        "--my_flag=123".to_string(),
        "a b c".to_string(),
        format!("a{quote}b"),
        format!("a{backslash}b"),
        String::new(),
        "T\u{e4}st".to_string(),
        "--x= ".to_string(),
        "a\tb".to_string(),
    ];
    for tok in &cases {
        let formatted = format_token(tok);
        let (tokens, errors) = bazelrc_lsp::tokenizer::tokenizer(&formatted);
        assert!(errors.is_empty());
        assert_eq!(tokens.len(), 1);
        assert_eq!(
            tokens[0].0,
            bazelrc_lsp::tokenizer::Token::Token(tok.clone())
        );
    }
}

#[test]
fn pretty_print_reports_lexing_errors() {
    let flags = load_bazel_flags("7.4.0");
    let r = pretty_print("build \\", &flags, FormatLineFlow::Keep);
    assert_eq!(r, Err(vec!["Unrecognized character".to_string()]));
}
