use bazelrc_lsp::parser::{parse_from_str, Flag, Line};
use bazelrc_lsp::tokenizer::Span;

fn psp(start: usize, end: usize) -> Span {
    Span { start, end }
}

fn spanned(text: &str, start: usize, end: usize) -> Option<(String, Span)> {
    Some((text.to_string(), psp(start, end)))
}

#[test]
fn parser_test_command_specifier() {
    // The first token is the command name
    assert_eq!(
        parse_from_str("cmd").lines,
        Vec::from([Line {
            command: spanned("cmd", 0, 3),
            span: psp(0, 3),
            ..Default::default()
        }])
    );

    // The command name might be followed by `:config-name`
    assert_eq!(
        parse_from_str("cmd:my-config").lines,
        vec![Line {
            command: spanned("cmd", 0, 3),
            config: spanned("my-config", 3, 13),
            span: psp(0, 13),
            ..Default::default()
        }]
    );

    // The config might contain arbitrarily complex escaped tokens
    assert_eq!(
        parse_from_str("cmd:my-\\ con'f ig'").lines,
        vec![Line {
            command: spanned("cmd", 0, 3),
            config: spanned("my- conf ig", 3, 18),
            span: psp(0, 18),
            ..Default::default()
        }]
    );

    // The command combined with some actual arguments
    assert_eq!(
        parse_from_str("bu'ild\\:o'pt --x=y").lines,
        vec![Line {
            command: spanned("build", 0, 7),
            config: spanned("opt", 7, 12),
            flags: vec![Flag {
                name: spanned("--x", 13, 16),
                value: spanned("y", 16, 18),
            }],
            span: psp(0, 18),
            ..Default::default()
        }]
    );

    // In case the leading command name is missing, parse flags
    assert_eq!(
        parse_from_str("--x y").lines,
        vec![Line {
            command: None,
            flags: vec![
                Flag {
                    name: spanned("--x", 0, 3),
                    value: None,
                },
                Flag {
                    name: None,
                    value: spanned("y", 4, 5),
                },
            ],
            span: psp(0, 5),
            ..Default::default()
        }]
    );

    // Parse something useful if the leading command name is missing, but a
    // config name is provided
    assert_eq!(
        parse_from_str(":opt --x").lines,
        vec![Line {
            command: None,
            config: spanned("opt", 0, 4),
            flags: vec![Flag {
                name: spanned("--x", 5, 8),
                value: None,
            }],
            span: psp(0, 8),
            ..Default::default()
        }]
    );
}

#[test]
fn test_flag_parsing() {
    // An unnamed flag with only a value
    assert_eq!(
        parse_from_str("build foo").lines,
        vec![Line {
            command: spanned("build", 0, 5),
            flags: vec![Flag {
                name: None,
                value: spanned("foo", 6, 9),
            }],
            span: psp(0, 9),
            ..Default::default()
        }]
    );

    // A long flag
    assert_eq!(
        parse_from_str("--x").lines,
        vec![Line {
            command: None,
            flags: vec![Flag {
                name: spanned("--x", 0, 3),
                value: None,
            }],
            span: psp(0, 3),
            ..Default::default()
        }]
    );

    // An abbreviated flag
    assert_eq!(
        parse_from_str("-x").lines,
        vec![Line {
            command: None,
            flags: vec![Flag {
                name: spanned("-x", 0, 2),
                value: None,
            }],
            span: psp(0, 2),
            ..Default::default()
        }]
    );

    // An `=` flag
    assert_eq!(
        parse_from_str("--x=y").lines,
        vec![Line {
            command: None,
            flags: vec![Flag {
                name: spanned("--x", 0, 3),
                value: spanned("y", 3, 5),
            }],
            span: psp(0, 5),
            ..Default::default()
        }]
    );
}

#[test]
fn parser_test_comments() {
    // Comments
    assert_eq!(
        parse_from_str(" # my comment\n#2nd comment").lines,
        vec![
            Line {
                comment: spanned(" my comment", 1, 13),
                span: psp(0, 13),
                ..Default::default()
            },
            Line {
                comment: spanned("2nd comment", 14, 26),
                span: psp(14, 26),
                ..Default::default()
            },
        ]
    );
    // Comments can be continued across lines with `\`
    assert_eq!(
        parse_from_str(" # my\\\nco\\mment").lines,
        vec![Line {
            comment: spanned(" my\nco\\mment", 1, 15),
            span: psp(0, 15),
            ..Default::default()
        }]
    );

    // Comments can even start in the middle of a token, without a whitespace
    assert_eq!(
        parse_from_str("cmd #comment").lines,
        vec![Line {
            command: spanned("cmd", 0, 3),
            comment: spanned("comment", 4, 12),
            span: psp(0, 12),
            ..Default::default()
        }]
    );
}

#[test]
fn test_empty_lines() {
    // Check that we keep also keep a representation for empty lines
    assert_eq!(
        parse_from_str("build --x=y\n\ncommon --z=w\n\n\n").lines,
        vec![
            Line {
                command: spanned("build", 0, 5),
                config: None,
                flags: vec![Flag {
                    name: spanned("--x", 6, 9),
                    value: spanned("y", 9, 11),
                }],
                comment: None,
                span: psp(0, 11),
            },
            Line {
                span: psp(12, 12),
                ..Default::default()
            },
            Line {
                command: spanned("common", 13, 19),
                config: None,
                flags: vec![Flag {
                    name: spanned("--z", 20, 23),
                    value: spanned("w", 23, 25),
                }],
                comment: None,
                span: psp(13, 25),
            },
            Line {
                span: psp(26, 26),
                ..Default::default()
            },
            Line {
                span: psp(27, 27),
                ..Default::default()
            },
        ]
    );
}

#[test]
fn test_unicode() {
    // Spans are byte offsets, also for multi-byte characters
    assert_eq!(
        parse_from_str("build:🔥 --❄️=🔥").lines,
        vec![Line {
            command: spanned("build", 0, 5),
            config: spanned("🔥", 5, 10),
            flags: vec![Flag {
                name: spanned("--❄️", 11, 19),
                value: spanned("🔥", 19, 24),
            }],
            comment: None,
            span: psp(0, 24),
        }]
    );
}

#[test]
fn parser_empty_input_yields_one_line() {
    // Even empty input yields one line record, keeping line numbering stable.
    assert_eq!(
        parse_from_str("").lines,
        vec![Line {
            span: psp(0, 0),
            ..Default::default()
        }]
    );
}
