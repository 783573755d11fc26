use bazelrc_lsp::tokenizer::{tokenizer, Span, Token};

fn tok_span(start: usize, end: usize) -> Span {
    Span { start, end }
}

fn tokens_of(input: &str) -> Vec<(Token, Span)> {
    tokenizer(input).0
}

fn flags_only(input: &str) -> Vec<Token> {
    let (toks, errors) = tokenizer(input);
    assert!(errors.is_empty());
    toks.into_iter().map(|t| t.0).collect()
}

fn token_vec(texts: &[&str]) -> Vec<Token> {
    texts.iter().map(|s| Token::Token(s.to_string())).collect()
}

#[test]
fn test_newlines() {
    // Our tokenizer accepts empty strings
    assert_eq!(tokens_of(""), Vec::new());
    assert!(tokenizer("").1.is_empty());

    // `\n` and `\r\n` separate lines.
    // Lines can have leading and trailing whitespace.
    // We also preserve empty lines
    assert_eq!(
        tokens_of("cmd\n\r\n\ncmd -x \n"),
        Vec::from([
            (Token::Token("cmd".to_string()), tok_span(0, 3)),
            (Token::Newline, tok_span(3, 4)),
            (Token::Newline, tok_span(4, 6)),
            (Token::Newline, tok_span(6, 7)),
            (Token::Token("cmd".to_string()), tok_span(7, 10)),
            (Token::Token("-x".to_string()), tok_span(11, 13)),
            (Token::Newline, tok_span(14, 15)),
        ])
    );

    // Newlines can be escaped
    assert_eq!(
        tokens_of("cmd \\\n -x\n"),
        Vec::from([
            (Token::Token("cmd".to_string()), tok_span(0, 3)),
            (Token::EscapedNewline, tok_span(4, 6)),
            (Token::Token("-x".to_string()), tok_span(7, 9)),
            (Token::Newline, tok_span(9, 10)),
        ])
    );
}

#[test]
fn test_tokens() {
    // A simple token without escaped characters
    assert_eq!(flags_only("abc"), token_vec(&["abc"]));
    // Characters inside tokens can be escaped using `\`
    assert_eq!(flags_only("a\\bc\\d"), token_vec(&["abcd"]));
    // A `\` is escaped using another `\`
    assert_eq!(flags_only("a\\\\b"), token_vec(&["a\\b"]));
    // A `\` can also be used to escape whitespaces or tabs
    assert_eq!(flags_only("a\\ b\\\tc"), token_vec(&["a b\tc"]));

    // A token can contain be escaped using `"`
    assert_eq!(flags_only("\"a b\tc\""), token_vec(&["a b\tc"]));
    // Instead of `"`, one can also use `'` to escape
    assert_eq!(flags_only("'a b\tc'"), token_vec(&["a b\tc"]));
    // Inside `"`, other `"` can be escaped. `'` can be included unescaped
    assert_eq!(flags_only("\"a\\\"b'c\""), token_vec(&["a\"b'c"]));
    // Inside `'`, other `'` can be escaped. `"` can be included unescaped
    assert_eq!(flags_only("'a\"b\\'c'"), token_vec(&["a\"b'c"]));

    // Quoted parts can also appear in the middle of tokens
    assert_eq!(
        flags_only("abc' cd\t e\\''fg\"h i\"j"),
        token_vec(&["abc cd\t e'fgh ij"])
    );

    // A whitespace separates two tokens
    assert_eq!(flags_only("ab c"), token_vec(&["ab", "c"]));
    // Instead of a whitespace, one can also use a tab
    assert_eq!(flags_only("ab\tc"), token_vec(&["ab", "c"]));
    // Two tokens can also be separated by multiple whitespaces
    assert_eq!(flags_only("ab\t \t  c"), token_vec(&["ab", "c"]));
    // Multiple quoted tokens
    assert_eq!(flags_only("\"t 1\" 't 2'"), token_vec(&["t 1", "t 2"]));

    // A token can be continued on the next line using a `\`
    assert_eq!(flags_only("a\\\nbc"), token_vec(&["abc"]));
    // A quoted token does not continue across lines
    assert!(!tokenizer("'my\ntoken'").1.is_empty());
    // But a quoted token can contain escaped newlines
    assert_eq!(flags_only("'my\\\ntoken'"), token_vec(&["mytoken"]));

    // `#` inside a quoted token does not start a token
    assert_eq!(flags_only("'a#c'"), token_vec(&["a#c"]));
    // `#` can be escaped as part of a token
    assert_eq!(flags_only("a\\#c"), token_vec(&["a#c"]));
}

#[test]
fn tokenizer_test_comments() {
    // Comments
    assert_eq!(
        tokens_of(" # my comment\n#2nd comment"),
        vec![
            (Token::Comment(" my comment".to_string()), tok_span(1, 13)),
            (Token::Newline, tok_span(13, 14)),
            (Token::Comment("2nd comment".to_string()), tok_span(14, 26)),
        ]
    );
    // Comments can be continued across lines with `\`
    assert_eq!(
        tokens_of(" # my\\\nco\\mment"),
        vec![(Token::Comment(" my\nco\\mment".to_string()), tok_span(1, 15))]
    );

    // Comments can even start in the middle of a token, without a whitespace
    assert_eq!(
        tokens_of("flag#comment"),
        vec![
            (Token::Token("flag".to_string()), tok_span(0, 4)),
            (Token::Comment("comment".to_string()), tok_span(4, 12)),
        ]
    );
}

#[test]
fn tokenizer_reports_recoverable_errors() {
    // A lone carriage return cannot start anything: it is reported and
    // skipped, and lexing goes on.
    let (toks, errors) = tokenizer("a\rb");
    assert_eq!(
        toks,
        vec![
            (Token::Token("a".to_string()), tok_span(0, 1)),
            (Token::Token("b".to_string()), tok_span(2, 3)),
        ]
    );
    assert_eq!(errors.len(), 1);
    assert_eq!(errors[0].span, tok_span(1, 2));

    // A dangling backslash at the end of the input is an error.
    let (toks2, errors2) = tokenizer("ab\\");
    assert_eq!(toks2, vec![(Token::Token("ab".to_string()), tok_span(0, 2))]);
    assert_eq!(errors2.len(), 1);

    // An unterminated quote ends the word before the quote; the quote
    // itself is the offending character.
    let (toks3, errors3) = tokenizer("ab\"cd");
    assert_eq!(
        toks3,
        vec![
            (Token::Token("ab".to_string()), tok_span(0, 2)),
            (Token::Token("cd".to_string()), tok_span(3, 5)),
        ]
    );
    assert_eq!(errors3.len(), 1);
    assert_eq!(errors3[0].span, tok_span(2, 3));
}

#[test]
fn tokenizer_word_text_is_unescaped_span_content() {
    // The text of a word is the unescaped content of its span: quotes are
    // structural and escapes resolve, so `a\bc\d` holds the word `abcd`.
    let (toks, errors) = tokenizer("a\\bc\\d");
    assert!(errors.is_empty());
    assert_eq!(
        toks,
        vec![(Token::Token("abcd".to_string()), tok_span(0, 6))]
    );
}
