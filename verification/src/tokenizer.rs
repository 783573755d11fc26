//! Tokenizer for `bazelrc` files.
//!
//! The syntax accepted by `bazelrc` files is implementation-defined by the
//! build tool and somewhat ad-hoc: words may mix unquoted, escaped and quoted
//! segments, comments may be continued across physical lines, and newlines
//! may be escaped. Lexing never fails outright: an offending character is
//! reported as a recoverable error and scanning resumes after it.
//!
//! The functions `scan_word`, `scan_comment` and `spec_step` below are the
//! definition of the token grammar; the executable tokenizer is proved to
//! produce exactly the tokens and errors that this definition describes.

use vstd::prelude::*;

use crate::text::{char_utf8_width, utf8_len, utf8_prefix_len};

verus! {

/// A half-open byte-offset range into the source text.
#[derive(Debug, Clone, Copy, PartialEq, Eq, Structural, Default)]
pub struct Span {
    pub start: usize,
    pub end: usize,
}

impl Span {
    pub open spec fn spec_contains(self, pos: usize) -> bool {
        self.start <= pos < self.end
    }

    /// Whether `pos` lies inside this half-open range.
    pub fn contains(self, pos: usize) -> (r: bool)
        ensures
            r == self.spec_contains(pos),
    {
        self.start <= pos && pos < self.end
    }
}

/// One lexical token. `Token` holds a word's unescaped text, `Comment` the
/// comment text after `#` with line continuations replaced by newlines.
#[derive(Debug, Clone, PartialEq, Eq, Hash)]
pub enum Token {
    Token(String),
    Comment(String),
    Newline,
    EscapedNewline,
}

/// Mathematical counterpart of [`Token`], over character sequences.
pub enum TokenV {
    Token(Seq<char>),
    Comment(Seq<char>),
    Newline,
    EscapedNewline,
}

impl View for Token {
    type V = TokenV;

    open spec fn view(&self) -> TokenV {
        match self {
            Token::Token(t) => TokenV::Token(t@),
            Token::Comment(t) => TokenV::Comment(t@),
            Token::Newline => TokenV::Newline,
            Token::EscapedNewline => TokenV::EscapedNewline,
        }
    }
}

/// A recoverable lexing error: one offending character that was skipped.
#[derive(Debug, Clone, Copy, PartialEq, Eq, Structural)]
pub struct LexError {
    pub span: Span,
}

/// A token as the grammar describes it: its value and its half-open
/// character-index range in the source.
pub struct SpecToken {
    pub v: TokenV,
    pub start: int,
    pub end: int,
}

/// A lexing error as the grammar describes it: the character index of the
/// offending character.
pub struct SpecLexError {
    pub pos: int,
}

/// Space and tab separate tokens and are otherwise insignificant.
pub open spec fn is_space_char(c: char) -> bool {
    c == ' ' || c == '\t'
}

pub open spec fn is_newline_char(c: char) -> bool {
    c == '\n' || c == '\r'
}

/// The token separators: whitespace plus the structural characters.
pub open spec fn is_special_char(c: char) -> bool {
    is_space_char(c) || is_newline_char(c) || c == '"' || c == '\'' || c == '#'
}

/// Characters that belong to a word without any escaping.
pub open spec fn is_raw_word_char(c: char) -> bool {
    c != '\\' && !is_special_char(c)
}

/// Position right after a newline starting at `i`: either `\n` or `\r\n`.
pub open spec fn newline_end(s: Seq<char>, i: int) -> Option<int> {
    if 0 <= i < s.len() && s[i] == '\n' {
        Some(i + 1)
    } else if 0 <= i && i + 1 < s.len() && s[i] == '\r' && s[i + 1] == '\n' {
        Some(i + 2)
    } else {
        None
    }
}

/// Scans a word starting inside the source at `j`, with `text` the characters
/// collected so far. `open` is `Some((q, opos, otext))` while inside a quoted
/// segment that was opened with `q` at position `opos`, where `otext` was the
/// collected text right before the opening quote. Returns the word's text and
/// the position right after it.
///
/// A word is a non-empty run of unquoted characters (raw characters, `\X`
/// escapes, and escaped newlines which contribute nothing) and quoted
/// segments (`"…"` or `'…'`, inside which the other structural characters
/// are literal). A quoted segment does not span an unescaped newline: if the
/// closing quote is missing, the word ends right before the opening quote.
pub open spec fn scan_word(
    s: Seq<char>,
    j: int,
    text: Seq<char>,
    open: Option<(char, int, Seq<char>)>,
) -> (Seq<char>, int)
    decreases s.len() - j,
{
    if j < 0 || j >= s.len() {
        match open {
            None => (text, j),
            Some((q, opos, otext)) => (otext, opos),
        }
    } else {
        let c = s[j];
        match open {
            None => {
                if is_raw_word_char(c) {
                    scan_word(s, j + 1, text.push(c), None)
                } else if c == '\\' {
                    if j + 1 < s.len() && !is_newline_char(s[j + 1]) {
                        scan_word(s, j + 2, text.push(s[j + 1]), None)
                    } else if j + 1 < s.len() && s[j + 1] == '\n' {
                        scan_word(s, j + 2, text, None)
                    } else if j + 2 < s.len() && s[j + 1] == '\r' && s[j + 2] == '\n' {
                        scan_word(s, j + 3, text, None)
                    } else {
                        (text, j)
                    }
                } else if c == '"' || c == '\'' {
                    scan_word(s, j + 1, text, Some((c, j, text)))
                } else {
                    (text, j)
                }
            },
            Some((q, opos, otext)) => {
                if c == q {
                    scan_word(s, j + 1, text, None)
                } else if is_newline_char(c) {
                    (otext, opos)
                } else if c == '\\' {
                    if j + 1 < s.len() && !is_newline_char(s[j + 1]) {
                        scan_word(s, j + 2, text.push(s[j + 1]), open)
                    } else if j + 1 < s.len() && s[j + 1] == '\n' {
                        scan_word(s, j + 2, text, open)
                    } else if j + 2 < s.len() && s[j + 1] == '\r' && s[j + 2] == '\n' {
                        scan_word(s, j + 3, text, open)
                    } else {
                        (otext, opos)
                    }
                } else {
                    scan_word(s, j + 1, text.push(c), open)
                }
            },
        }
    }
}

pub proof fn lemma_scan_word_bounds(
    s: Seq<char>,
    j: int,
    text: Seq<char>,
    open: Option<(char, int, Seq<char>)>,
)
    requires
        0 <= j <= s.len(),
        open matches Some((q, opos, otext)) ==> 0 <= opos <= j,
    ensures
        scan_word(s, j, text, open).1 <= s.len(),
        match open {
            None => scan_word(s, j, text, open).1 >= j,
            Some((q, opos, otext)) => scan_word(s, j, text, open).1 >= opos,
        },
    decreases s.len() - j,
{
    if j < s.len() {
        let c = s[j];
        match open {
            None => {
                if is_raw_word_char(c) {
                    lemma_scan_word_bounds(s, j + 1, text.push(c), None);
                } else if c == '\\' {
                    if j + 1 < s.len() && !is_newline_char(s[j + 1]) {
                        lemma_scan_word_bounds(s, j + 2, text.push(s[j + 1]), None);
                    } else if j + 1 < s.len() && s[j + 1] == '\n' {
                        lemma_scan_word_bounds(s, j + 2, text, None);
                    } else if j + 2 < s.len() && s[j + 1] == '\r' && s[j + 2] == '\n' {
                        lemma_scan_word_bounds(s, j + 3, text, None);
                    }
                } else if c == '"' || c == '\'' {
                    lemma_scan_word_bounds(s, j + 1, text, Some((c, j, text)));
                }
            },
            Some((q, opos, otext)) => {
                if c == q {
                    lemma_scan_word_bounds(s, j + 1, text, None);
                } else if is_newline_char(c) {
                } else if c == '\\' {
                    if j + 1 < s.len() && !is_newline_char(s[j + 1]) {
                        lemma_scan_word_bounds(s, j + 2, text.push(s[j + 1]), open);
                    } else if j + 1 < s.len() && s[j + 1] == '\n' {
                        lemma_scan_word_bounds(s, j + 2, text, open);
                    } else if j + 2 < s.len() && s[j + 1] == '\r' && s[j + 2] == '\n' {
                        lemma_scan_word_bounds(s, j + 3, text, open);
                    }
                } else {
                    lemma_scan_word_bounds(s, j + 1, text.push(c), open);
                }
            },
        }
    }
}

/// Scans a comment body starting at `j` (right after the `#`). An escaped
/// newline (`\` + newline) contributes a literal `'\n'` and the comment goes
/// on; an unescaped newline ends it. Returns the text and the end position.
pub open spec fn scan_comment(s: Seq<char>, j: int) -> (Seq<char>, int)
    decreases s.len() - j,
{
    if j < 0 || j >= s.len() {
        (Seq::empty(), j)
    } else if s[j] == '\\' && j + 1 < s.len() && s[j + 1] == '\n' {
        let (t, e) = scan_comment(s, j + 2);
        (seq!['\n'] + t, e)
    } else if s[j] == '\\' && j + 2 < s.len() && s[j + 1] == '\r' && s[j + 2] == '\n' {
        let (t, e) = scan_comment(s, j + 3);
        (seq!['\n'] + t, e)
    } else if is_newline_char(s[j]) {
        (Seq::empty(), j)
    } else {
        let (t, e) = scan_comment(s, j + 1);
        (seq![s[j]] + t, e)
    }
}

pub proof fn lemma_scan_comment_bounds(s: Seq<char>, j: int)
    requires
        0 <= j <= s.len(),
    ensures
        j <= scan_comment(s, j).1 <= s.len(),
    decreases s.len() - j,
{
    if j < s.len() {
        if s[j] == '\\' && j + 1 < s.len() && s[j + 1] == '\n' {
            lemma_scan_comment_bounds(s, j + 2);
        } else if s[j] == '\\' && j + 2 < s.len() && s[j + 1] == '\r' && s[j + 2] == '\n' {
            lemma_scan_comment_bounds(s, j + 3);
        } else if is_newline_char(s[j]) {
        } else {
            lemma_scan_comment_bounds(s, j + 1);
        }
    }
}

/// What happens at position `i` of the source: the end of the input, an
/// insignificant space, one token, or a lexing error (one character is
/// skipped). `next` is the position where scanning resumes.
pub enum SpecStep {
    End,
    Pad { next: int },
    Tok { tok: SpecToken, next: int },
    Bad { err: SpecLexError, next: int },
}

/// The token grammar's dispatch at position `i`: a `#` starts a comment, an
/// escaped newline and a newline are their own tokens, everything else is
/// tried as a word; a character that cannot start anything is an error.
pub open spec fn spec_step(s: Seq<char>, i: int) -> SpecStep {
    if i < 0 || i >= s.len() {
        SpecStep::End
    } else if is_space_char(s[i]) {
        SpecStep::Pad { next: i + 1 }
    } else if s[i] == '#' {
        let (t, e) = scan_comment(s, i + 1);
        SpecStep::Tok { tok: SpecToken { v: TokenV::Comment(t), start: i, end: e }, next: e }
    } else if s[i] == '\\' && newline_end(s, i + 1) is Some {
        let e = newline_end(s, i + 1)->Some_0;
        SpecStep::Tok { tok: SpecToken { v: TokenV::EscapedNewline, start: i, end: e }, next: e }
    } else if newline_end(s, i) is Some {
        let e = newline_end(s, i)->Some_0;
        SpecStep::Tok { tok: SpecToken { v: TokenV::Newline, start: i, end: e }, next: e }
    } else {
        let (t, e) = scan_word(s, i, Seq::empty(), None);
        if e > i {
            SpecStep::Tok { tok: SpecToken { v: TokenV::Token(t), start: i, end: e }, next: e }
        } else {
            SpecStep::Bad { err: SpecLexError { pos: i }, next: i + 1 }
        }
    }
}

pub proof fn lemma_step_bounds(s: Seq<char>, i: int)
    ensures
        match spec_step(s, i) {
            SpecStep::End => !(0 <= i < s.len()),
            SpecStep::Pad { next } => next == i + 1 && 0 <= i < next <= s.len(),
            SpecStep::Tok { tok, next } => 0 <= i < next <= s.len() && tok.start == i && tok.end
                == next,
            SpecStep::Bad { err, next } => next == i + 1 && 0 <= i < next <= s.len() && err.pos
                == i,
        },
{
    if 0 <= i < s.len() {
        if is_space_char(s[i]) {
        } else if s[i] == '#' {
            lemma_scan_comment_bounds(s, i + 1);
        } else if s[i] == '\\' && newline_end(s, i + 1) is Some {
        } else if newline_end(s, i) is Some {
        } else {
            lemma_scan_word_bounds(s, i, Seq::empty(), None);
        }
    }
}

/// The tokens of `s` from position `i` on, as the grammar defines them.
pub open spec fn spec_tokens(s: Seq<char>, i: int) -> Seq<SpecToken>
    decreases s.len() - i,
{
    match spec_step(s, i) {
        SpecStep::End => Seq::empty(),
        SpecStep::Pad { next } => {
            proof {
                lemma_step_bounds(s, i);
            }
            spec_tokens(s, next)
        },
        SpecStep::Tok { tok, next } => {
            proof {
                lemma_step_bounds(s, i);
            }
            seq![tok] + spec_tokens(s, next)
        },
        SpecStep::Bad { err, next } => {
            proof {
                lemma_step_bounds(s, i);
            }
            spec_tokens(s, next)
        },
    }
}

/// The lexing errors of `s` from position `i` on.
pub open spec fn spec_lex_errors(s: Seq<char>, i: int) -> Seq<SpecLexError>
    decreases s.len() - i,
{
    match spec_step(s, i) {
        SpecStep::End => Seq::empty(),
        SpecStep::Pad { next } => {
            proof {
                lemma_step_bounds(s, i);
            }
            spec_lex_errors(s, next)
        },
        SpecStep::Tok { tok, next } => {
            proof {
                lemma_step_bounds(s, i);
            }
            spec_lex_errors(s, next)
        },
        SpecStep::Bad { err, next } => {
            proof {
                lemma_step_bounds(s, i);
            }
            seq![err] + spec_lex_errors(s, next)
        },
    }
}

/// Executable counterpart of [`scan_comment`], also tracking byte offsets.
fn scan_comment_exec(chars: &Vec<char>, start: usize, bstart: usize) -> (r: (Vec<char>, usize, usize))
    requires
        start <= chars@.len(),
        utf8_len(chars@) <= usize::MAX,
        bstart as int == utf8_prefix_len(chars@, start as int),
    ensures
        (r.0@, r.1 as int) == scan_comment(chars@, start as int),
        r.2 as int == utf8_prefix_len(chars@, r.1 as int),
        start <= r.1 <= chars@.len(),
{
    let n = chars.len();
    let mut j: usize = start;
    let mut bj: usize = bstart;
    let mut text: Vec<char> = Vec::new();
    proof {
        lemma_scan_comment_bounds(chars@, start as int);
    }
    loop
        invariant
            n == chars@.len(),
            start <= j <= n,
            utf8_len(chars@) <= usize::MAX,
            bj as int == utf8_prefix_len(chars@, j as int),
            scan_comment(chars@, start as int).0 == text@ + scan_comment(chars@, j as int).0,
            scan_comment(chars@, start as int).1 == scan_comment(chars@, j as int).1,
        decreases n - j,
    {
        proof {
            lemma_scan_comment_bounds(chars@, j as int);
        }
        if j >= n {
            proof {
                assert(scan_comment(chars@, start as int).0 =~= text@);
            }
            return (text, j, bj);
        }
        let c = chars[j];
        if c == '\\' && j + 1 < n && chars[j + 1] == '\n' {
            text.push('\n');
            proof {
                assert(text@ + scan_comment(chars@, j as int + 2).0 =~= (text@.drop_last()
                    + scan_comment(chars@, j as int).0));
            }
            let (j1, bj1) = crate::text::advance_pos(chars, j, bj);
            let (j2, bj2) = crate::text::advance_pos(chars, j1, bj1);
            j = j2;
            bj = bj2;
        } else if c == '\\' && n - j > 2 && chars[j + 1] == '\r' && chars[j + 2] == '\n' {
            text.push('\n');
            proof {
                assert(text@ + scan_comment(chars@, j as int + 3).0 =~= (text@.drop_last()
                    + scan_comment(chars@, j as int).0));
            }
            let (j1, bj1) = crate::text::advance_pos(chars, j, bj);
            let (j2, bj2) = crate::text::advance_pos(chars, j1, bj1);
            let (j3, bj3) = crate::text::advance_pos(chars, j2, bj2);
            j = j3;
            bj = bj3;
        } else if c == '\n' || c == '\r' {
            proof {
                assert(scan_comment(chars@, start as int).0 =~= text@);
            }
            return (text, j, bj);
        } else {
            text.push(c);
            proof {
                assert(text@ + scan_comment(chars@, j as int + 1).0 =~= (text@.drop_last()
                    + scan_comment(chars@, j as int).0));
            }
            let (j1, bj1) = crate::text::advance_pos(chars, j, bj);
            j = j1;
            bj = bj1;
        }
    }
}

/// Executable counterpart of [`scan_word`], also tracking byte offsets.
fn scan_word_exec(chars: &Vec<char>, start: usize, bstart: usize) -> (r: (Vec<char>, usize, usize))
    requires
        start <= chars@.len(),
        utf8_len(chars@) <= usize::MAX,
        bstart as int == utf8_prefix_len(chars@, start as int),
    ensures
        (r.0@, r.1 as int) == scan_word(chars@, start as int, Seq::empty(), None),
        r.2 as int == utf8_prefix_len(chars@, r.1 as int),
        start <= r.1 <= chars@.len(),
{
    let ghost target = scan_word(chars@, start as int, Seq::empty(), None);
    let n = chars.len();
    let mut j: usize = start;
    let mut bj: usize = bstart;
    let mut text: Vec<char> = Vec::new();
    // While inside a quoted segment: the quote character, its character and
    // byte position, and how much of `text` was already collected there.
    let mut oq: Option<(char, usize, usize, usize)> = None;
    proof {
        lemma_scan_word_bounds(chars@, start as int, Seq::empty(), None);
    }
    loop
        invariant
            n == chars@.len(),
            start <= j <= n,
            utf8_len(chars@) <= usize::MAX,
            bj as int == utf8_prefix_len(chars@, j as int),
            target == scan_word(chars@, start as int, Seq::empty(), None),
            start <= target.1 <= chars@.len(),
            match oq {
                None => scan_word(chars@, j as int, text@, None) == target,
                Some((q, opos, obpos, otl)) => {
                    &&& otl <= text@.len()
                    &&& start <= opos < j
                    &&& obpos as int == utf8_prefix_len(chars@, opos as int)
                    &&& scan_word(
                        chars@,
                        j as int,
                        text@,
                        Some((q, opos as int, text@.take(otl as int))),
                    ) == target
                },
            },
        decreases n - j,
    {
        if j >= n {
            match oq {
                None => {
                    proof {
                        assert(scan_word(chars@, j as int, text@, None) == (text@, j as int));
                    }
                    return (text, j, bj);
                },
                Some((q, opos, obpos, otl)) => {
                    proof {
                        let ot = text@.take(otl as int);
                        assert(scan_word(chars@, j as int, text@, Some((q, opos as int, ot)))
                            == (ot, opos as int));
                    }
                    text.truncate(otl);
                    return (text, opos, obpos);
                },
            }
        }
        let c = chars[j];
        match oq {
            None => {
                if c != '\\' && c != ' ' && c != '\t' && c != '\r' && c != '\n' && c != '"' && c
                    != '\'' && c != '#' {
                    // A raw word character.
                    proof {
                        assert(is_raw_word_char(c));
                        assert(scan_word(chars@, j as int, text@, None) == scan_word(
                            chars@,
                            j as int + 1,
                            text@.push(c),
                            None,
                        ));
                    }
                    text.push(c);
                    let (j1, bj1) = crate::text::advance_pos(chars, j, bj);
                    j = j1;
                    bj = bj1;
                } else if c == '\\' {
                    if j + 1 < n && chars[j + 1] != '\n' && chars[j + 1] != '\r' {
                        // An escaped character.
                        proof {
                            assert(scan_word(chars@, j as int, text@, None) == scan_word(
                                chars@,
                                j as int + 2,
                                text@.push(chars@[j as int + 1]),
                                None,
                            ));
                        }
                        text.push(chars[j + 1]);
                        let (j1, bj1) = crate::text::advance_pos(chars, j, bj);
                        let (j2, bj2) = crate::text::advance_pos(chars, j1, bj1);
                        j = j2;
                        bj = bj2;
                    } else if j + 1 < n && chars[j + 1] == '\n' {
                        // An escaped newline: contributes nothing.
                        proof {
                            assert(scan_word(chars@, j as int, text@, None) == scan_word(
                                chars@,
                                j as int + 2,
                                text@,
                                None,
                            ));
                        }
                        let (j1, bj1) = crate::text::advance_pos(chars, j, bj);
                        let (j2, bj2) = crate::text::advance_pos(chars, j1, bj1);
                        j = j2;
                        bj = bj2;
                    } else if n - j > 2 && chars[j + 1] == '\r' && chars[j + 2] == '\n' {
                        proof {
                            assert(scan_word(chars@, j as int, text@, None) == scan_word(
                                chars@,
                                j as int + 3,
                                text@,
                                None,
                            ));
                        }
                        let (j1, bj1) = crate::text::advance_pos(chars, j, bj);
                        let (j2, bj2) = crate::text::advance_pos(chars, j1, bj1);
                        let (j3, bj3) = crate::text::advance_pos(chars, j2, bj2);
                        j = j3;
                        bj = bj3;
                    } else {
                        // A dangling backslash cannot extend the word.
                        proof {
                            assert(scan_word(chars@, j as int, text@, None) == (text@, j as int));
                        }
                        return (text, j, bj);
                    }
                } else if c == '"' || c == '\'' {
                    // A quoted segment begins.
                    proof {
                        assert(scan_word(chars@, j as int, text@, None) == scan_word(
                            chars@,
                            j as int + 1,
                            text@,
                            Some((c, j as int, text@)),
                        ));
                        assert(text@.take(text@.len() as int) =~= text@);
                    }
                    oq = Some((c, j, bj, text.len()));
                    let (j1, bj1) = crate::text::advance_pos(chars, j, bj);
                    j = j1;
                    bj = bj1;
                } else {
                    // A separator: the word ends here.
                    proof {
                        assert(scan_word(chars@, j as int, text@, None) == (text@, j as int));
                    }
                    return (text, j, bj);
                }
            },
            Some((q, opos, obpos, otl)) => {
                let ghost ot = text@.take(otl as int);
                if c == q {
                    // The quoted segment closes.
                    proof {
                        assert(scan_word(chars@, j as int, text@, Some((q, opos as int, ot)))
                            == scan_word(chars@, j as int + 1, text@, None));
                    }
                    oq = None;
                    let (j1, bj1) = crate::text::advance_pos(chars, j, bj);
                    j = j1;
                    bj = bj1;
                } else if c == '\n' || c == '\r' {
                    // A quote does not span a raw newline: the word ends
                    // right before the opening quote.
                    proof {
                        assert(scan_word(chars@, j as int, text@, Some((q, opos as int, ot)))
                            == (ot, opos as int));
                    }
                    text.truncate(otl);
                    return (text, opos, obpos);
                } else if c == '\\' {
                    if j + 1 < n && chars[j + 1] != '\n' && chars[j + 1] != '\r' {
                        proof {
                            assert(scan_word(chars@, j as int, text@, Some((q, opos as int, ot)))
                                == scan_word(
                                chars@,
                                j as int + 2,
                                text@.push(chars@[j as int + 1]),
                                Some((q, opos as int, ot)),
                            ));
                            assert(text@.push(chars@[j as int + 1]).take(otl as int) =~= ot);
                        }
                        text.push(chars[j + 1]);
                        let (j1, bj1) = crate::text::advance_pos(chars, j, bj);
                        let (j2, bj2) = crate::text::advance_pos(chars, j1, bj1);
                        j = j2;
                        bj = bj2;
                    } else if j + 1 < n && chars[j + 1] == '\n' {
                        proof {
                            assert(scan_word(chars@, j as int, text@, Some((q, opos as int, ot)))
                                == scan_word(chars@, j as int + 2, text@, Some((q, opos as int, ot))));
                        }
                        let (j1, bj1) = crate::text::advance_pos(chars, j, bj);
                        let (j2, bj2) = crate::text::advance_pos(chars, j1, bj1);
                        j = j2;
                        bj = bj2;
                    } else if n - j > 2 && chars[j + 1] == '\r' && chars[j + 2] == '\n' {
                        proof {
                            assert(scan_word(chars@, j as int, text@, Some((q, opos as int, ot)))
                                == scan_word(chars@, j as int + 3, text@, Some((q, opos as int, ot))));
                        }
                        let (j1, bj1) = crate::text::advance_pos(chars, j, bj);
                        let (j2, bj2) = crate::text::advance_pos(chars, j1, bj1);
                        let (j3, bj3) = crate::text::advance_pos(chars, j2, bj2);
                        j = j3;
                        bj = bj3;
                    } else {
                        proof {
                            assert(scan_word(chars@, j as int, text@, Some((q, opos as int, ot)))
                                == (ot, opos as int));
                        }
                        text.truncate(otl);
                        return (text, opos, obpos);
                    }
                } else {
                    // Raw characters and the structural characters other
                    // than the quote itself are literal inside a quote.
                    proof {
                        assert(scan_word(chars@, j as int, text@, Some((q, opos as int, ot)))
                            == scan_word(
                            chars@,
                            j as int + 1,
                            text@.push(c),
                            Some((q, opos as int, ot)),
                        ));
                        assert(text@.push(c).take(otl as int) =~= ot);
                    }
                    text.push(c);
                    let (j1, bj1) = crate::text::advance_pos(chars, j, bj);
                    j = j1;
                    bj = bj1;
                }
            },
        }
    }
}

/// The grammar's tokens lie inside the source, are non-empty, and come in
/// source order without overlaps.
pub proof fn lemma_spec_tokens_ordered(s: Seq<char>, i: int)
    requires
        0 <= i <= s.len(),
    ensures
        forall|k: int|
            0 <= k < spec_tokens(s, i).len() ==> i <= (#[trigger] spec_tokens(s, i)[k]).start
                < spec_tokens(s, i)[k].end <= s.len(),
        forall|k: int|
            0 <= k < spec_tokens(s, i).len() - 1 ==> (#[trigger] spec_tokens(s, i)[k]).end
                <= spec_tokens(s, i)[k + 1].start,
    decreases s.len() - i,
{
    lemma_step_bounds(s, i);
    match spec_step(s, i) {
        SpecStep::End => {},
        SpecStep::Pad { next } => {
            lemma_spec_tokens_ordered(s, next);
        },
        SpecStep::Tok { tok, next } => {
            lemma_spec_tokens_ordered(s, next);
            let ts = spec_tokens(s, i);
            let rest = spec_tokens(s, next);
            assert(ts =~= seq![tok] + rest);
            assert forall|k: int| 0 <= k < ts.len() implies i <= (#[trigger] ts[k]).start
                < ts[k].end <= s.len() by {
                if k > 0 {
                    assert(ts[k] == rest[k - 1]);
                }
            }
            assert forall|k: int| 0 <= k < ts.len() - 1 implies (#[trigger] ts[k]).end <= ts[k
                + 1].start by {
                if k > 0 {
                    assert(ts[k] == rest[k - 1]);
                    assert(ts[k + 1] == rest[k]);
                } else {
                    if rest.len() > 0 {
                        assert(ts[1] == rest[0]);
                    }
                }
            }
        },
        SpecStep::Bad { err, next } => {
            lemma_spec_tokens_ordered(s, next);
        },
    }
}

/// The unescaped content of a stretch of source text: what scanning it as a
/// word from its start yields.
pub open spec fn spec_word_text(sub: Seq<char>) -> Seq<char> {
    scan_word(sub, 0, Seq::empty(), None).0
}

/// From inside a quoted segment, the scan either fails back to the opening
/// quote or moves past the current position.
proof fn lemma_scan_word_some_outcome(
    s: Seq<char>,
    j: int,
    text: Seq<char>,
    q: char,
    opos: int,
    otext: Seq<char>,
)
    requires
        0 <= j <= s.len(),
    ensures
        scan_word(s, j, text, Some((q, opos, otext))) == (otext, opos) || scan_word(
            s,
            j,
            text,
            Some((q, opos, otext)),
        ).1 > j,
    decreases s.len() - j,
{
    if j < s.len() {
        let c = s[j];
        if c == q {
            lemma_scan_word_bounds(s, j + 1, text, None);
        } else if is_newline_char(c) {
        } else if c == '\\' {
            if j + 1 < s.len() && !is_newline_char(s[j + 1]) {
                lemma_scan_word_some_outcome(s, j + 2, text.push(s[j + 1]), q, opos, otext);
            } else if j + 1 < s.len() && s[j + 1] == '\n' {
                lemma_scan_word_some_outcome(s, j + 2, text, q, opos, otext);
            } else if j + 2 < s.len() && s[j + 1] == '\r' && s[j + 2] == '\n' {
                lemma_scan_word_some_outcome(s, j + 3, text, q, opos, otext);
            }
        } else {
            lemma_scan_word_some_outcome(s, j + 1, text.push(c), q, opos, otext);
        }
    }
}

/// Scanning a word is local: as long as the scan ends by position `b`, it
/// behaves the same over the whole source and over the slice `s[a..b)`.
proof fn lemma_scan_word_shift(
    s: Seq<char>,
    a: int,
    b: int,
    j: int,
    text: Seq<char>,
    open: Option<(char, int, Seq<char>)>,
)
    requires
        0 <= a <= j <= b <= s.len(),
        open matches Some((q, opos, otext)) ==> a <= opos <= j,
        scan_word(s, j, text, open).1 <= b,
    ensures
        ({
            let shifted = match open {
                None => None,
                Some((q, opos, otext)) => Some((q, opos - a, otext)),
            };
            scan_word(s.subrange(a, b), j - a, text, shifted) == (
                scan_word(s, j, text, open).0,
                scan_word(s, j, text, open).1 - a,
            )
        }),
    decreases s.len() - j,
{
    let sub = s.subrange(a, b);
    if j < b {
        assert(sub[j - a] == s[j]);
        if j + 1 < b {
            assert(sub[j - a + 1] == s[j + 1]);
        }
        if j + 2 < b {
            assert(sub[j - a + 2] == s[j + 2]);
        }
        let c = s[j];
        match open {
            None => {
                if is_raw_word_char(c) {
                    lemma_scan_word_bounds(s, j + 1, text.push(c), None);
                    lemma_scan_word_shift(s, a, b, j + 1, text.push(c), None);
                } else if c == '\\' {
                    if j + 1 < s.len() && !is_newline_char(s[j + 1]) {
                        if j + 1 < b {
                            lemma_scan_word_bounds(s, j + 2, text.push(s[j + 1]), None);
                            lemma_scan_word_shift(s, a, b, j + 2, text.push(s[j + 1]), None);
                        } else {
                            // The escape would reach past the slice: the
                            // scan cannot end by `b` then.
                            lemma_scan_word_bounds(s, j + 2, text.push(s[j + 1]), None);
                        }
                    } else if j + 1 < s.len() && s[j + 1] == '\n' {
                        if j + 1 < b {
                            lemma_scan_word_bounds(s, j + 2, text, None);
                            lemma_scan_word_shift(s, a, b, j + 2, text, None);
                        } else {
                            lemma_scan_word_bounds(s, j + 2, text, None);
                        }
                    } else if j + 2 < s.len() && s[j + 1] == '\r' && s[j + 2] == '\n' {
                        if j + 2 < b {
                            lemma_scan_word_bounds(s, j + 3, text, None);
                            lemma_scan_word_shift(s, a, b, j + 3, text, None);
                        } else {
                            lemma_scan_word_bounds(s, j + 3, text, None);
                        }
                    }
                } else if c == '"' || c == '\'' {
                    lemma_scan_word_some_outcome(s, j + 1, text, c, j, text);
                    lemma_scan_word_shift(s, a, b, j + 1, text, Some((c, j, text)));
                }
            },
            Some((q, opos, otext)) => {
                if c == q {
                    lemma_scan_word_bounds(s, j + 1, text, None);
                    lemma_scan_word_shift(s, a, b, j + 1, text, None);
                } else if is_newline_char(c) {
                } else if c == '\\' {
                    if j + 1 < s.len() && !is_newline_char(s[j + 1]) {
                        if j + 1 < b {
                            lemma_scan_word_shift(
                                s,
                                a,
                                b,
                                j + 2,
                                text.push(s[j + 1]),
                                Some((q, opos, otext)),
                            );
                        } else {
                            lemma_scan_word_some_outcome(
                                s,
                                j + 2,
                                text.push(s[j + 1]),
                                q,
                                opos,
                                otext,
                            );
                        }
                    } else if j + 1 < s.len() && s[j + 1] == '\n' {
                        if j + 1 < b {
                            lemma_scan_word_shift(s, a, b, j + 2, text, Some((q, opos, otext)));
                        } else {
                            lemma_scan_word_some_outcome(s, j + 2, text, q, opos, otext);
                        }
                    } else if j + 2 < s.len() && s[j + 1] == '\r' && s[j + 2] == '\n' {
                        if j + 2 < b {
                            lemma_scan_word_shift(s, a, b, j + 3, text, Some((q, opos, otext)));
                        } else {
                            lemma_scan_word_some_outcome(s, j + 3, text, q, opos, otext);
                        }
                    }
                } else {
                    lemma_scan_word_shift(s, a, b, j + 1, text.push(c), Some((q, opos, otext)));
                }
            },
        }
    } else {
        // The slice ends here. The whole-source scan can only end by `b`
        // by stopping right here or by failing back into the slice.
        match open {
            None => {
                if j < s.len() {
                    let c = s[j];
                    if is_raw_word_char(c) {
                        lemma_scan_word_bounds(s, j + 1, text.push(c), None);
                    } else if c == '\\' {
                        if j + 1 < s.len() && !is_newline_char(s[j + 1]) {
                            lemma_scan_word_bounds(s, j + 2, text.push(s[j + 1]), None);
                        } else if j + 1 < s.len() && s[j + 1] == '\n' {
                            lemma_scan_word_bounds(s, j + 2, text, None);
                        } else if j + 2 < s.len() && s[j + 1] == '\r' && s[j + 2] == '\n' {
                            lemma_scan_word_bounds(s, j + 3, text, None);
                        }
                    } else if c == '"' || c == '\'' {
                        lemma_scan_word_some_outcome(s, j + 1, text, c, j, text);
                    }
                }
            },
            Some((q, opos, otext)) => {
                lemma_scan_word_some_outcome(s, j, text, q, opos, otext);
            },
        }
    }
}

/// Round trip: the text of every word token is exactly the unescaped
/// content of the token's span — tokenizing and then reconstructing the
/// word text from the span's characters reproduces the token text.
pub proof fn lemma_word_round_trip(s: Seq<char>, i: int)
    requires
        0 <= i <= s.len(),
    ensures
        forall|k: int|
            0 <= k < spec_tokens(s, i).len() ==> match (#[trigger] spec_tokens(s, i)[k]).v {
                TokenV::Token(text) => text == spec_word_text(
                    s.subrange(spec_tokens(s, i)[k].start, spec_tokens(s, i)[k].end),
                ),
                _ => true,
            },
    decreases s.len() - i,
{
    lemma_step_bounds(s, i);
    match spec_step(s, i) {
        SpecStep::End => {},
        SpecStep::Pad { next } => {
            lemma_word_round_trip(s, next);
        },
        SpecStep::Tok { tok, next } => {
            lemma_word_round_trip(s, next);
            let ts = spec_tokens(s, i);
            let rest = spec_tokens(s, next);
            assert(ts =~= seq![tok] + rest);
            if i < s.len() && !is_space_char(s[i]) && s[i] != '#' && !(s[i] == '\\' && newline_end(
                s,
                i + 1,
            ) is Some) && newline_end(s, i) is None {
                // A word token: its text comes from the word scan.
                let (t, e) = scan_word(s, i, Seq::empty(), None);
                if e > i {
                    lemma_scan_word_bounds(s, i, Seq::empty(), None);
                    lemma_scan_word_shift(s, i, e, i, Seq::empty(), None);
                    assert(scan_word(s.subrange(i, e), 0, Seq::empty(), None) == (t, e - i));
                }
            }
            assert forall|k: int| 0 <= k < ts.len() implies match (#[trigger] ts[k]).v {
                TokenV::Token(text) => text == spec_word_text(
                    s.subrange(ts[k].start, ts[k].end),
                ),
                _ => true,
            } by {
                if k > 0 {
                    assert(ts[k] == rest[k - 1]);
                }
            }
        },
        SpecStep::Bad { err, next } => {
            lemma_word_round_trip(s, next);
        },
    }
}

/// The kind of a token, separated from its text.
#[derive(Debug, Clone, Copy, PartialEq, Eq, Structural)]
pub(crate) enum RawKind {
    Word,
    Comment,
    Newline,
    EscapedNewline,
}

pub(crate) open spec fn raw_token_v(kind: RawKind, text: Seq<char>) -> TokenV {
    match kind {
        RawKind::Word => TokenV::Token(text),
        RawKind::Comment => TokenV::Comment(text),
        RawKind::Newline => TokenV::Newline,
        RawKind::EscapedNewline => TokenV::EscapedNewline,
    }
}

/// A token with both its character-index range (`cs..ce`) and its byte-offset
/// range (`bs..be`) in the source.
pub(crate) struct RawToken {
    pub kind: RawKind,
    pub text: Vec<char>,
    pub cs: usize,
    pub ce: usize,
    pub bs: usize,
    pub be: usize,
}

impl RawToken {
    /// The token this record denotes, over character indices.
    pub(crate) open spec fn stok(&self) -> SpecToken {
        SpecToken { v: raw_token_v(self.kind, self.text@), start: self.cs as int, end: self.ce as int }
    }

    /// The byte offsets agree with the character indices.
    pub(crate) open spec fn bytes_ok(&self, s: Seq<char>) -> bool {
        self.bs as int == utf8_prefix_len(s, self.cs as int) && self.be as int == utf8_prefix_len(
            s,
            self.ce as int,
        )
    }
}

/// A lexing error with the offending character's index and byte range.
pub(crate) struct RawLexError {
    pub cs: usize,
    pub bs: usize,
    pub be: usize,
}

impl RawLexError {
    pub(crate) open spec fn serr(&self) -> SpecLexError {
        SpecLexError { pos: self.cs as int }
    }

    pub(crate) open spec fn bytes_ok(&self, s: Seq<char>) -> bool {
        self.bs as int == utf8_prefix_len(s, self.cs as int) && self.be as int == utf8_prefix_len(
            s,
            self.cs as int + 1,
        )
    }
}

/// Tokenizes a character sequence: produces exactly the tokens and errors of
/// the grammar, with byte offsets alongside the character indices.
pub(crate) fn tokenize_chars(chars: &Vec<char>) -> (r: (Vec<RawToken>, Vec<RawLexError>))
    requires
        utf8_len(chars@) <= usize::MAX,
    ensures
        r.0@.map_values(|t: RawToken| t.stok()) == spec_tokens(chars@, 0),
        forall|k: int| 0 <= k < r.0@.len() ==> (#[trigger] r.0@[k]).bytes_ok(chars@),
        r.1@.map_values(|e: RawLexError| e.serr()) == spec_lex_errors(chars@, 0),
        forall|k: int| 0 <= k < r.1@.len() ==> (#[trigger] r.1@[k]).bytes_ok(chars@),
{
    let n = chars.len();
    let mut i: usize = 0;
    let mut bi: usize = 0;
    let mut toks: Vec<RawToken> = Vec::new();
    let mut errs: Vec<RawLexError> = Vec::new();
    proof {
        assert(chars@.take(0) =~= Seq::<char>::empty());
    }
    while i < n
        invariant
            n == chars@.len(),
            i <= n,
            utf8_len(chars@) <= usize::MAX,
            bi as int == utf8_prefix_len(chars@, i as int),
            toks@.map_values(|t: RawToken| t.stok()) + spec_tokens(chars@, i as int)
                == spec_tokens(chars@, 0),
            forall|k: int| 0 <= k < toks@.len() ==> (#[trigger] toks@[k]).bytes_ok(chars@),
            errs@.map_values(|e: RawLexError| e.serr()) + spec_lex_errors(chars@, i as int)
                == spec_lex_errors(chars@, 0),
            forall|k: int| 0 <= k < errs@.len() ==> (#[trigger] errs@[k]).bytes_ok(chars@),
        decreases n - i,
    {
        proof {
            lemma_step_bounds(chars@, i as int);
        }
        let c = chars[i];
        if c == ' ' || c == '\t' {
            proof {
                assert(spec_step(chars@, i as int) == SpecStep::Pad { next: i as int + 1 });
                assert(spec_tokens(chars@, i as int) == spec_tokens(chars@, i as int + 1));
                assert(spec_lex_errors(chars@, i as int) == spec_lex_errors(chars@, i as int + 1));
            }
            let (i1, bi1) = crate::text::advance_pos(chars, i, bi);
            i = i1;
            bi = bi1;
        } else if c == '#' {
            let (i1, bi1) = crate::text::advance_pos(chars, i, bi);
            let (t, e, be) = scan_comment_exec(chars, i1, bi1);
            let ghost st = SpecToken {
                v: TokenV::Comment(t@),
                start: i as int,
                end: e as int,
            };
            proof {
                assert(spec_step(chars@, i as int) == SpecStep::Tok { tok: st, next: e as int });
                assert(spec_tokens(chars@, i as int) == seq![st] + spec_tokens(chars@, e as int));
                assert(spec_lex_errors(chars@, i as int) == spec_lex_errors(chars@, e as int));
            }
            let rt = RawToken { kind: RawKind::Comment, text: t, cs: i, ce: e, bs: bi, be };
            proof {
                assert(toks@.push(rt).map_values(|t: RawToken| t.stok()) =~= toks@.map_values(
                    |t: RawToken| t.stok(),
                ).push(st));
                assert(toks@.map_values(|t: RawToken| t.stok()).push(st) + spec_tokens(
                    chars@,
                    e as int,
                ) =~= toks@.map_values(|t: RawToken| t.stok()) + (seq![st] + spec_tokens(
                    chars@,
                    e as int,
                )));
            }
            toks.push(rt);
            i = e;
            bi = be;
        } else if c == '\\' && i + 1 < n && (chars[i + 1] == '\n' || (n - i > 2 && chars[i + 1]
            == '\r' && chars[i + 2] == '\n')) {
            // An escaped newline outside a word.
            let e: usize = if chars[i + 1] == '\n' {
                i + 2
            } else {
                i + 3
            };
            let ghost st = SpecToken { v: TokenV::EscapedNewline, start: i as int, end: e as int };
            proof {
                assert(newline_end(chars@, i as int + 1) == Some(e as int));
                assert(spec_step(chars@, i as int) == SpecStep::Tok { tok: st, next: e as int });
                assert(spec_tokens(chars@, i as int) == seq![st] + spec_tokens(chars@, e as int));
                assert(spec_lex_errors(chars@, i as int) == spec_lex_errors(chars@, e as int));
            }
            let (i1, bi1) = crate::text::advance_pos(chars, i, bi);
            let (i2, bi2) = crate::text::advance_pos(chars, i1, bi1);
            let (ie, bie) = if e == i + 2 {
                (i2, bi2)
            } else {
                crate::text::advance_pos(chars, i2, bi2)
            };
            let rt = RawToken {
                kind: RawKind::EscapedNewline,
                text: Vec::new(),
                cs: i,
                ce: ie,
                bs: bi,
                be: bie,
            };
            proof {
                assert(toks@.push(rt).map_values(|t: RawToken| t.stok()) =~= toks@.map_values(
                    |t: RawToken| t.stok(),
                ).push(st));
                assert(toks@.map_values(|t: RawToken| t.stok()).push(st) + spec_tokens(
                    chars@,
                    e as int,
                ) =~= toks@.map_values(|t: RawToken| t.stok()) + (seq![st] + spec_tokens(
                    chars@,
                    e as int,
                )));
            }
            toks.push(rt);
            i = ie;
            bi = bie;
        } else if c == '\n' || (c == '\r' && i + 1 < n && chars[i + 1] == '\n') {
            let e: usize = if c == '\n' {
                i + 1
            } else {
                i + 2
            };
            let ghost st = SpecToken { v: TokenV::Newline, start: i as int, end: e as int };
            proof {
                assert(newline_end(chars@, i as int) == Some(e as int));
                assert(spec_step(chars@, i as int) == SpecStep::Tok { tok: st, next: e as int });
                assert(spec_tokens(chars@, i as int) == seq![st] + spec_tokens(chars@, e as int));
                assert(spec_lex_errors(chars@, i as int) == spec_lex_errors(chars@, e as int));
            }
            let (i1, bi1) = crate::text::advance_pos(chars, i, bi);
            let (ie, bie) = if e == i + 1 {
                (i1, bi1)
            } else {
                crate::text::advance_pos(chars, i1, bi1)
            };
            let rt = RawToken {
                kind: RawKind::Newline,
                text: Vec::new(),
                cs: i,
                ce: ie,
                bs: bi,
                be: bie,
            };
            proof {
                assert(toks@.push(rt).map_values(|t: RawToken| t.stok()) =~= toks@.map_values(
                    |t: RawToken| t.stok(),
                ).push(st));
                assert(toks@.map_values(|t: RawToken| t.stok()).push(st) + spec_tokens(
                    chars@,
                    e as int,
                ) =~= toks@.map_values(|t: RawToken| t.stok()) + (seq![st] + spec_tokens(
                    chars@,
                    e as int,
                )));
            }
            toks.push(rt);
            i = ie;
            bi = bie;
        } else {
            // Everything else is tried as a word; a character on which no
            // word can start is a lexing error and is skipped.
            let (t, e, be) = scan_word_exec(chars, i, bi);
            if e > i {
                let ghost st = SpecToken {
                    v: TokenV::Token(t@),
                    start: i as int,
                    end: e as int,
                };
                proof {
                    assert(spec_step(chars@, i as int) == SpecStep::Tok {
                        tok: st,
                        next: e as int,
                    });
                    assert(spec_tokens(chars@, i as int) == seq![st] + spec_tokens(
                        chars@,
                        e as int,
                    ));
                    assert(spec_lex_errors(chars@, i as int) == spec_lex_errors(chars@, e as int));
                }
                let rt = RawToken { kind: RawKind::Word, text: t, cs: i, ce: e, bs: bi, be };
                proof {
                    assert(toks@.push(rt).map_values(|t: RawToken| t.stok()) =~= toks@.map_values(
                        |t: RawToken| t.stok(),
                    ).push(st));
                    assert(toks@.map_values(|t: RawToken| t.stok()).push(st) + spec_tokens(
                        chars@,
                        e as int,
                    ) =~= toks@.map_values(|t: RawToken| t.stok()) + (seq![st] + spec_tokens(
                        chars@,
                        e as int,
                    )));
                }
                toks.push(rt);
                i = e;
                bi = be;
            } else {
                let ghost se = SpecLexError { pos: i as int };
                proof {
                    assert(spec_step(chars@, i as int) == SpecStep::Bad {
                        err: se,
                        next: i as int + 1,
                    });
                    assert(spec_tokens(chars@, i as int) == spec_tokens(chars@, i as int + 1));
                    assert(spec_lex_errors(chars@, i as int) == seq![se] + spec_lex_errors(
                        chars@,
                        i as int + 1,
                    ));
                }
                let (i1, bi1) = crate::text::advance_pos(chars, i, bi);
                let re = RawLexError { cs: i, bs: bi, be: bi1 };
                proof {
                    assert(errs@.push(re).map_values(|e: RawLexError| e.serr()) =~= errs@
                        .map_values(|e: RawLexError| e.serr()).push(se));
                    assert(errs@.map_values(|e: RawLexError| e.serr()).push(se) + spec_lex_errors(
                        chars@,
                        i as int + 1,
                    ) =~= errs@.map_values(|e: RawLexError| e.serr()) + (seq![se]
                        + spec_lex_errors(chars@, i as int + 1)));
                }
                errs.push(re);
                i = i1;
                bi = bi1;
            }
        }
    }
    proof {
        assert(spec_step(chars@, n as int) == SpecStep::End);
        assert(spec_tokens(chars@, n as int) =~= Seq::<SpecToken>::empty());
        assert(spec_lex_errors(chars@, n as int) =~= Seq::<SpecLexError>::empty());
        assert(toks@.map_values(|t: RawToken| t.stok()) + spec_tokens(chars@, n as int) =~= toks@
            .map_values(|t: RawToken| t.stok()));
        assert(errs@.map_values(|e: RawLexError| e.serr()) + spec_lex_errors(chars@, n as int)
            =~= errs@.map_values(|e: RawLexError| e.serr()));
    }
    (toks, errs)
}

/// Public token record `t` denotes the grammar token `st`: same value, and a
/// byte-offset span over the source `s`.
pub open spec fn token_matches(s: Seq<char>, t: (Token, Span), st: SpecToken) -> bool {
    t.0@ == st.v && t.1.start as int == utf8_prefix_len(s, st.start) && t.1.end as int
        == utf8_prefix_len(s, st.end)
}

/// Public error record `e` denotes the grammar error `se`.
pub open spec fn lex_error_matches(s: Seq<char>, e: LexError, se: SpecLexError) -> bool {
    e.span.start as int == utf8_prefix_len(s, se.pos) && e.span.end as int == utf8_prefix_len(
        s,
        se.pos + 1,
    )
}

/// Tokenizes `input`: returns all tokens with their byte-offset spans, plus
/// the recoverable lexing errors. Lexing never fails: on an offending
/// character an error is recorded and scanning resumes after it.
pub fn tokenizer(input: &str) -> (r: (Vec<(Token, Span)>, Vec<LexError>))
    ensures
        r.0@.len() == spec_tokens(input@, 0).len(),
        forall|k: int|
            0 <= k < r.0@.len() ==> token_matches(input@, #[trigger] r.0@[k], spec_tokens(input@, 0)[k]),
        r.1@.len() == spec_lex_errors(input@, 0).len(),
        forall|k: int|
            0 <= k < r.1@.len() ==> lex_error_matches(
                input@,
                #[trigger] r.1@[k],
                spec_lex_errors(input@, 0)[k],
            ),
{
    let chars = crate::text::str_chars(input);
    // Learns that the total byte length fits in `usize`.
    let _bytes = crate::text::str_byte_len(input);
    let (raws, rerrs) = tokenize_chars(&chars);
    raw_to_public(input, &chars, raws, rerrs)
}

/// Converts the internal token records to the public representation.
pub(crate) fn raw_to_public(input: &str, chars: &Vec<char>, raws: Vec<RawToken>, rerrs: Vec<RawLexError>) -> (r: (
    Vec<(Token, Span)>,
    Vec<LexError>,
))
    requires
        chars@ == input@,
        raws@.map_values(|t: RawToken| t.stok()) == spec_tokens(input@, 0),
        forall|k: int| 0 <= k < raws@.len() ==> (#[trigger] raws@[k]).bytes_ok(input@),
        rerrs@.map_values(|e: RawLexError| e.serr()) == spec_lex_errors(input@, 0),
        forall|k: int| 0 <= k < rerrs@.len() ==> (#[trigger] rerrs@[k]).bytes_ok(input@),
    ensures
        r.0@.len() == spec_tokens(input@, 0).len(),
        forall|k: int|
            0 <= k < r.0@.len() ==> token_matches(input@, #[trigger] r.0@[k], spec_tokens(input@, 0)[k]),
        r.1@.len() == spec_lex_errors(input@, 0).len(),
        forall|k: int|
            0 <= k < r.1@.len() ==> lex_error_matches(
                input@,
                #[trigger] r.1@[k],
                spec_lex_errors(input@, 0)[k],
            ),
{
    let mut toks: Vec<(Token, Span)> = Vec::new();
    let mut k: usize = 0;
    let nt = raws.len();
    while k < nt
        invariant
            nt == raws@.len(),
            k <= nt,
            chars@ == input@,
            raws@.map_values(|t: RawToken| t.stok()) == spec_tokens(input@, 0),
            forall|m: int| 0 <= m < raws@.len() ==> (#[trigger] raws@[m]).bytes_ok(input@),
            toks@.len() == k,
            forall|m: int|
                0 <= m < k ==> token_matches(input@, #[trigger] toks@[m], spec_tokens(input@, 0)[m]),
        decreases nt - k,
    {
        let rt = &raws[k];
        let tok: Token = match rt.kind {
            RawKind::Word => Token::Token(crate::text::chars_to_string(&rt.text)),
            RawKind::Comment => Token::Comment(crate::text::chars_to_string(&rt.text)),
            RawKind::Newline => Token::Newline,
            RawKind::EscapedNewline => Token::EscapedNewline,
        };
        let span = Span { start: rt.bs, end: rt.be };
        proof {
            assert(raws@.map_values(|t: RawToken| t.stok())[k as int] == raws@[k as int].stok());
        }
        toks.push((tok, span));
        k = k + 1;
    }
    let mut errs: Vec<LexError> = Vec::new();
    let mut k2: usize = 0;
    let ne = rerrs.len();
    while k2 < ne
        invariant
            ne == rerrs@.len(),
            k2 <= ne,
            chars@ == input@,
            rerrs@.map_values(|e: RawLexError| e.serr()) == spec_lex_errors(input@, 0),
            forall|m: int| 0 <= m < rerrs@.len() ==> (#[trigger] rerrs@[m]).bytes_ok(input@),
            errs@.len() == k2,
            forall|m: int|
                0 <= m < k2 ==> lex_error_matches(
                    input@,
                    #[trigger] errs@[m],
                    spec_lex_errors(input@, 0)[m],
                ),
        decreases ne - k2,
    {
        let re = &rerrs[k2];
        proof {
            assert(rerrs@.map_values(|e: RawLexError| e.serr())[k2 as int] == rerrs@[
                k2 as int
            ].serr());
        }
        errs.push(LexError { span: Span { start: re.bs, end: re.be } });
        k2 = k2 + 1;
    }
    proof {
        assert(toks@.len() == raws@.map_values(|t: RawToken| t.stok()).len());
        assert(errs@.len() == rerrs@.map_values(|e: RawLexError| e.serr()).len());
    }
    (toks, errs)
}

} // verus!
