//! Line parser for `bazelrc` files.
//!
//! Groups the token stream into line records: the first word of a line (when
//! it does not start with `-`) is the command, optionally split at the first
//! `:` into command and configuration name; every other word becomes a flag,
//! split at the first `=` into name and value when it starts with `-`. A
//! comment attaches to its line, and every physical line yields one record,
//! so line numbering stays stable.

use vstd::prelude::*;

use crate::text::{utf8_prefix_len, utf8_len, spec_find_char, lemma_find_char_props};
use crate::tokenizer::{
    lemma_spec_tokens_ordered, spec_lex_errors, spec_tokens, tokenize_chars, LexError, RawKind,
    RawToken, Span, SpecToken, Token, TokenV,
};

verus! {

/// One flag mention: an optional `-`/`--` name and an optional value.
/// A bare positional token becomes a value-only flag; a name-only flag is a
/// boolean-style invocation.
#[derive(Clone, Debug, PartialEq, Eq, Default)]
pub struct Flag {
    pub name: Option<(String, Span)>,
    pub value: Option<(String, Span)>,
}

/// One line of a `bazelrc` file. `span` starts where the previous line's
/// terminating newline ended (or at 0) and ends at this line's own
/// terminating newline's start, so the newline itself lies outside it; the
/// final line ends at the end of the input.
#[derive(Clone, Debug, PartialEq, Eq, Default)]
pub struct Line {
    pub command: Option<(String, Span)>,
    pub config: Option<(String, Span)>,
    pub flags: Vec<Flag>,
    pub comment: Option<(String, Span)>,
    pub span: Span,
}

/// Mathematical counterpart of [`Flag`].
#[verifier::ext_equal]
pub struct FlagV {
    pub name: Option<(Seq<char>, Span)>,
    pub value: Option<(Seq<char>, Span)>,
}

/// Mathematical counterpart of [`Line`].
#[verifier::ext_equal]
pub struct LineV {
    pub command: Option<(Seq<char>, Span)>,
    pub config: Option<(Seq<char>, Span)>,
    pub flags: Seq<FlagV>,
    pub comment: Option<(Seq<char>, Span)>,
    pub span: Span,
}

pub open spec fn spanned_view(o: &Option<(String, Span)>) -> Option<(Seq<char>, Span)> {
    match o {
        Some((t, sp)) => Some((t@, *sp)),
        None => None,
    }
}

impl View for Flag {
    type V = FlagV;

    open spec fn view(&self) -> FlagV {
        FlagV { name: spanned_view(&self.name), value: spanned_view(&self.value) }
    }
}

impl View for Line {
    type V = LineV;

    open spec fn view(&self) -> LineV {
        LineV {
            command: spanned_view(&self.command),
            config: spanned_view(&self.config),
            flags: self.flags@.map_values(|f: Flag| f@),
            comment: spanned_view(&self.comment),
            span: self.span,
        }
    }
}

/// Everything the parser returns: the token stream, the line records, and
/// the recoverable lexing errors.
pub struct ParserResult {
    pub tokens: Vec<(Token, Span)>,
    pub lines: Vec<Line>,
    pub errors: Vec<LexError>,
}

/// The byte offset of character index `a` of `s`.
pub open spec fn bpos(s: Seq<char>, a: int) -> usize {
    utf8_prefix_len(s, a) as usize
}

/// A line record with nothing in it.
pub open spec fn empty_line_v() -> LineV {
    LineV {
        command: None,
        config: None,
        flags: Seq::empty(),
        comment: None,
        span: Span { start: 0, end: 0 },
    }
}

/// Splits the word token with text `text` and character range `cs..ce` at
/// the first `sep` of its text. The span split point is the first `sep`
/// inside the token's source range, so that escaped separators keep position
/// tracking intact. `None` when the text holds no `sep` (or, what cannot
/// happen for tokens the tokenizer made, its source range holds none).
pub open spec fn spec_split_tok(
    s: Seq<char>,
    text: Seq<char>,
    cs: int,
    ce: int,
    sep: char,
) -> Option<((Seq<char>, Span), (Seq<char>, Span))> {
    match spec_find_char(text, sep, 0) {
        None => None,
        Some(p) => match spec_find_char(s, sep, cs) {
            Some(k) => if k < ce {
                Some(
                    (
                        (text.take(p), Span { start: bpos(s, cs), end: bpos(s, k) }),
                        (text.skip(p + 1), Span { start: bpos(s, k), end: bpos(s, ce) }),
                    ),
                )
            } else {
                None
            },
            None => None,
        },
    }
}

/// How a word token becomes a flag: a token starting with `-` is split at
/// the first `=` into name and value (or is a name-only flag), anything else
/// is a value-only flag.
pub open spec fn spec_parse_flag(s: Seq<char>, text: Seq<char>, cs: int, ce: int) -> FlagV {
    let full = Span { start: bpos(s, cs), end: bpos(s, ce) };
    if text.len() > 0 && text[0] == '-' {
        match spec_split_tok(s, text, cs, ce, '=') {
            Some((n, v)) => FlagV { name: Some(n), value: Some(v) },
            None => FlagV { name: Some((text, full)), value: None },
        }
    } else {
        FlagV { name: None, value: Some((text, full)) }
    }
}

/// How the first word of a line becomes its command and configuration name:
/// split at the first `:`; an empty part before the `:` means no command.
pub open spec fn spec_set_command(cur: LineV, s: Seq<char>, text: Seq<char>, cs: int, ce: int) -> LineV {
    let full = Span { start: bpos(s, cs), end: bpos(s, ce) };
    match spec_split_tok(s, text, cs, ce, ':') {
        Some((cmd, cfg)) => LineV {
            command: if cmd.0.len() == 0 {
                None
            } else {
                Some(cmd)
            },
            config: Some(cfg),
            flags: cur.flags,
            comment: cur.comment,
            span: cur.span,
        },
        None => LineV {
            command: Some((text, full)),
            config: None,
            flags: cur.flags,
            comment: cur.comment,
            span: cur.span,
        },
    }
}

/// What one word token does to the line being built: the first word (when
/// not starting with `-`) names the command, every other word adds a flag.
pub open spec fn spec_word_step(cur: LineV, s: Seq<char>, text: Seq<char>, cs: int, ce: int) -> LineV {
    if cur.command is None && cur.flags.len() == 0 && !(text.len() > 0 && text[0] == '-') {
        spec_set_command(cur, s, text, cs, ce)
    } else {
        LineV {
            command: cur.command,
            config: cur.config,
            flags: cur.flags.push(spec_parse_flag(s, text, cs, ce)),
            comment: cur.comment,
            span: cur.span,
        }
    }
}

/// The parser's fold over the token stream. `cur` is the line being built,
/// `started` whether any token belongs to it yet, and `line_start` the byte
/// offset where it began. One line is emitted per newline token; trailing
/// content yields a final line, as does a document without any token at all.
pub open spec fn spec_parse_rec(
    toks: Seq<SpecToken>,
    s: Seq<char>,
    k: int,
    cur: LineV,
    started: bool,
    line_start: usize,
) -> Seq<LineV>
    decreases toks.len() - k,
{
    if k < 0 || k >= toks.len() {
        if started || toks.len() == 0 {
            seq![
                LineV {
                    command: cur.command,
                    config: cur.config,
                    flags: cur.flags,
                    comment: cur.comment,
                    span: Span { start: line_start, end: bpos(s, s.len() as int) },
                },
            ]
        } else {
            Seq::empty()
        }
    } else {
        let t = toks[k];
        match t.v {
            TokenV::Token(text) => {
                spec_parse_rec(toks, s, k + 1, spec_word_step(cur, s, text, t.start, t.end), true, line_start)
            },
            TokenV::Comment(text) => {
                let l2 = LineV {
                    command: cur.command,
                    config: cur.config,
                    flags: cur.flags,
                    comment: Some((text, Span { start: bpos(s, t.start), end: bpos(s, t.end) })),
                    span: cur.span,
                };
                spec_parse_rec(toks, s, k + 1, l2, true, line_start)
            },
            TokenV::Newline => {
                let done = LineV {
                    command: cur.command,
                    config: cur.config,
                    flags: cur.flags,
                    comment: cur.comment,
                    span: Span { start: line_start, end: bpos(s, t.start) },
                };
                seq![done] + spec_parse_rec(toks, s, k + 1, empty_line_v(), false, bpos(s, t.end))
            },
            TokenV::EscapedNewline => spec_parse_rec(toks, s, k + 1, cur, started, line_start),
        }
    }
}

/// The line records of source `s` with token stream `toks`.
pub open spec fn spec_parse(toks: Seq<SpecToken>, s: Seq<char>) -> Seq<LineV> {
    spec_parse_rec(toks, s, 0, empty_line_v(), false, 0)
}

/// Executable counterpart of [`spec_split_tok`].
fn split_tok_exec(
    chars: &Vec<char>,
    text: &Vec<char>,
    cs: usize,
    ce: usize,
    bs: usize,
    be: usize,
    sep: char,
) -> (r: Option<((Vec<char>, Span), (Vec<char>, Span))>)
    requires
        cs <= ce <= chars@.len(),
        utf8_len(chars@) <= usize::MAX,
        bs as int == utf8_prefix_len(chars@, cs as int),
        be as int == utf8_prefix_len(chars@, ce as int),
    ensures
        match r {
            Some(((n, nsp), (v, vsp))) => spec_split_tok(chars@, text@, cs as int, ce as int, sep)
                == Some(((n@, nsp), (v@, vsp))),
            None => spec_split_tok(chars@, text@, cs as int, ce as int, sep) is None,
        },
{
    let p_opt = crate::text::find_char(text, sep, 0);
    let p: usize = match p_opt {
        Some(p) => p,
        None => {
            return None;
        },
    };
    proof {
        lemma_find_char_props(text@, sep, 0);
    }
    let tl = text.len();
    // Find the first `sep` in the token's source range, tracking bytes.
    let mut k: usize = cs;
    let mut b: usize = bs;
    while k < ce
        invariant
            cs <= k <= ce <= chars@.len(),
            utf8_len(chars@) <= usize::MAX,
            b as int == utf8_prefix_len(chars@, k as int),
            bs as int == utf8_prefix_len(chars@, cs as int),
            be as int == utf8_prefix_len(chars@, ce as int),
            p < tl,
            tl == text@.len(),
            spec_find_char(text@, sep, 0) == Some(p as int),
            spec_find_char(chars@, sep, cs as int) == spec_find_char(chars@, sep, k as int),
        decreases ce - k,
    {
        if chars[k] == sep {
            proof {
                assert(spec_find_char(chars@, sep, k as int) == Some(k as int));
                assert(text@.take(p as int) =~= text@.take(p as int));
            }
            let n = crate::text::subvec(text, 0, p);
            let v = crate::text::subvec(text, p + 1, tl);
            proof {
                assert(n@ =~= text@.take(p as int));
                assert(v@ =~= text@.skip(p as int + 1));
            }
            return Some(
                ((n, Span { start: bs, end: b }), (v, Span { start: b, end: be })),
            );
        }
        let (k1, b1) = crate::text::advance_pos(chars, k, b);
        k = k1;
        b = b1;
    }
    proof {
        lemma_find_char_props(chars@, sep, ce as int);
        assert(match spec_find_char(chars@, sep, cs as int) {
            Some(q) => q >= ce,
            None => true,
        });
    }
    None
}

/// Executable counterpart of [`spec_parse_flag`].
fn parse_flag_exec(chars: &Vec<char>, tok: &RawToken) -> (r: Flag)
    requires
        tok.cs <= tok.ce <= chars@.len(),
        utf8_len(chars@) <= usize::MAX,
        tok.bytes_ok(chars@),
    ensures
        r@ == spec_parse_flag(chars@, tok.text@, tok.cs as int, tok.ce as int),
{
    let full = Span { start: tok.bs, end: tok.be };
    let starts_dash = tok.text.len() > 0 && tok.text[0] == '-';
    if starts_dash {
        match split_tok_exec(chars, &tok.text, tok.cs, tok.ce, tok.bs, tok.be, '=') {
            Some(((n, nsp), (v, vsp))) => Flag {
                name: Some((crate::text::chars_to_string(&n), nsp)),
                value: Some((crate::text::chars_to_string(&v), vsp)),
            },
            None => Flag {
                name: Some((crate::text::chars_to_string(&tok.text), full)),
                value: None,
            },
        }
    } else {
        Flag { name: None, value: Some((crate::text::chars_to_string(&tok.text), full)) }
    }
}


/// Byte positions grow with character positions.
pub proof fn lemma_bpos_mono(s: Seq<char>, a: int, b: int)
    requires
        0 <= a <= b <= s.len(),
    ensures
        utf8_prefix_len(s, a) <= utf8_prefix_len(s, b),
{
    assert(s.take(b) =~= s.take(a) + s.take(b).skip(a));
    crate::text::lemma_utf8_len_add(s.take(a), s.take(b).skip(a));
    crate::text::lemma_utf8_len_nonneg(s.take(b).skip(a));
}

/// A flag names at least a name or a value.
pub open spec fn flag_present(f: FlagV) -> bool {
    f.name is Some || f.value is Some
}

/// Where a flag's spans begin.
pub open spec fn flag_lo(f: FlagV) -> int {
    match f.name {
        Some((t, sp)) => sp.start as int,
        None => match f.value {
            Some((t, sp)) => sp.start as int,
            None => 0,
        },
    }
}

/// Where a flag's spans end.
pub open spec fn flag_hi(f: FlagV) -> int {
    match f.value {
        Some((t, sp)) => sp.end as int,
        None => match f.name {
            Some((t, sp)) => sp.end as int,
            None => 0,
        },
    }
}

/// A flag's own spans are ordered: the name comes before the value.
pub open spec fn flag_ordered(f: FlagV) -> bool {
    &&& (f.name matches Some((t, sp)) ==> sp.start <= sp.end)
    &&& (f.value matches Some((t, sp)) ==> sp.start <= sp.end)
    &&& match (f.name, f.value) {
        (Some((n, nsp)), Some((v, vsp))) => nsp.end <= vsp.start,
        _ => true,
    }
}

/// The flags lie between byte offsets `lo` and `hi` and come in source
/// order without overlaps.
pub open spec fn flags_fields_in(flags: Seq<FlagV>, lo: int, hi: int) -> bool {
    &&& forall|i: int|
        0 <= i < flags.len() ==> flag_present(#[trigger] flags[i]) && flag_ordered(flags[i])
            && lo <= flag_lo(flags[i]) && flag_hi(flags[i]) <= hi
    &&& forall|i: int, j: int|
        0 <= i < j < flags.len() ==> flag_hi(#[trigger] flags[i]) <= flag_lo(#[trigger] flags[j])
}

/// Where the command and configuration spans of `l` end: the larger of
/// their end offsets, at least `lo`.
pub open spec fn head_end(l: LineV, lo: int) -> int {
    let a = match l.command {
        Some((t, sp)) => if sp.end as int > lo {
            sp.end as int
        } else {
            lo
        },
        None => lo,
    };
    match l.config {
        Some((t, sp)) => if sp.end as int > a {
            sp.end as int
        } else {
            a
        },
        None => a,
    }
}

/// All the fields of `l` lie between byte offsets `lo` and `hi`: the command
/// span comes before the configuration span, both come before every flag
/// span, and the flags come in source order without overlaps.
pub open spec fn line_fields_in(l: LineV, lo: int, hi: int) -> bool {
    &&& (l.command matches Some((t, sp)) ==> lo <= sp.start <= sp.end <= hi)
    &&& (l.config matches Some((t, sp)) ==> lo <= sp.start <= sp.end <= hi)
    &&& match (l.command, l.config) {
        (Some((t, sp)), Some((t2, sp2))) => sp.end <= sp2.start,
        _ => true,
    }
    &&& flags_fields_in(l.flags, head_end(l, lo), hi)
}

/// Span coverage: the command, configuration and flag spans of a line lie
/// within the line's own span, and sibling flags never overlap.
pub open spec fn line_spans_wf(l: LineV) -> bool {
    line_fields_in(l, l.span.start as int, l.span.end as int)
}

/// The byte offset that the parser has reached right before token `k`.
pub open spec fn rec_hi(toks: Seq<SpecToken>, s: Seq<char>, k: int) -> int {
    if 0 <= k < toks.len() {
        bpos(s, toks[k].start) as int
    } else {
        bpos(s, s.len() as int) as int
    }
}

#[verifier::rlimit(100)]
proof fn lemma_parse_rec_wf(
    toks: Seq<SpecToken>,
    s: Seq<char>,
    k: int,
    cur: LineV,
    started: bool,
    line_start: usize,
)
    requires
        utf8_len(s) <= usize::MAX,
        0 <= k <= toks.len(),
        forall|m: int|
            0 <= m < toks.len() ==> 0 <= (#[trigger] toks[m]).start < toks[m].end <= s.len(),
        forall|m: int| 0 <= m < toks.len() - 1 ==> (#[trigger] toks[m]).end <= toks[m + 1].start,
        line_start as int <= rec_hi(toks, s, k),
        line_fields_in(cur, line_start as int, rec_hi(toks, s, k)),
    ensures
        forall|i: int|
            0 <= i < spec_parse_rec(toks, s, k, cur, started, line_start).len()
                ==> line_spans_wf(
                #[trigger] spec_parse_rec(toks, s, k, cur, started, line_start)[i],
            ),
    decreases toks.len() - k,
{
    crate::text::lemma_utf8_prefix_bound(s, s.len() as int);
    if k >= toks.len() {
        // Possibly one final line whose span ends at the end of the source.
        assert(s.take(s.len() as int) =~= s);
        let whole = spec_parse_rec(toks, s, k, cur, started, line_start);
        if started || toks.len() == 0 {
            let done = LineV {
                command: cur.command,
                config: cur.config,
                flags: cur.flags,
                comment: cur.comment,
                span: Span { start: line_start, end: bpos(s, s.len() as int) },
            };
            assert(whole =~= seq![done]);
            assert(line_spans_wf(done));
            assert(forall|i: int| 0 <= i < whole.len() ==> #[trigger] whole[i] == done);
        }
    } else {
        let t = toks[k];
        let hi0 = rec_hi(toks, s, k);
        let hi1 = rec_hi(toks, s, k + 1);
        crate::text::lemma_utf8_prefix_bound(s, t.start);
        crate::text::lemma_utf8_prefix_bound(s, t.end);
        lemma_bpos_mono(s, t.start, t.end);
        if k + 1 < toks.len() {
            lemma_bpos_mono(s, t.end, toks[k + 1].start);
            crate::text::lemma_utf8_prefix_bound(s, toks[k + 1].start);
        } else {
            lemma_bpos_mono(s, t.end, s.len() as int);
        }
        assert(bpos(s, t.end) as int <= hi1);
        match t.v {
            TokenV::Token(text) => {
                let cur2 = spec_word_step(cur, s, text, t.start, t.end);
                assert(line_fields_in(cur2, line_start as int, hi1)) by {
                    lemma_word_step_fields(cur, s, text, t.start, t.end, line_start as int, hi0, hi1);
                }
                lemma_parse_rec_wf(toks, s, k + 1, cur2, true, line_start);
                assert(spec_parse_rec(toks, s, k, cur, started, line_start) == spec_parse_rec(
                    toks,
                    s,
                    k + 1,
                    cur2,
                    true,
                    line_start,
                ));
            },
            TokenV::Comment(text) => {
                let cur2 = LineV {
                    command: cur.command,
                    config: cur.config,
                    flags: cur.flags,
                    comment: Some((text, Span { start: bpos(s, t.start), end: bpos(s, t.end) })),
                    span: cur.span,
                };
                assert(line_fields_in(cur2, line_start as int, hi1));
                lemma_parse_rec_wf(toks, s, k + 1, cur2, true, line_start);
                assert(spec_parse_rec(toks, s, k, cur, started, line_start) == spec_parse_rec(
                    toks,
                    s,
                    k + 1,
                    cur2,
                    true,
                    line_start,
                ));
            },
            TokenV::Newline => {
                let done = LineV {
                    command: cur.command,
                    config: cur.config,
                    flags: cur.flags,
                    comment: cur.comment,
                    span: Span { start: line_start, end: bpos(s, t.start) },
                };
                assert(line_spans_wf(done));
                lemma_parse_rec_wf(toks, s, k + 1, empty_line_v(), false, bpos(s, t.end));
                let rest = spec_parse_rec(toks, s, k + 1, empty_line_v(), false, bpos(s, t.end));
                let whole = spec_parse_rec(toks, s, k, cur, started, line_start);
                assert(whole =~= seq![done] + rest);
                assert forall|i: int| 0 <= i < whole.len() implies line_spans_wf(
                    #[trigger] whole[i],
                ) by {
                    if i > 0 {
                        assert(whole[i] == rest[i - 1]);
                    }
                }
            },
            TokenV::EscapedNewline => {
                lemma_parse_rec_wf(toks, s, k + 1, cur, started, line_start);
                assert(spec_parse_rec(toks, s, k, cur, started, line_start) == spec_parse_rec(
                    toks,
                    s,
                    k + 1,
                    cur,
                    started,
                    line_start,
                ));
            },
        }
    }
}

/// One word token only adds spans inside the token's own byte range.
proof fn lemma_word_step_fields(
    cur: LineV,
    s: Seq<char>,
    text: Seq<char>,
    cs: int,
    ce: int,
    lo: int,
    hi0: int,
    hi1: int,
)
    requires
        0 <= cs < ce <= s.len(),
        lo <= hi0,
        hi0 <= bpos(s, cs) as int,
        bpos(s, ce) as int <= hi1,
        utf8_len(s) <= usize::MAX,
        line_fields_in(cur, lo, hi0),
    ensures
        line_fields_in(spec_word_step(cur, s, text, cs, ce), lo, hi1),
{
    crate::text::lemma_utf8_prefix_bound(s, cs);
    crate::text::lemma_utf8_prefix_bound(s, ce);
    lemma_bpos_mono(s, cs, ce);
    let cur2 = spec_word_step(cur, s, text, cs, ce);
    lemma_find_char_props(s, ':', cs);
    lemma_find_char_props(s, '=', cs);
    match spec_find_char(s, ':', cs) {
        Some(q) => {
            if q < ce {
                crate::text::lemma_utf8_prefix_bound(s, q);
                lemma_bpos_mono(s, cs, q);
                lemma_bpos_mono(s, q, ce);
            }
        },
        None => {},
    }
    match spec_find_char(s, '=', cs) {
        Some(q) => {
            if q < ce {
                crate::text::lemma_utf8_prefix_bound(s, q);
                lemma_bpos_mono(s, cs, q);
                lemma_bpos_mono(s, q, ce);
            }
        },
        None => {},
    }
    if cur.command is None && cur.flags.len() == 0 && !(text.len() > 0 && text[0] == '-') {
        // The word names the command (and possibly the configuration); the
        // flag list stays empty.
        assert(cur2.flags.len() == 0);
    } else {
        let f = spec_parse_flag(s, text, cs, ce);
        assert(flag_present(f) && flag_ordered(f) && bpos(s, cs) as int <= flag_lo(f) && flag_hi(f)
            <= bpos(s, ce) as int);
        // The head spans end at or before the watermark, which the new
        // flag's span starts at or after.
        assert(head_end(cur2, lo) == head_end(cur, lo));
        assert(head_end(cur, lo) <= hi0);
        assert forall|i: int, j: int| 0 <= i < j < cur2.flags.len() implies flag_hi(
            #[trigger] cur2.flags[i],
        ) <= flag_lo(#[trigger] cur2.flags[j]) by {
            if j < cur.flags.len() {
                assert(cur2.flags[i] == cur.flags[i]);
                assert(cur2.flags[j] == cur.flags[j]);
            } else {
                assert(cur2.flags[i] == cur.flags[i]);
                assert(cur2.flags[j] == f);
            }
        }
    }
}

/// Span coverage, for every line the parser produces from source `s`: the
/// union of the command, configuration and flag spans of a line is contained
/// in the line's own span, and the spans of sibling flags never overlap.
pub proof fn lemma_parse_span_coverage(s: Seq<char>)
    requires
        utf8_len(s) <= usize::MAX,
    ensures
        forall|i: int|
            0 <= i < spec_parse(spec_tokens(s, 0), s).len() ==> line_spans_wf(
                #[trigger] spec_parse(spec_tokens(s, 0), s)[i],
            ),
{
    lemma_spec_tokens_ordered(s, 0);
    crate::text::lemma_utf8_prefix_bound(s, 0);
    let stoks = spec_tokens(s, 0);
    if stoks.len() > 0 {
        crate::text::lemma_utf8_prefix_bound(s, stoks[0].start);
        lemma_bpos_mono(s, 0, stoks[0].start);
    } else {
        lemma_bpos_mono(s, 0, s.len() as int);
    }
    assert(s.take(0) =~= Seq::<char>::empty());
    lemma_parse_rec_wf(stoks, s, 0, empty_line_v(), false, 0);
}

/// Applies one word token to the line being built.
fn apply_word(chars: &Vec<char>, rt: &RawToken, cur: Line) -> (r: Line)
    requires
        rt.cs <= rt.ce <= chars@.len(),
        utf8_len(chars@) <= usize::MAX,
        rt.bytes_ok(chars@),
    ensures
        r@ == spec_word_step(cur@, chars@, rt.text@, rt.cs as int, rt.ce as int),
{
    let ghost curv0 = cur@;
    let mut cur = cur;
    let is_first = cur.command.is_none() && cur.flags.len() == 0 && !(rt.text.len() > 0
        && rt.text[0] == '-');
    if is_first {
        match split_tok_exec(chars, &rt.text, rt.cs, rt.ce, rt.bs, rt.be, ':') {
            Some(((cmd, cmdsp), (cfg, cfgsp))) => {
                cur.command = if cmd.len() == 0 {
                    None
                } else {
                    Some((crate::text::chars_to_string(&cmd), cmdsp))
                };
                cur.config = Some((crate::text::chars_to_string(&cfg), cfgsp));
            },
            None => {
                cur.command = Some(
                    (crate::text::chars_to_string(&rt.text), Span { start: rt.bs, end: rt.be }),
                );
                cur.config = None;
            },
        }
        proof {
            assert(cur@ =~~= spec_set_command(curv0, chars@, rt.text@, rt.cs as int, rt.ce as int));
        }
    } else {
        let f = parse_flag_exec(chars, rt);
        cur.flags.push(f);
        proof {
            assert(cur@.flags =~= curv0.flags.push(
                spec_parse_flag(chars@, rt.text@, rt.cs as int, rt.ce as int),
            ));
            assert(cur@ =~~= spec_word_step(curv0, chars@, rt.text@, rt.cs as int, rt.ce as int));
        }
    }
    cur
}

/// Pushing a line and then viewing is viewing and then pushing the view.
proof fn lemma_lines_view_push(s: Seq<Line>, l: Line)
    ensures
        s.push(l).map_values(|x: Line| x@) == s.map_values(|x: Line| x@).push(l@),
{
    assert(s.push(l).map_values(|x: Line| x@) =~= s.map_values(|x: Line| x@).push(l@));
}

/// Appending one element and then a tail is appending the element-plus-tail.
proof fn lemma_push_then_add(a: Seq<LineV>, x: LineV, b: Seq<LineV>)
    ensures
        a.push(x) + b == a + (seq![x] + b),
{
    assert(a.push(x) + b =~= a + (seq![x] + b));
}

/// Parses the token records into line records.
#[verifier::rlimit(100)]
fn parse_raw(chars: &Vec<char>, raws: &Vec<RawToken>, total_bytes: usize) -> (lines: Vec<Line>)
    requires
        utf8_len(chars@) <= usize::MAX,
        total_bytes as int == utf8_len(chars@),
        raws@.map_values(|t: RawToken| t.stok()) == spec_tokens(chars@, 0),
        forall|m: int| 0 <= m < raws@.len() ==> (#[trigger] raws@[m]).bytes_ok(chars@),
    ensures
        lines@.map_values(|l: Line| l@) == spec_parse(spec_tokens(chars@, 0), chars@),
{
    let ghost stoks = spec_tokens(chars@, 0);
    let ghost target = spec_parse(stoks, chars@);
    let n = raws.len();
    let mut lines: Vec<Line> = Vec::new();
    let mut cur: Line = Line {
        command: None,
        config: None,
        flags: Vec::new(),
        comment: None,
        span: Span { start: 0, end: 0 },
    };
    let mut started: bool = false;
    let mut line_start: usize = 0;
    let mut k: usize = 0;
    proof {
        assert(cur@ =~~= empty_line_v());
    }
    while k < n
        invariant
            n == raws@.len(),
            k <= n,
            utf8_len(chars@) <= usize::MAX,
            total_bytes as int == utf8_len(chars@),
            raws@.map_values(|t: RawToken| t.stok()) == stoks,
            forall|m: int| 0 <= m < raws@.len() ==> (#[trigger] raws@[m]).bytes_ok(chars@),
            stoks == spec_tokens(chars@, 0),
            target == spec_parse(stoks, chars@),
            lines@.map_values(|l: Line| l@) + spec_parse_rec(
                stoks,
                chars@,
                k as int,
                cur@,
                started,
                line_start,
            ) == target,
        decreases n - k,
    {
        proof {
            lemma_spec_tokens_ordered(chars@, 0);
            assert(raws@.map_values(|t: RawToken| t.stok())[k as int] == raws@[k as int].stok());
        }
        let rt = &raws[k];
        let ghost curv0 = cur@;
        let ghost started0 = started;
        let ghost t = stoks[k as int];
        match rt.kind {
            RawKind::Word => {
                let cur2 = apply_word(chars, rt, cur);
                cur = cur2;
                started = true;
                proof {
                    assert(t.v == TokenV::Token(rt.text@));
                    assert(spec_parse_rec(stoks, chars@, k as int, curv0, started0, line_start)
                        == spec_parse_rec(stoks, chars@, k as int + 1, cur@, true, line_start));
                }
            },
            RawKind::Comment => {
                cur.comment = Some(
                    (crate::text::chars_to_string(&rt.text), Span { start: rt.bs, end: rt.be }),
                );
                started = true;
                proof {
                    assert(t.v == TokenV::Comment(rt.text@));
                    assert(cur@ =~~= LineV {
                        command: curv0.command,
                        config: curv0.config,
                        flags: curv0.flags,
                        comment: Some(
                            (
                                rt.text@,
                                Span { start: bpos(chars@, t.start), end: bpos(chars@, t.end) },
                            ),
                        ),
                        span: curv0.span,
                    });
                    assert(spec_parse_rec(stoks, chars@, k as int, curv0, started0, line_start)
                        == spec_parse_rec(stoks, chars@, k as int + 1, cur@, true, line_start));
                }
            },
            RawKind::Newline => {
                cur.span = Span { start: line_start, end: rt.bs };
                let done = cur;
                cur = Line {
                    command: None,
                    config: None,
                    flags: Vec::new(),
                    comment: None,
                    span: Span { start: 0, end: 0 },
                };
                let ghost lines0_vec = lines@;
                let ghost lines0 = lines@.map_values(|l: Line| l@);
                lines.push(done);
                proof {
                    assert(t.v == TokenV::Newline);
                    assert(cur@ =~~= empty_line_v());
                    assert(done@ =~~= LineV {
                        command: curv0.command,
                        config: curv0.config,
                        flags: curv0.flags,
                        comment: curv0.comment,
                        span: Span { start: line_start, end: bpos(chars@, t.start) },
                    });
                    assert(spec_parse_rec(stoks, chars@, k as int, curv0, started0, line_start)
                        == seq![done@] + spec_parse_rec(
                        stoks,
                        chars@,
                        k as int + 1,
                        empty_line_v(),
                        false,
                        bpos(chars@, t.end),
                    ));
                    lemma_lines_view_push(lines0_vec, done);
                    lemma_push_then_add(
                        lines0,
                        done@,
                        spec_parse_rec(
                            stoks,
                            chars@,
                            k as int + 1,
                            empty_line_v(),
                            false,
                            bpos(chars@, t.end),
                        ),
                    );
                }
                line_start = rt.be;
                started = false;
            },
            RawKind::EscapedNewline => {
                proof {
                    assert(t.v == TokenV::EscapedNewline);
                    assert(spec_parse_rec(stoks, chars@, k as int, curv0, started0, line_start)
                        == spec_parse_rec(stoks, chars@, k as int + 1, cur@, started, line_start));
                }
            },
        }
        k = k + 1;
    }
    proof {
        assert(chars@.take(chars@.len() as int) =~= chars@);
    }
    if started || n == 0 {
        cur.span = Span { start: line_start, end: total_bytes };
        let ghost curv0 = cur@;
        let ghost lines0_vec = lines@;
        let ghost lines0 = lines@.map_values(|l: Line| l@);
        lines.push(cur);
        proof {
            assert(spec_parse_rec(stoks, chars@, n as int, curv0, started, line_start)
                =~= seq![curv0]);
            lemma_lines_view_push(lines0_vec, lines@[lines@.len() - 1]);
            assert(lines0.push(curv0) =~= lines0 + seq![curv0]);
        }
    } else {
        proof {
            assert(spec_parse_rec(stoks, chars@, n as int, cur@, started, line_start)
                =~= Seq::<LineV>::empty());
            assert(lines@.map_values(|l: Line| l@) + Seq::<LineV>::empty() =~= lines@.map_values(
                |l: Line| l@,
            ));
        }
    }
    lines
}

/// Tokenizes and parses `input`. Lexing errors are recoverable: the line
/// records are always produced, and the errors are reported alongside.
pub fn parse_from_str(input: &str) -> (r: ParserResult)
    ensures
        r.lines@.map_values(|l: Line| l@) == spec_parse(spec_tokens(input@, 0), input@),
        r.tokens@.len() == spec_tokens(input@, 0).len(),
        forall|k: int|
            0 <= k < r.tokens@.len() ==> crate::tokenizer::token_matches(
                input@,
                #[trigger] r.tokens@[k],
                spec_tokens(input@, 0)[k],
            ),
        r.errors@.len() == spec_lex_errors(input@, 0).len(),
        forall|k: int|
            0 <= k < r.errors@.len() ==> crate::tokenizer::lex_error_matches(
                input@,
                #[trigger] r.errors@[k],
                spec_lex_errors(input@, 0)[k],
            ),
{
    let chars = crate::text::str_chars(input);
    let total = crate::text::str_byte_len(input);
    let (raws, rerrs) = tokenize_chars(&chars);
    let lines = parse_raw(&chars, &raws, total);
    let (tokens, errors) = crate::tokenizer::raw_to_public(input, &chars, raws, rerrs);
    ParserResult { tokens, lines, errors }
}

/// Copies an optional spanned string.
pub(crate) fn clone_spanned_text(o: &Option<(String, Span)>) -> (r: Option<(String, Span)>)
    ensures
        spanned_view(&r) == spanned_view(o),
{
    match o {
        Some((s, sp)) => Some((s.clone(), *sp)),
        None => None,
    }
}

/// Copies a flag record.
pub(crate) fn clone_flag(f: &Flag) -> (r: Flag)
    ensures
        r@ == f@,
{
    Flag { name: clone_spanned_text(&f.name), value: clone_spanned_text(&f.value) }
}

/// Copies a line record.
pub(crate) fn clone_line(l: &Line) -> (r: Line)
    ensures
        r@ == l@,
{
    let n = l.flags.len();
    let mut flags: Vec<Flag> = Vec::new();
    let mut i: usize = 0;
    while i < n
        invariant
            i <= n,
            n == l.flags@.len(),
            flags@.len() == i,
            forall|j: int| 0 <= j < i ==> (#[trigger] flags@[j])@ == l.flags@[j]@,
        decreases n - i,
    {
        flags.push(clone_flag(&l.flags[i]));
        i = i + 1;
    }
    let r = Line {
        command: clone_spanned_text(&l.command),
        config: clone_spanned_text(&l.config),
        flags,
        comment: clone_spanned_text(&l.comment),
        span: l.span,
    };
    proof {
        assert(r@.flags =~= l@.flags);
        assert(r@ =~~= l@);
    }
    r
}

} // verus!
