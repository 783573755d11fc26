//! Pretty-printing for `bazelrc` files: canonical escaping of single tokens,
//! rendering of line records, and the line-merging and line-splitting reflow
//! policies.

use vstd::prelude::*;
use vstd::string::*;

use crate::bazel_flags::BazelFlags;
use crate::parser::{spanned_view, Flag, FlagV, Line, LineV};
use crate::text::{
    alphanumeric_char, chars_to_string, is_alphanumeric_char, is_whitespace_char, push_str_chars,
    spec_escaped, str_eq, whitespace_char,
};
use crate::tokenizer::Span;

verus! {

/// ASCII punctuation, as the standard library delimits it.
pub open spec fn is_ascii_punct(c: char) -> bool {
    ('!' <= c <= '/') || (':' <= c <= '@') || ('[' <= c <= '`') || ('{' <= c <= '~')
}

/// Characters that may stand in a formatted token without any quoting.
pub open spec fn plain_token_char(c: char) -> bool {
    (alphanumeric_char(c) || is_ascii_punct(c)) && c != '"' && c != '\\'
}

/// The canonical escaping of one token: empty tokens render as `""`, tokens
/// of letters, digits and punctuation render as themselves, and everything
/// else is double-quoted with `"` and `\` escaped.
pub open spec fn spec_format_token(t: Seq<char>) -> Seq<char> {
    if t.len() == 0 {
        seq!['"', '"']
    } else if forall|i: int| 0 <= i < t.len() ==> plain_token_char(#[trigger] t[i]) {
        t
    } else {
        seq!['"'] + spec_escaped(t) + seq!['"']
    }
}

/// Appends the canonical escaping of `tok` to `out`.
pub fn format_token_chars(out: &mut Vec<char>, tok: &str)
    ensures
        final(out)@ == old(out)@ + spec_format_token(tok@),
{
    let n = tok.unicode_len();
    if n == 0 {
        out.push('"');
        out.push('"');
        proof {
            assert(out@ =~= old(out)@ + spec_format_token(tok@));
        }
        return ;
    }
    let mut plain = true;
    let mut i: usize = 0;
    while i < n
        invariant
            i <= n,
            n == tok@.len(),
            plain == (forall|j: int| 0 <= j < i ==> plain_token_char(#[trigger] tok@[j])),
        decreases n - i,
    {
        let c = tok.get_char(i);
        let ok = (is_alphanumeric_char(c) || (('!' <= c && c <= '/') || (':' <= c && c <= '@') || (
        '[' <= c && c <= '`') || ('{' <= c && c <= '~'))) && c != '"' && c != '\\';
        if !ok {
            plain = false;
            proof {
                assert(!plain_token_char(tok@[i as int]));
            }
            i = n;
        } else {
            proof {
                assert(plain_token_char(tok@[i as int]));
            }
            i = i + 1;
        }
    }
    if plain {
        push_str_chars(out, tok);
        proof {
            assert(out@ =~= old(out)@ + spec_format_token(tok@));
        }
    } else {
        crate::text::push_quoted(out, tok);
        proof {
            assert(out@ =~= old(out)@ + spec_format_token(tok@));
        }
    }
}

/// Appends the canonical escaping of `tok` to the string `out`.
pub fn format_token_into(out: &mut String, tok: &str)
    ensures
        final(out)@ == old(out)@ + spec_format_token(tok@),
{
    let mut v: Vec<char> = Vec::new();
    format_token_chars(&mut v, tok);
    let s = chars_to_string(&v);
    out.append(s.as_str());
    proof {
        assert(out@ =~= old(out)@ + spec_format_token(tok@));
    }
}

/// The canonical escaping of `tok`, as a new string.
pub fn format_token(tok: &str) -> (r: String)
    ensures
        r@ == spec_format_token(tok@),
{
    let mut v: Vec<char> = Vec::new();
    format_token_chars(&mut v, tok);
    chars_to_string(&v)
}

/// The length of `s` without its trailing white space.
pub open spec fn spec_trim_end_len(s: Seq<char>) -> int
    decreases s.len(),
{
    if s.len() > 0 && whitespace_char(s.last()) {
        spec_trim_end_len(s.drop_last())
    } else {
        s.len() as int
    }
}

pub open spec fn spec_trim_end(s: Seq<char>) -> Seq<char> {
    s.take(spec_trim_end_len(s))
}

/// The first non-white-space position of `s` at or after `i`.
pub open spec fn spec_ws_start(s: Seq<char>, i: int) -> int
    decreases s.len() - i,
{
    if 0 <= i < s.len() && whitespace_char(s[i]) {
        spec_ws_start(s, i + 1)
    } else {
        i
    }
}

/// The text without leading and trailing white space.
pub open spec fn spec_trim(s: Seq<char>) -> Seq<char> {
    spec_trim_end(s).skip(spec_ws_start(spec_trim_end(s), 0))
}

/// Newlines turned into escaped newlines, so a comment stays one comment.
pub open spec fn spec_replace_nl(s: Seq<char>) -> Seq<char>
    decreases s.len(),
{
    if s.len() == 0 {
        Seq::empty()
    } else if s.last() == '\n' {
        spec_replace_nl(s.drop_last()) + seq!['\\', '\n']
    } else {
        spec_replace_nl(s.drop_last()) + seq![s.last()]
    }
}

/// How one flag renders: `name`, `name=value` (an empty value renders as
/// nothing after the `=`), or a bare value.
pub open spec fn spec_format_flag(f: FlagV) -> Seq<char> {
    match f.name {
        Some((n, nsp)) => spec_format_token(n) + (match f.value {
            Some((v, vsp)) => seq!['='] + (if v.len() > 0 {
                spec_format_token(v)
            } else {
                Seq::empty()
            }),
            None => Seq::empty(),
        }),
        None => match f.value {
            Some((v, vsp)) => spec_format_token(v),
            None => Seq::empty(),
        },
    }
}

/// The rendering of the flags from position `k` on; `non_empty` says whether
/// anything was already written for this line, and `cont` whether flags are
/// separated by line continuations.
pub open spec fn spec_format_flags(flags: Seq<FlagV>, k: int, non_empty: bool, cont: bool) -> Seq<
    char,
>
    decreases flags.len() - k,
{
    if k < 0 || k >= flags.len() {
        Seq::empty()
    } else {
        (if non_empty {
            if cont {
                " \\\n    "@
            } else {
                seq![' ']
            }
        } else {
            Seq::empty()
        }) + spec_format_flag(flags[k]) + spec_format_flags(flags, k + 1, true, cont)
    }
}

/// The command and configuration part of a rendered line.
pub open spec fn spec_line_head(l: LineV) -> Seq<char> {
    (match l.command {
        Some((c, csp)) => spec_format_token(c),
        None => Seq::empty(),
    }) + (match l.config {
        Some((g, gsp)) => seq![':'] + spec_format_token(g),
        None => Seq::empty(),
    })
}

/// The comment part of a rendered line; `ne1` says whether anything stands
/// before it. A comment alone on its line keeps its spacing — it might be
/// part of a picture — while one after content is re-spaced.
pub open spec fn spec_line_comment(l: LineV, ne1: bool) -> Seq<char> {
    match l.comment {
        Some((cm, msp)) => {
            let lone = l.command is None && l.config is None && l.flags.len() == 0;
            let stripped = if lone {
                spec_trim_end(cm)
            } else {
                seq![' '] + spec_trim(cm)
            };
            (if ne1 {
                seq![' ']
            } else {
                Seq::empty()
            }) + seq!['#'] + spec_replace_nl(stripped)
        },
        None => Seq::empty(),
    }
}

/// How one line renders: command, `:config`, the flags, then the comment,
/// and a final newline.
pub open spec fn spec_format_line(l: LineV, use_cont: bool) -> Seq<char> {
    let ne0 = l.command is Some || l.config is Some;
    let cont = use_cont && l.flags.len() >= 2 && l.comment is None;
    let ne1 = ne0 || l.flags.len() > 0;
    spec_line_head(l) + spec_format_flags(l.flags, 0, ne0, cont) + spec_line_comment(l, ne1)
        + seq!['\n']
}

/// The length of `v` without trailing white space.
fn trim_end_len(v: &Vec<char>) -> (r: usize)
    ensures
        r as int == spec_trim_end_len(v@),
        r <= v@.len(),
{
    let mut e = v.len();
    proof {
        assert(v@.take(e as int) =~= v@);
    }
    while e > 0 && is_whitespace_char(v[e - 1])
        invariant
            e <= v@.len(),
            spec_trim_end_len(v@.take(e as int)) == spec_trim_end_len(v@),
        decreases e,
    {
        proof {
            assert(v@.take(e as int).last() == v@[e - 1]);
            assert(v@.take(e as int).drop_last() =~= v@.take(e - 1));
        }
        e = e - 1;
    }
    proof {
        if e > 0 {
            assert(v@.take(e as int).last() == v@[e - 1]);
        }
        assert(spec_trim_end_len(v@.take(e as int)) == e);
    }
    e
}

/// The first non-white-space position of `v` before `e`.
fn ws_start_idx(v: &Vec<char>, e: usize) -> (r: usize)
    requires
        e <= v@.len(),
    ensures
        r as int == spec_ws_start(v@.take(e as int), 0),
        r <= e,
{
    let ghost t = v@.take(e as int);
    let mut i: usize = 0;
    while i < e && is_whitespace_char(v[i])
        invariant
            i <= e <= v@.len(),
            t == v@.take(e as int),
            spec_ws_start(t, 0) == spec_ws_start(t, i as int),
        decreases e - i,
    {
        proof {
            assert(t[i as int] == v@[i as int]);
        }
        i = i + 1;
    }
    proof {
        if i < e {
            assert(t[i as int] == v@[i as int]);
        }
        assert(spec_ws_start(t, i as int) == i);
    }
    i
}

/// Appends `s` with newlines escaped.
fn push_replace_nl(out: &mut Vec<char>, s: &Vec<char>, from: usize, to: usize)
    requires
        from <= to <= s@.len(),
    ensures
        final(out)@ == old(out)@ + spec_replace_nl(s@.subrange(from as int, to as int)),
{
    let ghost t = s@.subrange(from as int, to as int);
    let mut i: usize = from;
    proof {
        assert(spec_replace_nl(t.take(0)) =~= Seq::<char>::empty());
        assert(out@ =~= old(out)@ + spec_replace_nl(t.take(0)));
    }
    while i < to
        invariant
            from <= i <= to <= s@.len(),
            t == s@.subrange(from as int, to as int),
            out@ == old(out)@ + spec_replace_nl(t.take(i - from)),
        decreases to - i,
    {
        let c = s[i];
        proof {
            assert(t.take(i - from + 1).drop_last() =~= t.take(i - from));
            assert(t.take(i - from + 1).last() == t[i - from]);
            assert(t[i - from] == s@[i as int]);
        }
        if c == '\n' {
            out.push('\\');
            out.push('\n');
            proof {
                assert(out@ =~= old(out)@ + spec_replace_nl(t.take(i - from + 1)));
            }
        } else {
            out.push(c);
            proof {
                assert(out@ =~= old(out)@ + spec_replace_nl(t.take(i - from + 1)));
            }
        }
        i = i + 1;
    }
    proof {
        assert(t.take(to - from) =~= t);
    }
}

/// Appends the rendering of one flag to `out`.
fn format_flag_chars(out: &mut Vec<char>, f: &Flag)
    ensures
        final(out)@ == old(out)@ + spec_format_flag(f@),
{
    match &f.name {
        Some((fname, fnsp)) => {
            format_token_chars(out, fname.as_str());
            match &f.value {
                Some((fval, fvsp)) => {
                    out.push('=');
                    if fval.as_str().unicode_len() > 0 {
                        format_token_chars(out, fval.as_str());
                    }
                    proof {
                        assert(out@ =~= old(out)@ + spec_format_flag(f@));
                    }
                },
                None => {
                    proof {
                        assert(out@ =~= old(out)@ + spec_format_flag(f@));
                    }
                },
            }
        },
        None => {
            match &f.value {
                Some((fval, fvsp)) => {
                    format_token_chars(out, fval.as_str());
                    proof {
                        assert(out@ =~= old(out)@ + spec_format_flag(f@));
                    }
                },
                None => {
                    proof {
                        assert(out@ =~= old(out)@ + spec_format_flag(f@));
                    }
                },
            }
        },
    }
}

/// Appends the comment part of a line; `ne1` says whether anything stands
/// before it on the rendered line.
fn push_line_comment(out: &mut Vec<char>, line: &Line, ne1: bool)
    ensures
        final(out)@ == old(out)@ + spec_line_comment(line@, ne1),
{
    let ghost lv = line@;
    match &line.comment {
        Some((cm, msp)) => {
            if ne1 {
                out.push(' ');
            }
            out.push('#');
            let cmv = crate::text::str_chars(cm.as_str());
            let lone = line.command.is_none() && line.config.is_none() && line.flags.len() == 0;
            let e = trim_end_len(&cmv);
            if lone {
                proof {
                    assert(cmv@.subrange(0, e as int) =~= spec_trim_end(cm@));
                }
                push_replace_nl(out, &cmv, 0, e);
                proof {
                    assert(out@ =~= old(out)@ + spec_line_comment(lv, ne1));
                }
            } else {
                out.push(' ');
                let st = ws_start_idx(&cmv, e);
                proof {
                    assert(cmv@.subrange(st as int, e as int) =~= spec_trim(cm@));
                }
                push_replace_nl(out, &cmv, st, e);
                proof {
                    assert(spec_replace_nl(seq![' '] + spec_trim(cm@)) =~= seq![' ']
                        + spec_replace_nl(spec_trim(cm@))) by {
                        lemma_replace_nl_space(spec_trim(cm@));
                    }
                    assert(out@ =~= old(out)@ + spec_line_comment(lv, ne1));
                }
            }
        },
        None => {
            proof {
                assert(out@ =~= old(out)@ + spec_line_comment(lv, ne1));
            }
        },
    }
}

/// Appends the rendering of `line` to `out`.
#[verifier::rlimit(100)]
fn format_line_chars(out: &mut Vec<char>, line: &Line, use_line_continuations: bool)
    ensures
        final(out)@ == old(out)@ + spec_format_line(line@, use_line_continuations),
{
    let ghost lv = line@;
    let mut non_empty = false;
    match &line.command {
        Some((c, csp)) => {
            format_token_chars(out, c.as_str());
            non_empty = true;
        },
        None => {},
    }
    match &line.config {
        Some((g, gsp)) => {
            out.push(':');
            format_token_chars(out, g.as_str());
            non_empty = true;
        },
        None => {},
    }
    proof {
        assert(out@ =~= old(out)@ + spec_line_head(lv));
    }
    let ghost head_done = out@;
    let cont = use_line_continuations && line.flags.len() >= 2 && line.comment.is_none();
    let n = line.flags.len();
    let mut k: usize = 0;
    while k < n
        invariant
            k <= n,
            n == line.flags@.len(),
            lv == line@,
            cont == (use_line_continuations && lv.flags.len() >= 2 && lv.comment is None),
            non_empty == ((lv.command is Some || lv.config is Some) || k > 0),
            out@ + spec_format_flags(lv.flags, k as int, non_empty, cont) == head_done
                + spec_format_flags(lv.flags, 0, lv.command is Some || lv.config is Some, cont),
        decreases n - k,
    {
        proof {
            assert(lv.flags[k as int] == line.flags@[k as int]@);
        }
        if non_empty {
            if cont {
                push_str_chars(out, " \\\n    ");
            } else {
                out.push(' ');
            }
        }
        format_flag_chars(out, &line.flags[k]);
        proof {
            assert(out@ + spec_format_flags(lv.flags, k + 1, true, cont) =~= head_done
                + spec_format_flags(lv.flags, 0, lv.command is Some || lv.config is Some, cont));
        }
        non_empty = true;
        k = k + 1;
    }
    proof {
        assert(spec_format_flags(lv.flags, n as int, non_empty, cont) =~= Seq::<char>::empty());
        assert(out@ =~= head_done + spec_format_flags(
            lv.flags,
            0,
            lv.command is Some || lv.config is Some,
            cont,
        ));
    }
    let ghost flags_done = out@;
    let ghost ne1 = (lv.command is Some || lv.config is Some) || lv.flags.len() > 0;
    push_line_comment(out, line, non_empty);
    out.push('\n');
    proof {
        assert(out@ =~= old(out)@ + spec_format_line(lv, use_line_continuations));
    }
}

/// A leading space passes through the newline replacement.
proof fn lemma_replace_nl_space(s: Seq<char>)
    ensures
        spec_replace_nl(seq![' '] + s) == seq![' '] + spec_replace_nl(s),
    decreases s.len(),
{
    if s.len() == 0 {
        assert(seq![' '] + s =~= seq![' ']);
        assert(spec_replace_nl(seq![' ']) =~= seq![' ']) by {
            assert(seq![' '].drop_last() =~= Seq::<char>::empty());
            assert(seq![' '].last() == ' ');
            assert(spec_replace_nl(Seq::<char>::empty()) =~= Seq::<char>::empty());
        }
        assert(seq![' '] + spec_replace_nl(s) =~= seq![' ']);
    } else {
        lemma_replace_nl_space(s.drop_last());
        assert((seq![' '] + s).drop_last() =~= seq![' '] + s.drop_last());
        assert((seq![' '] + s).last() == s.last());
        if s.last() == '\n' {
            assert(seq![' '] + spec_replace_nl(s) =~= seq![' '] + (spec_replace_nl(s.drop_last())
                + seq!['\\', '\n']));
            assert(spec_replace_nl(seq![' '] + s) =~= seq![' '] + spec_replace_nl(s));
        } else {
            assert(seq![' '] + spec_replace_nl(s) =~= seq![' '] + (spec_replace_nl(s.drop_last())
                + seq![s.last()]));
            assert(spec_replace_nl(seq![' '] + s) =~= seq![' '] + spec_replace_nl(s));
        }
    }
}

/// Appends the rendering of `line` to the string `out`.
pub fn format_line_into(out: &mut String, line: &Line, use_line_continuations: bool)
    ensures
        final(out)@ == old(out)@ + spec_format_line(line@, use_line_continuations),
{
    let mut v: Vec<char> = Vec::new();
    format_line_chars(&mut v, line, use_line_continuations);
    let s = chars_to_string(&v);
    out.append(s.as_str());
    proof {
        assert(out@ =~= old(out)@ + spec_format_line(line@, use_line_continuations));
    }
}

/// The rendering of `line`, as a new string.
pub fn format_line(line: &Line, use_line_continuations: bool) -> (r: String)
    ensures
        r@ == spec_format_line(line@, use_line_continuations),
{
    let mut v: Vec<char> = Vec::new();
    format_line_chars(&mut v, line, use_line_continuations);
    chars_to_string(&v)
}

/// Whether lines are merged or split when a `bazelrc` file is reformatted.
#[derive(PartialEq, Eq, Structural, Default, Debug, Clone, Copy)]
pub enum FormatLineFlow {
    /// Do not reflow lines.
    #[default]
    Keep,
    /// Merge subsequent lines of one command and write `\` continuations.
    LineContinuations,
    /// Put each flag on a separate line.
    SeparateLines,
    /// Put all flags of one command on a single line.
    SingleLine,
}

/// Whether two optional spanned texts hold the same text.
pub open spec fn spec_texts_eq(a: Option<(Seq<char>, Span)>, b: Option<(Seq<char>, Span)>) -> bool {
    match (a, b) {
        (Some(x), Some(y)) => x.0 == y.0,
        (None, None) => true,
        _ => false,
    }
}

/// Whether `l` may be merged into `prev`: same command and configuration
/// texts, not an import, and neither line carries a comment.
pub open spec fn spec_mergeable(prev: LineV, l: LineV) -> bool {
    &&& spec_texts_eq(l.command, prev.command)
    &&& spec_texts_eq(l.config, prev.config)
    &&& match l.command {
        Some((c, csp)) => c != "import"@ && c != "try-import"@,
        None => true,
    }
    &&& l.comment is None
    &&& prev.comment is None
}

/// `l` merged into `prev`: the flags concatenated, the span extended.
pub open spec fn spec_merged(prev: LineV, l: LineV) -> LineV {
    LineV {
        command: prev.command,
        config: prev.config,
        flags: prev.flags + l.flags,
        comment: prev.comment,
        span: Span { start: prev.span.start, end: l.span.end },
    }
}

/// The merging pass: each line joins the previous one when it repeats its
/// command and configuration.
pub open spec fn spec_merge_lines(lines: Seq<LineV>, k: int, out: Seq<LineV>) -> Seq<LineV>
    decreases lines.len() - k,
{
    if k < 0 || k >= lines.len() {
        out
    } else if out.len() > 0 && spec_mergeable(out.last(), lines[k]) {
        spec_merge_lines(
            lines,
            k + 1,
            out.update(out.len() - 1, spec_merged(out.last(), lines[k])),
        )
    } else {
        spec_merge_lines(lines, k + 1, out.push(lines[k]))
    }
}

/// The lines that one line splits into: one line per flag, the comment and
/// the span staying with the first.
pub open spec fn spec_split_of(l: LineV) -> Seq<LineV> {
    Seq::new(
        l.flags.len(),
        |i: int|
            LineV {
                command: l.command,
                config: l.config,
                flags: seq![l.flags[i]],
                comment: if i == 0 {
                    l.comment
                } else {
                    None
                },
                span: if i == 0 {
                    l.span
                } else {
                    Span { start: l.span.end, end: l.span.end }
                },
            },
    )
}

/// The splitting pass: each flag goes to a line of its own.
pub open spec fn spec_split_lines(lines: Seq<LineV>, k: int, out: Seq<LineV>) -> Seq<LineV>
    decreases lines.len() - k,
{
    if k < 0 || k >= lines.len() {
        out
    } else if lines[k].flags.len() == 0 {
        spec_split_lines(lines, k + 1, out.push(lines[k]))
    } else {
        spec_split_lines(lines, k + 1, out + spec_split_of(lines[k]))
    }
}

pub open spec fn spec_line_is_empty(l: LineV) -> bool {
    l.command is None && l.config is None && l.flags.len() == 0 && l.comment is None
}

pub open spec fn spec_extend_span(l: LineV, end: usize) -> LineV {
    LineV {
        command: l.command,
        config: l.config,
        flags: l.flags,
        comment: l.comment,
        span: Span { start: l.span.start, end },
    }
}

/// The blank-line pass: runs of empty lines collapse into one, and leading
/// empty lines disappear.
pub open spec fn spec_squash_lines(lines: Seq<LineV>, k: int, out: Seq<LineV>) -> Seq<LineV>
    decreases lines.len() - k,
{
    if k < 0 || k >= lines.len() {
        out
    } else if !spec_line_is_empty(lines[k]) {
        spec_squash_lines(lines, k + 1, out.push(lines[k]))
    } else if out.len() == 0 {
        spec_squash_lines(lines, k + 1, out)
    } else if spec_line_is_empty(out.last()) {
        spec_squash_lines(
            lines,
            k + 1,
            out.update(out.len() - 1, spec_extend_span(out.last(), lines[k].span.end)),
        )
    } else {
        spec_squash_lines(lines, k + 1, out.push(lines[k]))
    }
}

/// The final pass: a trailing empty line disappears, its span going to the
/// line before it.
pub open spec fn spec_drop_trailing(out: Seq<LineV>) -> Seq<LineV> {
    if out.len() > 0 && spec_line_is_empty(out.last()) {
        let popped = out.drop_last();
        if popped.len() > 0 {
            popped.update(
                popped.len() - 1,
                spec_extend_span(popped.last(), out.last().span.end),
            )
        } else {
            popped
        }
    } else {
        out
    }
}

/// The whole reflow policy.
pub open spec fn spec_reflow(lines: Seq<LineV>, flow: FormatLineFlow) -> Seq<LineV> {
    let phase1 = match flow {
        FormatLineFlow::Keep => lines,
        FormatLineFlow::LineContinuations => spec_merge_lines(lines, 0, Seq::empty()),
        FormatLineFlow::SingleLine => spec_merge_lines(lines, 0, Seq::empty()),
        FormatLineFlow::SeparateLines => spec_split_lines(lines, 0, Seq::empty()),
    };
    spec_drop_trailing(spec_squash_lines(phase1, 0, Seq::empty()))
}

/// The escaping of one character in a quoted token.
pub open spec fn spec_escaped_one(c: char) -> Seq<char> {
    if c == '"' || c == '\\' {
        seq!['\\', c]
    } else {
        seq![c]
    }
}

/// Escaping goes segment by segment.
proof fn lemma_escaped_add(a: Seq<char>, b: Seq<char>)
    ensures
        spec_escaped(a + b) == spec_escaped(a) + spec_escaped(b),
    decreases b.len(),
{
    if b.len() == 0 {
        assert(a + b =~= a);
        assert(spec_escaped(a) + spec_escaped(b) =~= spec_escaped(a));
    } else {
        lemma_escaped_add(a, b.drop_last());
        assert((a + b).drop_last() =~= a + b.drop_last());
        assert((a + b).last() == b.last());
        if b.last() == '"' || b.last() == '\\' {
            assert(spec_escaped(a) + spec_escaped(b) =~= spec_escaped(a) + (spec_escaped(
                b.drop_last(),
            ) + seq!['\\', b.last()]));
        } else {
            assert(spec_escaped(a) + spec_escaped(b) =~= spec_escaped(a) + (spec_escaped(
                b.drop_last(),
            ) + seq![b.last()]));
        }
    }
}

/// One more character extends the escaping by its own escaping.
proof fn lemma_escaped_step(t: Seq<char>, k: int)
    requires
        0 <= k < t.len(),
    ensures
        spec_escaped(t.take(k + 1)) == spec_escaped(t.take(k)) + spec_escaped_one(t[k]),
{
    assert(t.take(k + 1).drop_last() =~= t.take(k));
    assert(t.take(k + 1).last() == t[k]);
    if t[k] == '"' || t[k] == '\\' {
        assert(spec_escaped(t.take(k)) + spec_escaped_one(t[k]) =~= spec_escaped(t.take(k))
            + seq!['\\', t[k]]);
    } else {
        assert(spec_escaped(t.take(k)) + spec_escaped_one(t[k]) =~= spec_escaped(t.take(k))
            + seq![t[k]]);
    }
}

proof fn lemma_escaped_nonneg(t: Seq<char>)
    ensures
        spec_escaped(t).len() >= t.len(),
    decreases t.len(),
{
    if t.len() > 0 {
        lemma_escaped_nonneg(t.drop_last());
    }
}

/// Scanning the quoted rendering from inside the quote: the remaining
/// escaped characters come back unescaped, and the closing quote ends the
/// word at the very end.
proof fn lemma_scan_quoted_from(t: Seq<char>, k: int, text0: Seq<char>)
    requires
        0 <= k <= t.len(),
        forall|i: int| 0 <= i < t.len() ==> t[i] != '\n' && t[i] != '\r',
    ensures
        ({
            let fq = seq!['"'] + spec_escaped(t) + seq!['"'];
            crate::tokenizer::scan_word(
                fq,
                1 + spec_escaped(t.take(k)).len() as int,
                text0 + t.take(k),
                Some(('"', 0, text0)),
            ) == (text0 + t, fq.len() as int)
        }),
    decreases t.len() - k,
{
    let fq = seq!['"'] + spec_escaped(t) + seq!['"'];
    let p = 1 + spec_escaped(t.take(k)).len() as int;
    let cur = text0 + t.take(k);
    if k == t.len() {
        // Only the closing quote remains.
        assert(t.take(k) =~= t);
        assert(p + 1 == fq.len());
        assert(fq[p] == '"');
        assert(crate::tokenizer::scan_word(fq, p + 1, cur, None) == (cur, p + 1));
        assert(crate::tokenizer::scan_word(fq, p, cur, Some(('"', 0, text0)))
            == crate::tokenizer::scan_word(fq, p + 1, cur, None));
        assert(cur =~= text0 + t);
    } else {
        let c = t[k];
        let rest = t.skip(k + 1);
        lemma_escaped_step(t, k);
        assert(t =~= t.take(k + 1) + rest);
        lemma_escaped_add(t.take(k + 1), rest);
        assert(spec_escaped(t) =~= spec_escaped(t.take(k)) + spec_escaped_one(c) + spec_escaped(
            rest,
        ));
        let p2 = 1 + spec_escaped(t.take(k + 1)).len() as int;
        assert(p2 == p + spec_escaped_one(c).len());
        lemma_scan_quoted_from(t, k + 1, text0);
        assert(cur.push(c) =~= text0 + t.take(k + 1));
        if c == '"' || c == '\\' {
            // The character was escaped: the scan reads `\` then `c`.
            assert(spec_escaped_one(c).len() == 2);
            assert(fq[p] == spec_escaped(t)[p - 1]);
            assert(spec_escaped(t)[p - 1] == spec_escaped_one(c)[0]);
            assert(fq[p + 1] == spec_escaped(t)[p]);
            assert(spec_escaped(t)[p] == spec_escaped_one(c)[1]);
            assert(fq[p] == '\\' && fq[p + 1] == c);
            assert(crate::tokenizer::scan_word(fq, p, cur, Some(('"', 0, text0)))
                == crate::tokenizer::scan_word(fq, p + 2, cur.push(c), Some(('"', 0, text0))));
        } else {
            // The character stands for itself; inside the quote it is
            // either a raw word character or a literal structural one.
            assert(spec_escaped_one(c).len() == 1);
            assert(fq[p] == spec_escaped(t)[p - 1]);
            assert(spec_escaped(t)[p - 1] == spec_escaped_one(c)[0]);
            assert(fq[p] == c);
            assert(crate::tokenizer::scan_word(fq, p, cur, Some(('"', 0, text0)))
                == crate::tokenizer::scan_word(fq, p + 1, cur.push(c), Some(('"', 0, text0))));
        }
    }
}

/// Scanning an all-raw token consumes it whole.
proof fn lemma_scan_all_raw(t: Seq<char>, k: int, text0: Seq<char>)
    requires
        0 <= k <= t.len(),
        forall|i: int| 0 <= i < t.len() ==> crate::tokenizer::is_raw_word_char(#[trigger] t[i]),
    ensures
        crate::tokenizer::scan_word(t, k, text0 + t.take(k), None) == (
            text0 + t,
            t.len() as int,
        ),
    decreases t.len() - k,
{
    if k == t.len() {
        assert(t.take(k) =~= t);
    } else {
        lemma_scan_all_raw(t, k + 1, text0);
        assert((text0 + t.take(k)).push(t[k]) =~= text0 + t.take(k + 1));
        assert(crate::tokenizer::scan_word(t, k, text0 + t.take(k), None)
            == crate::tokenizer::scan_word(t, k + 1, (text0 + t.take(k)).push(t[k]), None));
    }
}

/// Round trip of the token renderer: tokenizing `format_token(tok)` yields
/// exactly one word token whose text is `tok` again, with no lexing errors.
/// This holds for every token without a newline or carriage return whose
/// plain rendering does not hand a structural character to the tokenizer: a
/// plainly rendered `#` or `'` would start a comment or a quote again.
pub proof fn lemma_format_token_round_trip(t: Seq<char>)
    requires
        forall|i: int| 0 <= i < t.len() ==> t[i] != '\n' && t[i] != '\r',
        (t.len() > 0 && (forall|i: int| 0 <= i < t.len() ==> plain_token_char(#[trigger] t[i])))
            ==> forall|i: int| 0 <= i < t.len() ==> t[i] != '#' && t[i] != '\'',
    ensures
        ({
            let f = spec_format_token(t);
            &&& crate::tokenizer::spec_tokens(f, 0) == seq![
                crate::tokenizer::SpecToken {
                    v: crate::tokenizer::TokenV::Token(t),
                    start: 0,
                    end: f.len() as int,
                },
            ]
            &&& crate::tokenizer::spec_lex_errors(f, 0) == Seq::<
                crate::tokenizer::SpecLexError,
            >::empty()
        }),
{
    let f = spec_format_token(t);
    if t.len() == 0 {
        assert(f =~= seq!['"', '"']);
        assert(f[0] == '"' && f[1] == '"');
        assert(crate::tokenizer::scan_word(f, 2, Seq::empty(), None) == (
            Seq::<char>::empty(),
            2int,
        ));
        assert(crate::tokenizer::scan_word(f, 1, Seq::empty(), Some(('"', 0, Seq::empty())))
            == crate::tokenizer::scan_word(f, 2, Seq::empty(), None));
        assert(crate::tokenizer::scan_word(f, 0, Seq::empty(), None)
            == crate::tokenizer::scan_word(f, 1, Seq::empty(), Some(('"', 0, Seq::empty()))));
    } else if forall|i: int| 0 <= i < t.len() ==> plain_token_char(#[trigger] t[i]) {
        // Rendered plainly: every character scans as a raw word character.
        assert(f == t);
        assert(forall|i: int|
            0 <= i < t.len() ==> crate::tokenizer::is_raw_word_char(#[trigger] t[i]));
        assert(t.take(0) =~= Seq::<char>::empty());
        assert(Seq::<char>::empty() + t.take(0) =~= Seq::<char>::empty());
        lemma_scan_all_raw(t, 0, Seq::empty());
        assert(Seq::<char>::empty() + t =~= t);
        assert(crate::tokenizer::scan_word(f, 0, Seq::empty(), None) == (t, f.len() as int));
    } else {
        // Rendered in quotes: the scan opens the quote, unescapes the body,
        // and the closing quote ends the word at the very end.
        assert(f == seq!['"'] + spec_escaped(t) + seq!['"']);
        assert(f[0] == '"');
        assert(t.take(0) =~= Seq::<char>::empty());
        assert(spec_escaped(t.take(0)) =~= Seq::<char>::empty());
        assert(Seq::<char>::empty() + t.take(0) =~= Seq::<char>::empty());
        lemma_scan_quoted_from(t, 0, Seq::empty());
        assert(Seq::<char>::empty() + t =~= t);
        assert(crate::tokenizer::scan_word(f, 1, Seq::empty(), Some(('"', 0, Seq::empty())))
            == (t, f.len() as int));
        assert(crate::tokenizer::scan_word(f, 0, Seq::empty(), None)
            == crate::tokenizer::scan_word(f, 1, Seq::empty(), Some(('"', 0, Seq::empty()))));
    }
    // In every case the word attempt at position 0 succeeds and consumes
    // the whole rendering; nothing follows it.
    let st = crate::tokenizer::SpecToken {
        v: crate::tokenizer::TokenV::Token(t),
        start: 0,
        end: f.len() as int,
    };
    assert(crate::tokenizer::scan_word(f, 0, Seq::empty(), None) == (t, f.len() as int));
    assert(f.len() > 0);
    assert(!crate::tokenizer::is_space_char(f[0]) && f[0] != '#' && f[0] != '\\'
        && crate::tokenizer::newline_end(f, 0) is None);
    assert(crate::tokenizer::spec_step(f, 0) == crate::tokenizer::SpecStep::Tok {
        tok: st,
        next: f.len() as int,
    });
    assert(crate::tokenizer::spec_tokens(f, f.len() as int) =~= Seq::<
        crate::tokenizer::SpecToken,
    >::empty());
    assert(crate::tokenizer::spec_lex_errors(f, f.len() as int) =~= Seq::<
        crate::tokenizer::SpecLexError,
    >::empty());
    assert(crate::tokenizer::spec_tokens(f, 0) =~= seq![st]);
    assert(crate::tokenizer::spec_lex_errors(f, 0) =~= Seq::<
        crate::tokenizer::SpecLexError,
    >::empty());
}

/// Whether two optional spanned strings hold the same text.
fn texts_eq(a: &Option<(String, Span)>, b: &Option<(String, Span)>) -> (r: bool)
    ensures
        r == spec_texts_eq(spanned_view(a), spanned_view(b)),
{
    match (a, b) {
        (Some((x, xsp)), Some((y, ysp))) => str_eq(x.as_str(), y.as_str()),
        (None, None) => true,
        _ => false,
    }
}

/// Whether `l` may merge into `prev`.
fn line_mergeable(prev: &Line, l: &Line) -> (r: bool)
    ensures
        r == spec_mergeable(prev@, l@),
{
    let cmd_ok = match &l.command {
        Some((c, csp)) => !str_eq(c.as_str(), "import") && !str_eq(c.as_str(), "try-import"),
        None => true,
    };
    texts_eq(&l.command, &prev.command) && texts_eq(&l.config, &prev.config) && cmd_ok
        && l.comment.is_none() && prev.comment.is_none()
}

/// Whether a line record holds nothing at all.
fn line_is_empty(l: &Line) -> (r: bool)
    ensures
        r == spec_line_is_empty(l@),
{
    l.command.is_none() && l.config.is_none() && l.flags.len() == 0 && l.comment.is_none()
}

/// Applies the reflow policy `line_flow` to the lines: merging subsequent
/// lines of one command, or splitting each flag onto its own line; runs of
/// empty lines collapse into one and a trailing empty line disappears.
pub fn reflow_lines(lines: &Vec<Line>, line_flow: FormatLineFlow) -> (r: Vec<Line>)
    ensures
        r@.map_values(|l: Line| l@) == spec_reflow(lines@.map_values(|l: Line| l@), line_flow),
{
    let ghost lv = lines@.map_values(|l: Line| l@);
    let n = lines.len();
    let mut result1: Vec<Line> = Vec::new();
    proof {
        assert(result1@.map_values(|l: Line| l@) =~= Seq::<LineV>::empty());
    }
    if matches!(line_flow, FormatLineFlow::Keep) {
        let mut k: usize = 0;
        while k < n
            invariant
                k <= n,
                n == lines@.len(),
                lv == lines@.map_values(|l: Line| l@),
                result1@.map_values(|l: Line| l@) == lv.take(k as int),
            decreases n - k,
        {
            proof {
                assert(lv[k as int] == lines@[k as int]@);
            }
            let ghost m0 = result1@;
            result1.push(crate::parser::clone_line(&lines[k]));
            proof {
                m0.lemma_push_map_commute(|l: Line| l@, result1@[k as int]);
                assert(lv.take(k + 1) =~= lv.take(k as int).push(lv[k as int]));
                assert(result1@.map_values(|l: Line| l@) =~= lv.take(k + 1));
            }
            k = k + 1;
        }
        proof {
            assert(lv.take(n as int) =~= lv);
        }
    } else if matches!(line_flow, FormatLineFlow::SeparateLines) {
        let mut k: usize = 0;
        while k < n
            invariant
                k <= n,
                n == lines@.len(),
                lv == lines@.map_values(|l: Line| l@),
                spec_split_lines(lv, k as int, result1@.map_values(|l: Line| l@))
                    == spec_split_lines(lv, 0, Seq::empty()),
            decreases n - k,
        {
            proof {
                assert(lv[k as int] == lines@[k as int]@);
            }
            let l = &lines[k];
            let m = l.flags.len();
            if m == 0 {
                let ghost m0 = result1@;
                result1.push(crate::parser::clone_line(l));
                proof {
                    m0.lemma_push_map_commute(|x: Line| x@, result1@[result1@.len() - 1]);
                }
            } else {
                let ghost base = result1@.map_values(|x: Line| x@);
                let mut i: usize = 0;
                while i < m
                    invariant
                        i <= m,
                        m == l.flags@.len(),
                        l@ == lv[k as int],
                        k < n,
                        lv == lines@.map_values(|x: Line| x@),
                        l == &lines[k as int],
                        result1@.map_values(|x: Line| x@) == base + spec_split_of(l@).take(
                            i as int,
                        ),
                    decreases m - i,
                {
                    proof {
                        assert(l@.flags[i as int] == l.flags@[i as int]@);
                    }
                    let mut fl: Vec<Flag> = Vec::new();
                    fl.push(crate::parser::clone_flag(&l.flags[i]));
                    let piece = Line {
                        command: crate::parser::clone_spanned_text(&l.command),
                        config: crate::parser::clone_spanned_text(&l.config),
                        flags: fl,
                        comment: if i == 0 {
                            crate::parser::clone_spanned_text(&l.comment)
                        } else {
                            None
                        },
                        span: if i == 0 {
                            l.span
                        } else {
                            Span { start: l.span.end, end: l.span.end }
                        },
                    };
                    proof {
                        assert(piece@.flags =~= seq![l@.flags[i as int]]);
                        assert(piece@ =~~= spec_split_of(l@)[i as int]);
                    }
                    let ghost m0 = result1@;
                    result1.push(piece);
                    proof {
                        m0.lemma_push_map_commute(|x: Line| x@, result1@[result1@.len() - 1]);
                        assert(spec_split_of(l@).take(i + 1) =~= spec_split_of(l@).take(
                            i as int,
                        ).push(spec_split_of(l@)[i as int]));
                        assert(result1@.map_values(|x: Line| x@) =~= base + spec_split_of(
                            l@,
                        ).take(i + 1));
                    }
                    i = i + 1;
                }
                proof {
                    assert(spec_split_of(l@).take(m as int) =~= spec_split_of(l@));
                }
            }
            k = k + 1;
        }
    } else {
        // LineContinuations and SingleLine merge subsequent lines.
        let mut k: usize = 0;
        while k < n
            invariant
                k <= n,
                n == lines@.len(),
                lv == lines@.map_values(|l: Line| l@),
                spec_merge_lines(lv, k as int, result1@.map_values(|l: Line| l@))
                    == spec_merge_lines(lv, 0, Seq::empty()),
            decreases n - k,
        {
            proof {
                assert(lv[k as int] == lines@[k as int]@);
            }
            let l = &lines[k];
            let rlen = result1.len();
            let mergeable = rlen > 0 && line_mergeable(&result1[rlen - 1], l);
            if mergeable {
                let ghost m0 = result1@.map_values(|x: Line| x@);
                let mut last = result1.pop().unwrap();
                proof {
                    assert(last@.flags =~= m0.last().flags + l@.flags.take(0));
                }
                let fm = l.flags.len();
                let mut i: usize = 0;
                while i < fm
                    invariant
                        i <= fm,
                        fm == l.flags@.len(),
                        l@ == lv[k as int],
                        k < n,
                        lv == lines@.map_values(|x: Line| x@),
                        l == &lines[k as int],
                        last@.flags == m0.last().flags + l@.flags.take(i as int),
                        last@.command == m0.last().command,
                        last@.config == m0.last().config,
                        last@.comment == m0.last().comment,
                        last@.span == m0.last().span,
                    decreases fm - i,
                {
                    proof {
                        assert(l@.flags[i as int] == l.flags@[i as int]@);
                    }
                    let ghost f0 = last.flags@;
                    last.flags.push(crate::parser::clone_flag(&l.flags[i]));
                    proof {
                        f0.lemma_push_map_commute(
                            |f: Flag| f@,
                            last.flags@[last.flags@.len() - 1],
                        );
                        assert(l@.flags.take(i + 1) =~= l@.flags.take(i as int).push(
                            l@.flags[i as int],
                        ));
                        assert(last@.flags =~= m0.last().flags + l@.flags.take(i + 1));
                    }
                    i = i + 1;
                }
                last.span = Span { start: last.span.start, end: l.span.end };
                let ghost r0 = result1@.map_values(|x: Line| x@);
                result1.push(last);
                proof {
                    assert(l@.flags.take(fm as int) =~= l@.flags);
                    assert(result1@.map_values(|x: Line| x@)[result1@.len() - 1] == result1@[
                        result1@.len() - 1
                    ]@);
                    assert(result1@[result1@.len() - 1]@ =~~= spec_merged(
                        m0.last(),
                        lv[k as int],
                    ));
                    assert(result1@.map_values(|x: Line| x@) =~= m0.update(
                        m0.len() - 1,
                        spec_merged(m0.last(), lv[k as int]),
                    ));
                }
            } else {
                let ghost m0 = result1@;
                result1.push(crate::parser::clone_line(l));
                proof {
                    m0.lemma_push_map_commute(|x: Line| x@, result1@[result1@.len() - 1]);
                }
            }
            k = k + 1;
        }
    }
    let ghost phase1 = result1@.map_values(|l: Line| l@);
    proof {
        assert(phase1 == match line_flow {
            FormatLineFlow::Keep => lv,
            FormatLineFlow::LineContinuations => spec_merge_lines(lv, 0, Seq::empty()),
            FormatLineFlow::SingleLine => spec_merge_lines(lv, 0, Seq::empty()),
            FormatLineFlow::SeparateLines => spec_split_lines(lv, 0, Seq::empty()),
        });
    }
    // Collapse runs of empty lines.
    let mut result2: Vec<Line> = Vec::new();
    let n1 = result1.len();
    let mut k: usize = 0;
    proof {
        assert(result2@.map_values(|l: Line| l@) =~= Seq::<LineV>::empty());
    }
    while k < n1
        invariant
            k <= n1,
            n1 == result1@.len(),
            phase1 == result1@.map_values(|l: Line| l@),
            spec_squash_lines(phase1, k as int, result2@.map_values(|l: Line| l@))
                == spec_squash_lines(phase1, 0, Seq::empty()),
        decreases n1 - k,
    {
        proof {
            assert(phase1[k as int] == result1@[k as int]@);
        }
        let l = &result1[k];
        if !line_is_empty(l) {
            let ghost m0 = result2@;
            result2.push(crate::parser::clone_line(l));
            proof {
                m0.lemma_push_map_commute(|x: Line| x@, result2@[result2@.len() - 1]);
            }
        } else {
            let rlen = result2.len();
            if rlen == 0 {
                // A leading empty line disappears.
            } else {
                let prev_empty = line_is_empty(&result2[rlen - 1]);
                if prev_empty {
                    let ghost m0 = result2@.map_values(|x: Line| x@);
                    let mut last = result2.pop().unwrap();
                    last.span = Span { start: last.span.start, end: l.span.end };
                    result2.push(last);
                    proof {
                        assert(result2@.map_values(|x: Line| x@)[result2@.len() - 1] == result2@[
                            result2@.len() - 1
                        ]@);
                        assert(result2@[result2@.len() - 1]@ =~~= spec_extend_span(
                            m0.last(),
                            phase1[k as int].span.end,
                        ));
                        assert(result2@.map_values(|x: Line| x@) =~= m0.update(
                            m0.len() - 1,
                            spec_extend_span(m0.last(), phase1[k as int].span.end),
                        ));
                    }
                } else {
                    let ghost m0 = result2@;
                    result2.push(crate::parser::clone_line(l));
                    proof {
                        m0.lemma_push_map_commute(|x: Line| x@, result2@[result2@.len() - 1]);
                    }
                }
            }
        }
        k = k + 1;
    }
    let ghost phase2 = result2@.map_values(|l: Line| l@);
    // Drop a trailing empty line.
    let rlen = result2.len();
    if rlen > 0 && line_is_empty(&result2[rlen - 1]) {
        let removed = result2.pop().unwrap();
        let rlen2 = result2.len();
        if rlen2 > 0 {
            let ghost m0 = result2@.map_values(|x: Line| x@);
            let mut last = result2.pop().unwrap();
            last.span = Span { start: last.span.start, end: removed.span.end };
            result2.push(last);
            proof {
                assert(result2@.map_values(|x: Line| x@)[result2@.len() - 1] == result2@[
                    result2@.len() - 1
                ]@);
                assert(result2@[result2@.len() - 1]@ =~~= spec_extend_span(
                    m0.last(),
                    phase2.last().span.end,
                ));
                assert(result2@.map_values(|x: Line| x@) =~= phase2.drop_last().update(
                    phase2.drop_last().len() - 1,
                    spec_extend_span(phase2.drop_last().last(), phase2.last().span.end),
                ));
            }
        } else {
            proof {
                assert(result2@.map_values(|x: Line| x@) =~= phase2.drop_last());
            }
        }
    }
    result2
}

/// The rendering of a whole document of lines.
pub open spec fn spec_print_lines(ls: Seq<LineV>, use_cont: bool) -> Seq<char>
    decreases ls.len(),
{
    if ls.len() == 0 {
        Seq::empty()
    } else {
        spec_print_lines(ls.drop_last(), use_cont) + spec_format_line(ls.last(), use_cont)
    }
}

/// Parses `input` and renders it back in canonical form: tokens in their
/// shortest escaping, single spaces between them, flags combined with the
/// values they consume, and the reflow policy applied. Fails with the lexing
/// errors' messages when the input does not tokenize cleanly.
pub fn pretty_print(input: &str, bazel_flags: &BazelFlags, line_flow: FormatLineFlow) -> (r: Result<
    String,
    Vec<String>,
>)
    requires
        bazel_flags.wf(),
    ensures
        ({
            let s = input@;
            if crate::tokenizer::spec_lex_errors(s, 0).len() == 0 {
                r matches Ok(o) && o@ == spec_print_lines(
                    spec_reflow(
                        crate::bazel_flags::spec_combine_lines(
                            bazel_flags,
                            crate::parser::spec_parse(crate::tokenizer::spec_tokens(s, 0), s),
                        ),
                        line_flow,
                    ),
                    line_flow == FormatLineFlow::LineContinuations,
                )
            } else {
                r matches Err(msgs) && msgs@.len() == crate::tokenizer::spec_lex_errors(
                    s,
                    0,
                ).len() && forall|m: int|
                    0 <= m < msgs@.len() ==> (#[trigger] msgs@[m])@ == "Unrecognized character"@
            }
        }),
{
    let pr = crate::parser::parse_from_str(input);
    if pr.errors.len() > 0 {
        let ne = pr.errors.len();
        let mut msgs: Vec<String> = Vec::new();
        let mut k: usize = 0;
        while k < ne
            invariant
                k <= ne,
                msgs@.len() == k,
                forall|m: int| 0 <= m < k ==> (#[trigger] msgs@[m])@ == "Unrecognized character"@,
            decreases ne - k,
        {
            msgs.push(String::from_str("Unrecognized character"));
            k = k + 1;
        }
        return Err(msgs);
    }
    let mut lines = pr.lines;
    crate::bazel_flags::combine_key_value_flags(&mut lines, bazel_flags);
    let reflowed = reflow_lines(&lines, line_flow);
    let ghost target = reflowed@.map_values(|l: Line| l@);
    let use_cont = matches!(line_flow, FormatLineFlow::LineContinuations);
    let mut out = String::new();
    let n = reflowed.len();
    let mut k: usize = 0;
    proof {
        assert(spec_print_lines(target.take(0), use_cont) =~= Seq::<char>::empty());
        assert(out@ =~= spec_print_lines(target.take(0), use_cont));
    }
    while k < n
        invariant
            k <= n,
            n == reflowed@.len(),
            target == reflowed@.map_values(|l: Line| l@),
            out@ == spec_print_lines(target.take(k as int), use_cont),
        decreases n - k,
    {
        proof {
            assert(target[k as int] == reflowed@[k as int]@);
            assert(target.take(k + 1).drop_last() =~= target.take(k as int));
            assert(target.take(k + 1).last() == target[k as int]);
        }
        format_line_into(&mut out, &reflowed[k], use_cont);
        k = k + 1;
    }
    proof {
        assert(target.take(n as int) =~= target);
    }
    Ok(out)
}

} // verus!
