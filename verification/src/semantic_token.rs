//! Semantic highlighting tokens derived from the line records. The token
//! types index a fixed legend: comments, command keywords, configuration
//! names, flag names and flag values.

use vstd::prelude::*;

use crate::parser::{Line, LineV};

verus! {

/// Legend index of comment tokens.
pub const TOKEN_TYPE_COMMENT: usize = 0;

/// Legend index of command keywords such as `build` or `startup`.
pub const TOKEN_TYPE_KEYWORD: usize = 1;

/// Legend index of configuration names such as the `opt` of `build:opt`.
pub const TOKEN_TYPE_NAMESPACE: usize = 2;

/// Legend index of flag names.
pub const TOKEN_TYPE_VARIABLE: usize = 3;

/// Legend index of flag values.
pub const TOKEN_TYPE_STRING: usize = 4;

/// One highlighting token: a byte range and its legend index.
#[derive(Debug, Clone, Copy, PartialEq, Eq, Structural)]
pub struct RCSemanticToken {
    pub start: usize,
    pub end: usize,
    pub token_type: usize,
}

/// Builds one highlighting token for a span.
pub fn create_semantic_token(span: &crate::tokenizer::Span, ttype: usize) -> (r: RCSemanticToken)
    ensures
        r.start == span.start,
        r.end == span.end,
        r.token_type == ttype,
{
    RCSemanticToken { start: span.start, end: span.end, token_type: ttype }
}

/// The highlighting tokens of the flags of one line, from flag `k` on.
pub open spec fn spec_flag_tokens(flags: Seq<crate::parser::FlagV>, k: int) -> Seq<RCSemanticToken>
    decreases flags.len() - k,
{
    if k < 0 || k >= flags.len() {
        Seq::empty()
    } else {
        (match flags[k].name {
            Some((t, sp)) => seq![
                RCSemanticToken { start: sp.start, end: sp.end, token_type: TOKEN_TYPE_VARIABLE },
            ],
            None => Seq::empty(),
        }) + (match flags[k].value {
            Some((t, sp)) => seq![
                RCSemanticToken { start: sp.start, end: sp.end, token_type: TOKEN_TYPE_STRING },
            ],
            None => Seq::empty(),
        }) + spec_flag_tokens(flags, k + 1)
    }
}

/// The highlighting tokens of one line: command, configuration name, flags,
/// then the comment.
pub open spec fn spec_line_tokens(l: LineV) -> Seq<RCSemanticToken> {
    (match l.command {
        Some((t, sp)) => seq![
            RCSemanticToken { start: sp.start, end: sp.end, token_type: TOKEN_TYPE_KEYWORD },
        ],
        None => Seq::empty(),
    }) + (match l.config {
        Some((t, sp)) => seq![
            RCSemanticToken { start: sp.start, end: sp.end, token_type: TOKEN_TYPE_NAMESPACE },
        ],
        None => Seq::empty(),
    }) + spec_flag_tokens(l.flags, 0) + (match l.comment {
        Some((t, sp)) => seq![
            RCSemanticToken { start: sp.start, end: sp.end, token_type: TOKEN_TYPE_COMMENT },
        ],
        None => Seq::empty(),
    })
}

/// The highlighting tokens of a whole document, line by line.
pub open spec fn spec_semantic_tokens(lines: Seq<LineV>, k: int) -> Seq<RCSemanticToken>
    decreases lines.len() - k,
{
    if k < 0 || k >= lines.len() {
        Seq::empty()
    } else {
        spec_line_tokens(lines[k]) + spec_semantic_tokens(lines, k + 1)
    }
}

/// Creates the highlighting tokens of the given lines.
pub fn semantic_tokens_from_lines(lines: &Vec<Line>) -> (r: Vec<RCSemanticToken>)
    ensures
        r@ == spec_semantic_tokens(lines@.map_values(|l: Line| l@), 0),
{
    let ghost lv = lines@.map_values(|l: Line| l@);
    let n = lines.len();
    let mut out: Vec<RCSemanticToken> = Vec::new();
    let mut k: usize = 0;
    while k < n
        invariant
            k <= n,
            n == lines@.len(),
            lv == lines@.map_values(|l: Line| l@),
            out@ + spec_semantic_tokens(lv, k as int) == spec_semantic_tokens(lv, 0),
        decreases n - k,
    {
        proof {
            assert(lv[k as int] == lines@[k as int]@);
        }
        let l = &lines[k];
        let ghost t0 = out@;
        match &l.command {
            Some((t, sp)) => {
                out.push(create_semantic_token(sp, TOKEN_TYPE_KEYWORD));
            },
            None => {},
        }
        match &l.config {
            Some((t, sp)) => {
                out.push(create_semantic_token(sp, TOKEN_TYPE_NAMESPACE));
            },
            None => {},
        }
        let ghost head_done = out@;
        let m = l.flags.len();
        let mut j: usize = 0;
        while j < m
            invariant
                j <= m,
                m == l.flags@.len(),
                k < n,
                l == &lines[k as int],
                l@ == lv[k as int],
                lv == lines@.map_values(|x: Line| x@),
                out@ + spec_flag_tokens(lv[k as int].flags, j as int) == head_done
                    + spec_flag_tokens(lv[k as int].flags, 0),
            decreases m - j,
        {
            proof {
                assert(lv[k as int].flags[j as int] == l.flags@[j as int]@);
            }
            let f = &l.flags[j];
            match &f.name {
                Some((t, sp)) => {
                    out.push(create_semantic_token(sp, TOKEN_TYPE_VARIABLE));
                },
                None => {},
            }
            match &f.value {
                Some((t, sp)) => {
                    out.push(create_semantic_token(sp, TOKEN_TYPE_STRING));
                },
                None => {},
            }
            proof {
                assert(out@ + spec_flag_tokens(lv[k as int].flags, j as int + 1) =~= head_done
                    + spec_flag_tokens(lv[k as int].flags, 0));
            }
            j = j + 1;
        }
        match &l.comment {
            Some((t, sp)) => {
                out.push(create_semantic_token(sp, TOKEN_TYPE_COMMENT));
            },
            None => {},
        }
        proof {
            assert(spec_flag_tokens(lv[k as int].flags, m as int) =~= Seq::<
                RCSemanticToken,
            >::empty());
            assert(out@ =~= t0 + spec_line_tokens(lv[k as int]));
            assert(t0 + spec_line_tokens(lv[k as int]) + spec_semantic_tokens(lv, k as int + 1)
                =~= t0 + (spec_line_tokens(lv[k as int]) + spec_semantic_tokens(lv, k as int + 1)));
        }
        k = k + 1;
    }
    proof {
        assert(spec_semantic_tokens(lv, n as int) =~= Seq::<RCSemanticToken>::empty());
        assert(out@ + Seq::<RCSemanticToken>::empty() =~= out@);
    }
    out
}

} // verus!
