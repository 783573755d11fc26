//! The reverse position index: from a byte offset to the enclosing line and
//! to the enclosing named symbol (command, configuration name, flag name or
//! flag value). Rebuilt wholesale from the line records on every edit.

use vstd::prelude::*;

use crate::parser::{Line, LineV};
use crate::tokenizer::Span;

verus! {

/// What kind of symbol an index entry points at; the flag kinds carry the
/// position of the flag in its line's flag list.
#[derive(Clone, Copy, Debug, PartialEq, Eq, Structural)]
pub enum IndexEntryKind {
    Command,
    Config,
    FlagValue(usize),
    FlagName(usize),
}

/// One indexed symbol: its span, the number of its line, and its kind.
#[derive(Clone, Copy, Debug, PartialEq, Eq, Structural)]
pub struct IndexEntry {
    pub span: Span,
    pub line_nr: usize,
    pub kind: IndexEntryKind,
}

/// The line records with the two reverse indices over them: symbol start
/// offset to symbol, and line start offset to line number.
#[derive(Debug)]
pub struct IndexedLines {
    pub lines: Vec<Line>,
    pub reverse_token_idx: Vec<(usize, IndexEntry)>,
    pub reverse_line_idx: Vec<(usize, usize)>,
}

/// The index entries of the flags of line `line_nr`, from flag `k` on.
pub open spec fn spec_flag_entries(flags: Seq<crate::parser::FlagV>, line_nr: usize, k: int) -> Seq<
    (usize, IndexEntry),
>
    decreases flags.len() - k,
{
    if k < 0 || k >= flags.len() {
        Seq::empty()
    } else {
        (match flags[k].name {
            Some((t, sp)) => seq![
                (sp.start, IndexEntry { span: sp, line_nr, kind: IndexEntryKind::FlagName(k as usize) }),
            ],
            None => Seq::empty(),
        }) + (match flags[k].value {
            Some((t, sp)) => seq![
                (
                    sp.start,
                    IndexEntry { span: sp, line_nr, kind: IndexEntryKind::FlagValue(k as usize) },
                ),
            ],
            None => Seq::empty(),
        }) + spec_flag_entries(flags, line_nr, k + 1)
    }
}

/// The index entries of one line: its command, its configuration name, and
/// its flags' names and values, in source order.
pub open spec fn spec_line_entries(l: LineV, line_nr: usize) -> Seq<(usize, IndexEntry)> {
    (match l.command {
        Some((t, sp)) => seq![
            (sp.start, IndexEntry { span: sp, line_nr, kind: IndexEntryKind::Command }),
        ],
        None => Seq::empty(),
    }) + (match l.config {
        Some((t, sp)) => seq![
            (sp.start, IndexEntry { span: sp, line_nr, kind: IndexEntryKind::Config }),
        ],
        None => Seq::empty(),
    }) + spec_flag_entries(l.flags, line_nr, 0)
}

/// All the symbol entries of the document, line by line.
pub open spec fn spec_token_entries(lines: Seq<LineV>, k: int) -> Seq<(usize, IndexEntry)>
    decreases lines.len() - k,
{
    if k < 0 || k >= lines.len() {
        Seq::empty()
    } else {
        spec_line_entries(lines[k], k as usize) + spec_token_entries(lines, k + 1)
    }
}

/// The line entries of the document: each line's span start and its number.
pub open spec fn spec_line_entries_idx(lines: Seq<LineV>, k: int) -> Seq<(usize, usize)>
    decreases lines.len() - k,
{
    if k < 0 || k >= lines.len() {
        Seq::empty()
    } else {
        seq![(lines[k].span.start, k as usize)] + spec_line_entries_idx(lines, k + 1)
    }
}

/// The first line number among the entries from `k` on whose line's span
/// holds `pos`.
pub open spec fn spec_find_linenr(
    entries: Seq<(usize, usize)>,
    lines: Seq<LineV>,
    pos: usize,
    k: int,
) -> Option<usize>
    decreases entries.len() - k,
{
    if k < 0 || k >= entries.len() {
        None
    } else if entries[k].1 < lines.len() && lines[entries[k].1 as int].span.spec_contains(pos) {
        Some(entries[k].1)
    } else {
        spec_find_linenr(entries, lines, pos, k + 1)
    }
}

/// The first symbol entry from `k` on whose span holds `pos`.
pub open spec fn spec_find_symbol(entries: Seq<(usize, IndexEntry)>, pos: usize, k: int) -> Option<
    IndexEntry,
>
    decreases entries.len() - k,
{
    if k < 0 || k >= entries.len() {
        None
    } else if entries[k].1.span.spec_contains(pos) {
        Some(entries[k].1)
    } else {
        spec_find_symbol(entries, pos, k + 1)
    }
}

impl IndexedLines {
    /// Every line entry points at a line.
    pub open spec fn wf(&self) -> bool {
        forall|i: int|
            0 <= i < self.reverse_line_idx@.len() ==> (#[trigger] self.reverse_line_idx@[i]).1
                < self.lines@.len()
    }

    pub open spec fn lv(&self) -> Seq<LineV> {
        self.lines@.map_values(|l: Line| l@)
    }

    /// Builds the two reverse indices over the given lines.
    pub fn from_lines(lines: Vec<Line>) -> (r: IndexedLines)
        ensures
            r.lines == lines,
            r.reverse_token_idx@ == spec_token_entries(lines@.map_values(|l: Line| l@), 0),
            r.reverse_line_idx@ == spec_line_entries_idx(lines@.map_values(|l: Line| l@), 0),
            r.wf(),
    {
        let ghost lv = lines@.map_values(|l: Line| l@);
        let n = lines.len();
        let mut toks: Vec<(usize, IndexEntry)> = Vec::new();
        let mut lidx: Vec<(usize, usize)> = Vec::new();
        let mut k: usize = 0;
        while k < n
            invariant
                k <= n,
                n == lines@.len(),
                lv == lines@.map_values(|l: Line| l@),
                toks@ + spec_token_entries(lv, k as int) == spec_token_entries(lv, 0),
                lidx@ + spec_line_entries_idx(lv, k as int) == spec_line_entries_idx(lv, 0),
                forall|i: int| 0 <= i < lidx@.len() ==> (#[trigger] lidx@[i]).1 < n,
            decreases n - k,
        {
            proof {
                assert(lv[k as int] == lines@[k as int]@);
            }
            let l = &lines[k];
            let ghost lidx0 = lidx@;
            lidx.push((l.span.start, k));
            proof {
                assert(lidx@ =~= lidx0.push((l@.span.start, k)));
                assert(lidx0.push((l@.span.start, k)) + spec_line_entries_idx(lv, k as int + 1)
                    =~= lidx0 + (seq![(lv[k as int].span.start, k)] + spec_line_entries_idx(
                    lv,
                    k as int + 1,
                )));
            }
            let ghost t0 = toks@;
            match &l.command {
                Some((t, sp)) => {
                    toks.push(
                        (sp.start, IndexEntry { span: *sp, line_nr: k, kind: IndexEntryKind::Command }),
                    );
                },
                None => {},
            }
            match &l.config {
                Some((t, sp)) => {
                    toks.push(
                        (sp.start, IndexEntry { span: *sp, line_nr: k, kind: IndexEntryKind::Config }),
                    );
                },
                None => {},
            }
            let ghost head_done = toks@;
            proof {
                assert(head_done =~= t0 + (match lv[k as int].command {
                    Some((t, sp)) => seq![
                        (
                            sp.start,
                            IndexEntry { span: sp, line_nr: k, kind: IndexEntryKind::Command },
                        ),
                    ],
                    None => Seq::empty(),
                }) + (match lv[k as int].config {
                    Some((t, sp)) => seq![
                        (sp.start, IndexEntry { span: sp, line_nr: k, kind: IndexEntryKind::Config }),
                    ],
                    None => Seq::empty(),
                }));
            }
            let m = l.flags.len();
            let mut j: usize = 0;
            while j < m
                invariant
                    j <= m,
                    m == l.flags@.len(),
                    k < n,
                    l == &lines[k as int],
                    l@ == lv[k as int],
                    lv == lines@.map_values(|x: Line| x@),
                    toks@ + spec_flag_entries(lv[k as int].flags, k, j as int) == head_done
                        + spec_flag_entries(lv[k as int].flags, k, 0),
                decreases m - j,
            {
                proof {
                    assert(lv[k as int].flags[j as int] == l.flags@[j as int]@);
                }
                let f = &l.flags[j];
                let ghost tf0 = toks@;
                match &f.name {
                    Some((t, sp)) => {
                        toks.push(
                            (
                                sp.start,
                                IndexEntry {
                                    span: *sp,
                                    line_nr: k,
                                    kind: IndexEntryKind::FlagName(j),
                                },
                            ),
                        );
                    },
                    None => {},
                }
                match &f.value {
                    Some((t, sp)) => {
                        toks.push(
                            (
                                sp.start,
                                IndexEntry {
                                    span: *sp,
                                    line_nr: k,
                                    kind: IndexEntryKind::FlagValue(j),
                                },
                            ),
                        );
                    },
                    None => {},
                }
                proof {
                    assert(toks@ + spec_flag_entries(lv[k as int].flags, k, j as int + 1)
                        =~= head_done + spec_flag_entries(lv[k as int].flags, k, 0));
                }
                j = j + 1;
            }
            proof {
                assert(spec_flag_entries(lv[k as int].flags, k, m as int) =~= Seq::<
                    (usize, IndexEntry),
                >::empty());
                assert(toks@ =~= head_done + spec_flag_entries(lv[k as int].flags, k, 0));
                assert(toks@ =~= t0 + spec_line_entries(lv[k as int], k));
                assert(t0 + spec_line_entries(lv[k as int], k) + spec_token_entries(
                    lv,
                    k as int + 1,
                ) =~= t0 + (spec_line_entries(lv[k as int], k) + spec_token_entries(
                    lv,
                    k as int + 1,
                )));
            }
            k = k + 1;
        }
        proof {
            assert(spec_token_entries(lv, n as int) =~= Seq::<(usize, IndexEntry)>::empty());
            assert(spec_line_entries_idx(lv, n as int) =~= Seq::<(usize, usize)>::empty());
            assert(toks@ + Seq::<(usize, IndexEntry)>::empty() =~= toks@);
            assert(lidx@ + Seq::<(usize, usize)>::empty() =~= lidx@);
        }
        IndexedLines { lines, reverse_token_idx: toks, reverse_line_idx: lidx }
    }

    /// The number of the line whose span holds `pos`, if any.
    pub fn find_linenr_at_position(&self, pos: usize) -> (r: Option<usize>)
        requires
            self.wf(),
        ensures
            r == spec_find_linenr(self.reverse_line_idx@, self.lv(), pos, 0),
            r matches Some(i) ==> i < self.lines@.len() && self.lv()[i as int].span.spec_contains(
                pos,
            ),
    {
        let n = self.reverse_line_idx.len();
        let mut k: usize = 0;
        while k < n
            invariant
                k <= n,
                n == self.reverse_line_idx@.len(),
                self.wf(),
                spec_find_linenr(self.reverse_line_idx@, self.lv(), pos, 0) == spec_find_linenr(
                    self.reverse_line_idx@,
                    self.lv(),
                    pos,
                    k as int,
                ),
            decreases n - k,
        {
            let e = self.reverse_line_idx[k].1;
            proof {
                assert(self.lv()[e as int] == self.lines@[e as int]@);
            }
            if self.lines[e].span.contains(pos) {
                return Some(e);
            }
            k = k + 1;
        }
        None
    }

    /// The line whose span holds `pos`, if any.
    pub fn find_line_at_position(&self, pos: usize) -> (r: Option<&Line>)
        requires
            self.wf(),
        ensures
            match r {
                Some(l) => spec_find_linenr(self.reverse_line_idx@, self.lv(), pos, 0) matches Some(
                    i,
                ) && l@ == self.lv()[i as int],
                None => spec_find_linenr(self.reverse_line_idx@, self.lv(), pos, 0) is None,
            },
    {
        match self.find_linenr_at_position(pos) {
            Some(i) => {
                proof {
                    assert(self.lv()[i as int] == self.lines@[i as int]@);
                }
                Some(&self.lines[i])
            },
            None => None,
        }
    }

    /// The most specific indexed symbol whose span holds `pos` (symbol spans
    /// of one line never overlap, so any holder is the most specific one).
    pub fn find_symbol_at_position(&self, pos: usize) -> (r: Option<&IndexEntry>)
        ensures
            match r {
                Some(e) => spec_find_symbol(self.reverse_token_idx@, pos, 0) == Some(*e),
                None => spec_find_symbol(self.reverse_token_idx@, pos, 0) is None,
            },
    {
        let n = self.reverse_token_idx.len();
        let mut k: usize = 0;
        while k < n
            invariant
                k <= n,
                n == self.reverse_token_idx@.len(),
                spec_find_symbol(self.reverse_token_idx@, pos, 0) == spec_find_symbol(
                    self.reverse_token_idx@,
                    pos,
                    k as int,
                ),
            decreases n - k,
        {
            if self.reverse_token_idx[k].1.span.contains(pos) {
                return Some(&self.reverse_token_idx[k].1);
            }
            k = k + 1;
        }
        None
    }
}

} // verus!
