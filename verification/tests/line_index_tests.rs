use bazelrc_lsp::line_index::{IndexEntry, IndexEntryKind, IndexedLines};
use bazelrc_lsp::parser::parse_from_str;
use bazelrc_lsp::tokenizer::Span;

fn lsp(start: usize, end: usize) -> Span {
    Span { start, end }
}

#[test]
fn line_index_test_command_specifier() {
    let index = IndexedLines::from_lines(
        parse_from_str(
            "# config\ncommon --remote_cache= --disk_cache=\nbuild:opt --upload_results=false\n    ",
        )
        .lines,
    );

    // Test the line index
    assert_eq!(
        index.reverse_line_idx,
        vec![(0, 0), (9, 1), (46, 2)]
    );

    assert_eq!(index.find_linenr_at_position(0), Some(0));
    assert_eq!(index.find_linenr_at_position(1), Some(0));
    assert_eq!(index.find_linenr_at_position(9), Some(1));
    assert_eq!(index.find_linenr_at_position(10), Some(1));
    assert_eq!(index.find_linenr_at_position(40), Some(1));
    assert_eq!(index.find_linenr_at_position(48), Some(2));

    // Test the token index
    assert_eq!(
        index.reverse_token_idx,
        vec![
            (
                9,
                IndexEntry { span: lsp(9, 15), line_nr: 1, kind: IndexEntryKind::Command }
            ),
            (
                16,
                IndexEntry { span: lsp(16, 30), line_nr: 1, kind: IndexEntryKind::FlagName(0) }
            ),
            (
                30,
                IndexEntry { span: lsp(30, 31), line_nr: 1, kind: IndexEntryKind::FlagValue(0) }
            ),
            (
                32,
                IndexEntry { span: lsp(32, 44), line_nr: 1, kind: IndexEntryKind::FlagName(1) }
            ),
            (
                44,
                IndexEntry { span: lsp(44, 45), line_nr: 1, kind: IndexEntryKind::FlagValue(1) }
            ),
            (
                46,
                IndexEntry { span: lsp(46, 51), line_nr: 2, kind: IndexEntryKind::Command }
            ),
            (
                51,
                IndexEntry { span: lsp(51, 55), line_nr: 2, kind: IndexEntryKind::Config }
            ),
            (
                56,
                IndexEntry { span: lsp(56, 72), line_nr: 2, kind: IndexEntryKind::FlagName(0) }
            ),
            (
                72,
                IndexEntry { span: lsp(72, 78), line_nr: 2, kind: IndexEntryKind::FlagValue(0) }
            ),
        ]
    );

    assert_eq!(
        index.find_symbol_at_position(20).unwrap().kind,
        IndexEntryKind::FlagName(0)
    );
}

#[test]
fn line_index_lookup_misses() {
    let index = IndexedLines::from_lines(parse_from_str("build --x=1\n").lines);
    // Past the end of the document: no line, no symbol.
    assert_eq!(index.find_linenr_at_position(100), None);
    assert!(index.find_symbol_at_position(100).is_none());
    assert!(index.find_line_at_position(3).is_some());
}

#[test]
fn line_spans_cover_their_symbols() {
    // Span coverage on a concrete document: every symbol's span lies within
    // its line's span, and sibling flags do not overlap.
    let index = IndexedLines::from_lines(
        parse_from_str("build:opt --a=1 --b=2 # c\ncommon --x\n").lines,
    );
    for (_, entry) in &index.reverse_token_idx {
        let line = &index.lines[entry.line_nr];
        assert!(line.span.start <= entry.span.start);
        assert!(entry.span.end <= line.span.end);
    }
    for line in &index.lines {
        for w in line.flags.windows(2) {
            let hi = w[0]
                .value
                .as_ref()
                .map(|v| v.1.end)
                .unwrap_or_else(|| w[0].name.as_ref().unwrap().1.end);
            let lo = w[1]
                .name
                .as_ref()
                .map(|n| n.1.start)
                .unwrap_or_else(|| w[1].value.as_ref().unwrap().1.start);
            assert!(hi <= lo);
        }
    }
}
