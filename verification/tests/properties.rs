use mathrender::ast::{SourceFile, TextRange};
use mathrender::ir::{lower_statement, Expr, Statement};
use mathrender::metadata::{expand_symbol_lookups, resolve_symbol_lookup};
use mathrender::paths::resolve_figure_src;
use mathrender::scan::parse_source;

#[test]
fn overlapping_ranges_share_a_byte() {
    let a = TextRange { start: 0, end: 10 };
    let b = TextRange { start: 9, end: 12 };
    let c = TextRange { start: 10, end: 12 };
    assert!(a.overlaps(b) && b.overlaps(a));
    assert!(!a.overlaps(c) && !c.overlaps(a));
    assert!(a.contains(10) && !a.contains(11));
    let empty = TextRange { start: 4, end: 4 };
    assert!(empty.contains(4) && !empty.contains(5) && !empty.contains(3));
}

#[test]
fn lines_start_one_byte_after_each_newline() {
    let f = SourceFile::new("t", "αb\ncd\n\ne");
    assert_eq!(f.line_count(), 4);
    assert_eq!(f.line_start(0), Some(0));
    assert_eq!(f.line_start(1), Some(4));
    assert_eq!(f.line_start(2), Some(7));
    assert_eq!(f.line_start(3), Some(8));
    assert_eq!(f.line_start(4), None);
}

#[test]
fn line_text_is_the_line_without_its_terminator() {
    let f = SourceFile::new("t", "a\r\nb");
    assert_eq!(f.line_text(0), Some("a"));
    assert_eq!(f.line_text(1), Some("b"));
    assert_eq!(f.line_text(2), None);
    let g = SourceFile::new("t", "x\n");
    assert_eq!(g.line_text(0), Some("x"));
    assert_eq!(g.line_text(1), Some(""));
}

#[test]
fn blocks_come_in_order_without_overlap() {
    let source = "a = b\n    c = d\ne = f\n\"\"\"\n# Title\n\"\"\"\ng = h\n";
    let parsed = parse_source("t.py", source);
    let lines: Vec<usize> = parsed.blocks.iter().map(|b| b.line).collect();
    assert_eq!(lines, vec![0, 2, 3, 6]);
    for pair in parsed.blocks.windows(2) {
        assert!(pair[0].range.end <= pair[1].range.start);
    }
    for b in &parsed.blocks {
        assert!(b.range.start < b.range.end && b.range.end <= source.len());
    }
}

#[test]
fn resolution_searches_the_table() {
    assert_eq!(resolve_symbol_lookup("/greek//omega/").unwrap().insert_text, "ω");
    assert_eq!(resolve_symbol_lookup("  alpha ").unwrap().insert_text, "α");
    assert!(resolve_symbol_lookup("/omega").is_none());
    assert!(resolve_symbol_lookup("Omega").is_none());
    assert!(resolve_symbol_lookup("om").is_none());
    assert!(resolve_symbol_lookup("   ").is_none());
}

#[test]
fn lookup_pairs_are_taken_left_to_right() {
    assert_eq!(expand_symbol_lookups("x ::mu:: y ::nope:: z ::rho::"), "x μ y ::nope:: z ρ");
    assert_eq!(expand_symbol_lookups("a ::mu b"), "a ::mu b");
    assert_eq!(expand_symbol_lookups("::mu::::nu::"), "μν");
}

#[test]
fn figures_without_working_directory_join_the_file_directory() {
    assert_eq!(resolve_figure_src("img/a.png", Some("docs/page.py"), None), "docs/img/a.png");
    assert_eq!(resolve_figure_src("../a.png", Some("docs/sub/page.py"), None), "docs/a.png");
}

#[test]
fn expanding_twice_changes_nothing_more() {
    for s in ["x ::mu:: ::zz:: ::", ":::mu::", "a:::nope::b", "::mu::::nu::", "::/greek/rho::"] {
        let once = expand_symbol_lookups(s);
        assert_eq!(expand_symbol_lookups(&once), once);
    }
    assert_eq!(expand_symbol_lookups(":::mu::"), ":::mu::");
}

#[test]
fn figures_under_the_working_directory_are_written_relative_to_it() {
    assert_eq!(
        resolve_figure_src("plots/loss.png", Some("/work/proj/docs/report.py"), Some("/work/proj")),
        "docs/plots/loss.png"
    );
}

#[test]
fn a_position_is_the_last_line_start_at_or_before_the_offset() {
    let f = SourceFile::new("t", "ab\nçd\n");
    let p = f.position_at(4);
    assert_eq!((p.line, p.character), (1, 1));
    let end = f.position_at(100);
    assert_eq!((end.line, end.character), (2, 0));
    let r = f.range(TextRange { start: 1, end: 5 });
    assert_eq!((r.start.line, r.start.character, r.end.line, r.end.character), (0, 1, 1, 2));
}

#[test]
fn line_count_follows_the_newline_bytes() {
    let f = SourceFile::new("t", "é\n\u{20ac}\n\n");
    assert_eq!(f.line_count(), 1 + f.source.bytes().filter(|b| *b == b'\n').count());
}

#[test]
fn lowering_reports_one_warning_per_unsupported_piece() {
    let lowered = lower_statement("a % b = c ~ d", TextRange { start: 3, end: 9 });
    match &lowered.statement {
        Statement::Assignment { target, value } => {
            assert!(matches!(target, Expr::Unsupported(_)));
            assert!(matches!(value, Expr::Unsupported(_)));
        }
        other => panic!("unexpected statement {other:?}"),
    }
    assert_eq!(lowered.diagnostics.len(), 2);
    for d in &lowered.diagnostics {
        assert_eq!(d.code, "mathdocs::unsupported");
        assert_eq!(d.range, TextRange { start: 3, end: 9 });
    }
}
