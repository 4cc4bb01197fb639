use mathrender::ast::{Position, SourceFile, TextRange};

#[test]
fn positions_and_offsets_round_trip() {
    let file = SourceFile::new("t.py", "ab\nωx\n\nlast");
    assert_eq!(file.line_count(), 4);
    for offset in [0usize, 1, 2, 3, 5, 6, 7, 8, 12] {
        let p = file.position_at(offset);
        assert_eq!(file.offset_at(p), offset);
    }
    assert_eq!(file.position_at(5), Position { line: 1, character: 2 });
    assert_eq!(file.position_at(100), Position { line: 3, character: 4 });
    assert_eq!(file.offset_at(Position { line: 1, character: 99 }), 7);
    assert_eq!(file.offset_at(Position { line: 9, character: 0 }), 12);
}

#[test]
fn lines_and_slices() {
    let file = SourceFile::new("t.py", "ab\r\nωx\n");
    assert_eq!(file.line_start(1), Some(4));
    assert_eq!(file.line_text(0), Some("ab"));
    assert_eq!(file.line_text(1), Some("ωx"));
    assert_eq!(file.line_text(5), None);
    assert_eq!(file.slice(TextRange { start: 4, end: 7 }), "ωx");
    let r = file.range(TextRange { start: 0, end: 7 });
    assert_eq!(r.start, Position { line: 0, character: 0 });
    assert_eq!(r.end, Position { line: 1, character: 3 });
}

#[test]
fn text_ranges_contain_and_overlap() {
    let a = TextRange { start: 2, end: 5 };
    assert!(a.contains(2) && a.contains(5) && !a.contains(6));
    assert!(a.overlaps(TextRange { start: 4, end: 9 }));
    assert!(TextRange { start: 4, end: 9 }.overlaps(a));
    assert!(!a.overlaps(TextRange { start: 5, end: 9 }));
}
