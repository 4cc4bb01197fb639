use mathrender::ast::{Position, Range, TextRange};
use mathrender::editor::{
    completion_entries, completion_text, contains_position, mathdocs_import_range,
    parse_line_range, parse_position, symbol_lookup_context, symbol_lookup_matches, NumberError,
    RangeError,
};
use mathrender::metadata::resolve_symbol_lookup;

#[test]
fn finds_the_lookup_before_the_cursor() {
    let source = "x = ::om";
    assert_eq!(
        symbol_lookup_context(source, 8),
        Some((TextRange { start: 4, end: 8 }, "om".to_string()))
    );
    assert_eq!(symbol_lookup_context("a ::\nb", 6), None);
    assert_eq!(symbol_lookup_context("no marker", 3), None);
    assert_eq!(symbol_lookup_context("ω ::a", 1), None);
    assert_eq!(
        symbol_lookup_context("ω ::a", 6),
        Some((TextRange { start: 3, end: 6 }, "a".to_string()))
    );
}

#[test]
fn matches_aliases_and_paths() {
    let omega = resolve_symbol_lookup("omega").unwrap();
    assert!(symbol_lookup_matches(&omega, ""));
    assert!(symbol_lookup_matches(&omega, "ome"));
    assert!(symbol_lookup_matches(&omega, "meg"));
    assert!(symbol_lookup_matches(&omega, "/greek/om"));
    assert!(!symbol_lookup_matches(&omega, "/om"));
    assert!(!symbol_lookup_matches(&omega, "alpha"));
}

#[test]
fn completion_lists_matching_symbols() {
    assert_eq!(completion_entries("").len(), 15);
    let found = completion_entries("/greek/ome");
    assert_eq!(found.len(), 1);
    assert_eq!(found[0].insert_text, "ω");
    let text = completion_text(&found[0], "/greek/ome");
    assert_eq!(text.label, "::/greek/omega::");
    assert_eq!(text.detail, "ω Greek lowercase omega");
    assert_eq!(text.filter_text, "omega /greek/omega ω");
    assert_eq!(text.insert_text, "ω");
    assert_eq!(completion_text(&found[0], "om").label, "::omega::");
}

#[test]
fn finds_the_mathdocs_import() {
    assert_eq!(
        mathdocs_import_range("x = 1\n  from mathdocs import a\n"),
        Some(Range {
            start: Position { line: 1, character: 2 },
            end: Position { line: 1, character: 24 },
        })
    );
    assert_eq!(
        mathdocs_import_range("import mathdocs\r\n"),
        Some(Range {
            start: Position { line: 0, character: 0 },
            end: Position { line: 0, character: 15 },
        })
    );
    assert_eq!(mathdocs_import_range("import mathdocsx\n"), None);
}

#[test]
fn positions_in_ranges() {
    let range = Range {
        start: Position { line: 1, character: 4 },
        end: Position { line: 3, character: 0 },
    };
    assert!(contains_position(range, Position { line: 1, character: 4 }));
    assert!(contains_position(range, Position { line: 2, character: 99 }));
    assert!(contains_position(range, Position { line: 3, character: 0 }));
    assert!(!contains_position(range, Position { line: 1, character: 3 }));
    assert!(!contains_position(range, Position { line: 3, character: 1 }));
}

#[test]
fn parses_command_line_positions_and_ranges() {
    assert_eq!(parse_position("3:5"), Ok(Position { line: 2, character: 4 }));
    assert_eq!(parse_position("0:+1"), Ok(Position { line: 0, character: 0 }));
    assert_eq!(parse_position("3"), Err(RangeError::PositionFormat));
    assert_eq!(parse_position("a:1"), Err(RangeError::Number(NumberError::InvalidDigit)));
    assert_eq!(parse_position(":1"), Err(RangeError::Number(NumberError::Empty)));
    assert_eq!(
        parse_position("99999999999:1"),
        Err(RangeError::Number(NumberError::PosOverflow))
    );
    assert_eq!(parse_line_range("ab\ncd\n", "2:1-2:3"), Ok(TextRange { start: 3, end: 5 }));
    assert_eq!(parse_line_range("ab\ncd\n", "1:1-9:9"), Ok(TextRange { start: 0, end: 6 }));
    assert_eq!(parse_line_range("ab", "1:1"), Err(RangeError::RangeFormat));
    assert_eq!(
        RangeError::RangeFormat.message(),
        "range must be formatted as start_line:start_col-end_line:end_col"
    );
}
