use codegen::formatter::INDENT;
use codegen::{FormatError, Formatter};

#[test]
fn fresh_formatter_is_empty_and_at_line_start() {
    let fmt = Formatter::new();
    assert_eq!(fmt.as_str(), "");
    assert!(fmt.is_start_of_line());
}

#[test]
fn write_appends_text() {
    let mut fmt = Formatter::new();
    assert_eq!(fmt.write("ab"), Ok(()));
    assert_eq!(fmt.write("cd"), Ok(()));
    assert_eq!(fmt.as_str(), "abcd");
}

#[test]
fn write_of_nothing_changes_nothing() {
    let mut fmt = Formatter::with_room(0);
    assert_eq!(fmt.write(""), Ok(()));
    assert_eq!(fmt.as_str(), "");
}

#[test]
fn line_start_follows_the_last_character() {
    let mut fmt = Formatter::new();
    assert_eq!(fmt.write("a"), Ok(()));
    assert!(!fmt.is_start_of_line());
    assert_eq!(fmt.write("b\n"), Ok(()));
    assert!(fmt.is_start_of_line());
    assert_eq!(fmt.write("\n"), Ok(()));
    assert!(fmt.is_start_of_line());
    assert_eq!(fmt.write("n"), Ok(()));
    assert!(!fmt.is_start_of_line());
}

#[test]
fn indent_step_is_four_blanks() {
    assert_eq!(INDENT, 4);
    let mut fmt = Formatter::new();
    fmt.indent();
    assert_eq!(fmt.write("x"), Ok(()));
    assert_eq!(fmt.as_str(), "    x");
}

#[test]
fn each_line_is_indented() {
    let mut fmt = Formatter::new();
    fmt.indent();
    assert_eq!(fmt.write("a\nb\n"), Ok(()));
    assert_eq!(fmt.write("c"), Ok(()));
    assert_eq!(fmt.write("d\ne"), Ok(()));
    assert_eq!(fmt.as_str(), "    a\n    b\n    cd\n    e");
}

#[test]
fn empty_lines_are_not_indented() {
    let mut fmt = Formatter::new();
    fmt.indent();
    assert_eq!(fmt.write("a\n\n\nb\n"), Ok(()));
    assert_eq!(fmt.as_str(), "    a\n\n\n    b\n");
}

#[test]
fn indentation_nests_and_returns() {
    let mut fmt = Formatter::new();
    assert_eq!(fmt.write("a\n"), Ok(()));
    fmt.indent();
    assert_eq!(fmt.write("b\n"), Ok(()));
    fmt.indent();
    assert_eq!(fmt.write("c\n"), Ok(()));
    fmt.dedent();
    assert_eq!(fmt.write("d\n"), Ok(()));
    fmt.dedent();
    assert_eq!(fmt.write("e\n"), Ok(()));
    assert_eq!(fmt.as_str(), "a\n    b\n        c\n    d\ne\n");
}

#[test]
fn dedent_stops_at_no_indentation() {
    let mut fmt = Formatter::new();
    fmt.dedent();
    assert_eq!(fmt.write("a"), Ok(()));
    assert_eq!(fmt.as_str(), "a");
}

#[test]
fn indentation_applies_only_at_line_start() {
    let mut fmt = Formatter::new();
    assert_eq!(fmt.write("a"), Ok(()));
    fmt.indent();
    assert_eq!(fmt.write("b\nc"), Ok(()));
    assert_eq!(fmt.as_str(), "ab\n    c");
}

#[test]
fn write_that_fits_exactly_succeeds() {
    let mut fmt = Formatter::with_room(3);
    assert_eq!(fmt.write("abc"), Ok(()));
    assert_eq!(fmt.as_str(), "abc");
    assert_eq!(fmt.write(""), Ok(()));
}

#[test]
fn write_beyond_the_room_fails_and_fills_the_sink() {
    let mut fmt = Formatter::with_room(3);
    assert_eq!(fmt.write("abcd"), Err(FormatError));
    assert_eq!(fmt.as_str(), "abc");
    assert_eq!(fmt.write("e"), Err(FormatError));
    assert_eq!(fmt.as_str(), "abc");
}

#[test]
fn room_is_shared_by_successive_writes() {
    let mut fmt = Formatter::with_room(4);
    assert_eq!(fmt.write("ab"), Ok(()));
    assert_eq!(fmt.write("cd"), Ok(()));
    assert_eq!(fmt.write("e"), Err(FormatError));
    assert_eq!(fmt.as_str(), "abcd");
}

#[test]
fn indentation_counts_against_the_room() {
    let mut fmt = Formatter::with_room(5);
    fmt.indent();
    assert_eq!(fmt.write("ab"), Err(FormatError));
    assert_eq!(fmt.as_str(), "    a");
    let mut fmt = Formatter::with_room(2);
    fmt.indent();
    assert_eq!(fmt.write("ab"), Err(FormatError));
    assert_eq!(fmt.as_str(), "  ");
}

#[test]
fn room_counts_characters_not_bytes() {
    let mut fmt = Formatter::with_room(2);
    assert_eq!(fmt.write("\u{e9}\u{4e16}"), Ok(()));
    assert_eq!(fmt.as_str(), "\u{e9}\u{4e16}");
    assert_eq!(fmt.write("x"), Err(FormatError));
}
