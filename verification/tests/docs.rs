use codegen::{Docs, FormatError, Formatter};

fn render(text: &str) -> String {
    let mut fmt = Formatter::new();
    assert_eq!(Docs::new(text).fmt(&mut fmt), Ok(()));
    fmt.as_str().to_string()
}

#[test]
fn single_line_doc() {
    assert_eq!(render("Player resigns"), "/// Player resigns\n");
}

#[test]
fn empty_doc_renders_nothing() {
    assert_eq!(render(""), "");
}

#[test]
fn one_comment_per_line() {
    assert_eq!(render("a\nb\nc"), "/// a\n/// b\n/// c\n");
}

#[test]
fn final_line_feed_opens_no_line() {
    assert_eq!(render("a\n"), "/// a\n");
    assert_eq!(render("a\nb\n"), "/// a\n/// b\n");
}

#[test]
fn empty_lines_become_empty_comments() {
    assert_eq!(render("a\n\nb"), "/// a\n/// \n/// b\n");
    assert_eq!(render("\n"), "/// \n");
    assert_eq!(render("\n\n"), "/// \n/// \n");
}

#[test]
fn doc_lines_are_indented() {
    let mut fmt = Formatter::new();
    fmt.indent();
    assert_eq!(Docs::new("a\nb").fmt(&mut fmt), Ok(()));
    assert_eq!(fmt.as_str(), "    /// a\n    /// b\n");
}

#[test]
fn doc_fails_when_the_formatter_runs_full() {
    let mut fmt = Formatter::with_room(9);
    assert_eq!(Docs::new("a\nbcd").fmt(&mut fmt), Err(FormatError));
    assert_eq!(fmt.as_str(), "/// a\n///");
    let mut fmt = Formatter::with_room(14);
    assert_eq!(Docs::new("a\nbcd").fmt(&mut fmt), Ok(()));
    assert_eq!(fmt.as_str(), "/// a\n/// bcd\n");
}
