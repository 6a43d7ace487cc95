use codegen::{Fields, FormatError, Formatter, Type, Variant};

fn render(v: &Variant) -> String {
    let mut fmt = Formatter::new();
    assert_eq!(v.fmt(&mut fmt), Ok(()));
    fmt.as_str().to_string()
}

#[test]
fn new_variant_renders_name_comma_newline() {
    let v = Variant::new("Resign");
    assert_eq!(render(&v), "Resign,\n");
}

#[test]
fn name_is_taken_verbatim() {
    let v = Variant::new("not an identifier!");
    assert_eq!(render(&v), "not an identifier!,\n");
}

#[test]
fn named_fields_render_in_braces() {
    let mut v = Variant::new("Move");
    v.named("from", "Square").named("to", "Square");
    assert_eq!(render(&v), "Move { from: Square, to: Square },\n");
}

#[test]
fn one_named_field() {
    let mut v = Variant::new("Wrap");
    v.named("inner", "u8");
    assert_eq!(render(&v), "Wrap { inner: u8 },\n");
}

#[test]
fn named_fields_keep_insertion_order() {
    let mut v = Variant::new("V");
    v.named("c", "T3").named("a", "T1").named("b", "T2");
    assert_eq!(render(&v), "V { c: T3, a: T1, b: T2 },\n");
}

#[test]
fn tuple_fields_render_in_parentheses() {
    let mut v = Variant::new("Pair");
    v.tuple("T1").tuple("T2");
    assert_eq!(render(&v), "Pair(T1, T2),\n");
}

#[test]
fn one_tuple_field() {
    let mut v = Variant::new("Some");
    v.tuple("T");
    assert_eq!(render(&v), "Some(T),\n");
}

#[test]
fn tuple_fields_keep_insertion_order() {
    let mut v = Variant::new("V");
    v.tuple("u64").tuple("u8").tuple("u32");
    assert_eq!(render(&v), "V(u64, u8, u32),\n");
}

#[test]
fn doc_and_annotation_precede_the_name() {
    let mut v = Variant::new("Resign");
    v.doc("Player resigns").annotation("#[deprecated]");
    assert_eq!(render(&v), "#[deprecated]\n/// Player resigns\nResign,\n");
}

#[test]
fn annotations_render_in_call_order_before_doc() {
    let mut v = Variant::new("A");
    v.annotation("#[first]");
    v.doc("about A");
    v.annotation("#[second]").annotation("#[third]");
    assert_eq!(render(&v), "#[first]\n#[second]\n#[third]\n/// about A\nA,\n");
}

#[test]
fn annotations_are_not_deduplicated() {
    let mut v = Variant::new("A");
    v.annotation("#[x]").annotation("#[x]");
    assert_eq!(render(&v), "#[x]\n#[x]\nA,\n");
}

#[test]
fn doc_set_twice_keeps_only_the_second() {
    let mut v = Variant::new("A");
    v.doc("first text").doc("second text");
    let out = render(&v);
    assert_eq!(out, "/// second text\nA,\n");
    assert!(!out.contains("first"));
}

#[test]
fn doc_with_several_lines() {
    let mut v = Variant::new("A");
    v.doc("one\ntwo");
    assert_eq!(render(&v), "/// one\n/// two\nA,\n");
}

#[test]
fn named_fields_with_annotation_and_doc() {
    let mut v = Variant::new("Move");
    v.named("from", "Square").annotation("#[serde(rename)]").doc("A move").named("to", "Square");
    assert_eq!(
        render(&v),
        "#[serde(rename)]\n/// A move\nMove { from: Square, to: Square },\n"
    );
}

#[test]
fn named_field_takes_a_parameterized_type() {
    let mut ty = Type::new("Vec");
    ty.generic("u8");
    let mut v = Variant::new("Bytes");
    v.named("data", &ty).named("copy", ty);
    assert_eq!(render(&v), "Bytes { data: Vec<u8>, copy: Vec<u8> },\n");
}

#[test]
fn named_field_takes_owned_and_borrowed_strings() {
    let owned = String::from("u16");
    let mut v = Variant::new("V");
    v.named("a", &owned).named("b", owned);
    assert_eq!(render(&v), "V { a: u16, b: u16 },\n");
}

#[test]
fn named_locks_out_tuple() {
    let mut v = Variant::new("V");
    assert!(matches!(v.fields(), Fields::Empty));
    v.named("a", "T");
    assert!(matches!(v.fields(), Fields::Named(_)));
    assert!(!matches!(v.fields(), Fields::Tuple(_)));
}

#[test]
fn tuple_locks_out_named() {
    let mut v = Variant::new("V");
    v.tuple("T");
    assert!(matches!(v.fields(), Fields::Tuple(_)));
    assert!(!matches!(v.fields(), Fields::Named(_)));
}

#[test]
fn rendering_twice_gives_the_same_text() {
    let mut v = Variant::new("Move");
    v.annotation("#[a]").doc("d\ne").named("from", "Square").named("to", "Square");
    let first = render(&v);
    let second = render(&v);
    assert_eq!(first, second);
    assert_eq!(first, "#[a]\n/// d\n/// e\nMove { from: Square, to: Square },\n");
}

#[test]
fn rendering_a_clone_gives_the_same_text() {
    let mut v = Variant::new("Pair");
    v.tuple("A").tuple("B").doc("both");
    let w = v.clone();
    assert_eq!(render(&v), render(&w));
}

#[test]
fn variant_is_written_after_what_the_formatter_holds() {
    let mut fmt = Formatter::new();
    assert_eq!(fmt.write("enum E {\n"), Ok(()));
    fmt.indent();
    let mut a = Variant::new("A");
    a.doc("first");
    let mut b = Variant::new("B");
    b.tuple("u8").annotation("#[last]");
    assert_eq!(a.fmt(&mut fmt), Ok(()));
    assert_eq!(b.fmt(&mut fmt), Ok(()));
    fmt.dedent();
    assert_eq!(fmt.write("}\n"), Ok(()));
    assert_eq!(
        fmt.as_str(),
        "enum E {\n    /// first\n    A,\n    #[last]\n    B(u8),\n}\n"
    );
}

#[test]
fn last_variant_keeps_its_comma() {
    let mut fmt = Formatter::new();
    assert_eq!(Variant::new("A").fmt(&mut fmt), Ok(()));
    assert_eq!(Variant::new("B").fmt(&mut fmt), Ok(()));
    assert_eq!(fmt.as_str(), "A,\nB,\n");
}

#[test]
fn variant_fails_when_the_formatter_runs_full() {
    let mut v = Variant::new("Move");
    v.named("from", "Square");
    // "Move { from: Square },\n" has 23 characters.
    let mut fmt = Formatter::with_room(22);
    assert_eq!(v.fmt(&mut fmt), Err(FormatError));
    assert_eq!(fmt.as_str(), "Move { from: Square },");
    let mut fmt = Formatter::with_room(23);
    assert_eq!(v.fmt(&mut fmt), Ok(()));
    assert_eq!(fmt.as_str(), "Move { from: Square },\n");
}

#[test]
fn variant_fails_in_the_annotations() {
    let mut v = Variant::new("A");
    v.annotation("#[long_annotation]").doc("text");
    let mut fmt = Formatter::with_room(5);
    assert_eq!(v.fmt(&mut fmt), Err(FormatError));
    assert_eq!(fmt.as_str(), "#[lon");
}

#[test]
fn variant_fails_in_the_doc() {
    let mut v = Variant::new("A");
    v.annotation("#[a]").doc("text");
    let mut fmt = Formatter::with_room(8);
    assert_eq!(v.fmt(&mut fmt), Err(FormatError));
    assert_eq!(fmt.as_str(), "#[a]\n///");
}

#[test]
fn tuple_variant_fails_in_the_fields() {
    let mut v = Variant::new("P");
    v.tuple("T1").tuple("T2");
    let mut fmt = Formatter::with_room(6);
    assert_eq!(v.fmt(&mut fmt), Err(FormatError));
    assert_eq!(fmt.as_str(), "P(T1, ");
}
