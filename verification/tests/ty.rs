use codegen::{Field, Fields, FormatError, Formatter, IntoType, Type};

fn render(ty: &Type) -> String {
    let mut fmt = Formatter::new();
    assert_eq!(ty.fmt(&mut fmt), Ok(()));
    fmt.as_str().to_string()
}

fn render_fields(fields: &Fields) -> String {
    let mut fmt = Formatter::new();
    assert_eq!(fields.fmt(&mut fmt), Ok(()));
    fmt.as_str().to_string()
}

#[test]
fn bare_type_is_its_name() {
    assert_eq!(render(&Type::new("u8")), "u8");
}

#[test]
fn generic_arguments_in_angle_brackets() {
    let mut ty = Type::new("HashMap");
    ty.generic("String").generic("u8");
    assert_eq!(render(&ty), "HashMap<String, u8>");
}

#[test]
fn generic_arguments_nest() {
    let mut inner = Type::new("Option");
    inner.generic("u8");
    let mut outer = Type::new("Vec");
    outer.generic(&inner);
    let mut map = Type::new("Map");
    map.generic(outer).generic(inner).generic("K");
    assert_eq!(render(&map), "Map<Vec<Option<u8>>, Option<u8>, K>");
}

#[test]
fn clone_of_a_type_renders_alike() {
    let mut ty = Type::new("Result");
    ty.generic("T").generic("E");
    let copy = ty.clone();
    assert_eq!(render(&copy), "Result<T, E>");
    assert_eq!(render(&ty), "Result<T, E>");
}

#[test]
fn every_input_shape_gives_a_type() {
    let owned = String::from("B");
    let mut param = Type::new("D");
    param.generic("E");
    assert_eq!(render(&"A".into_type()), "A");
    assert_eq!(render(&(&owned).into_type()), "B");
    assert_eq!(render(&String::from("C").into_type()), "C");
    assert_eq!(render(&(&param).into_type()), "D<E>");
    assert_eq!(render(&param.into_type()), "D<E>");
}

#[test]
fn type_fails_when_the_formatter_runs_full() {
    let mut ty = Type::new("Vec");
    ty.generic("u8");
    let mut fmt = Formatter::with_room(6);
    assert_eq!(ty.fmt(&mut fmt), Err(FormatError));
    assert_eq!(fmt.as_str(), "Vec<u8");
    let mut fmt = Formatter::with_room(7);
    assert_eq!(ty.fmt(&mut fmt), Ok(()));
    assert_eq!(fmt.as_str(), "Vec<u8>");
}

#[test]
fn no_fields_render_nothing() {
    assert_eq!(render_fields(&Fields::Empty), "");
}

#[test]
fn fields_grow_in_their_shape() {
    let mut fields = Fields::Empty;
    fields.named("a", "T1").named("b", "T2");
    assert_eq!(render_fields(&fields), " { a: T1, b: T2 }");
    let mut fields = Fields::Empty;
    fields.tuple("T1").tuple(Type::new("T2"));
    assert_eq!(render_fields(&fields), "(T1, T2)");
}

#[test]
fn fields_built_by_hand() {
    let mut ty = Type::new("Vec");
    ty.generic("u8");
    let fields = Fields::Named(vec![
        Field { name: String::from("x"), ty: Type::new("i32") },
        Field { name: String::from("y"), ty },
    ]);
    assert_eq!(render_fields(&fields), " { x: i32, y: Vec<u8> }");
    let fields = Fields::Tuple(vec![Type::new("A"), Type::new("B"), Type::new("C")]);
    assert_eq!(render_fields(&fields), "(A, B, C)");
}

#[test]
fn named_fields_fail_when_the_formatter_runs_full() {
    let mut fields = Fields::Empty;
    fields.named("a", "T1").named("b", "T2");
    let mut fmt = Formatter::with_room(10);
    assert_eq!(fields.fmt(&mut fmt), Err(FormatError));
    assert_eq!(fmt.as_str(), " { a: T1, ");
}
