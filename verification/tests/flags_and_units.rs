use auto_args::help::help;
use auto_args::parse::parse_from;
use auto_args::shape::Field;
use auto_args::shape::IntKind;
use auto_args::shape::Shape;
use auto_args::shape::Value;

fn toks(xs: &[&str]) -> Vec<String> {
    xs.iter().map(|s| s.to_string()).collect()
}

fn field(name: &str, shape: Shape) -> Field {
    Field { name: name.to_string(), doc: String::new(), shape }
}

fn fieldd(name: &str, doc: &str, shape: Shape) -> Field {
    Field { name: name.to_string(), doc: doc.to_string(), shape }
}

fn text(s: &str) -> Value {
    Value::Text(s.to_string())
}

#[test]
fn unique_flag() {
    let shape = Shape::Record(vec![fieldd("alice", "Documentation for alice", Shape::Flag)]);
    let h = help(&shape, "prog");
    assert!(h.contains("--alice"));
    assert!(h.contains("Documentation for alice"));

    assert_eq!(
        Value::Record(vec![Value::Flag(true)]),
        parse_from(&shape, toks(&["--alice"])).unwrap()
    );

    assert_eq!(Value::Record(vec![Value::Flag(false)]), parse_from(&shape, toks(&[])).unwrap());

    assert!(parse_from(&shape, toks(&["--bob"])).is_err());
}

#[test]
fn flag_with_underscores() {
    let shape = Shape::Record(vec![
        fieldd("this_is_awesome", "Documentation for awesomeness", Shape::Flag),
    ]);
    let h = help(&shape, "prog");
    println!("{}", h);
    assert!(h.contains("--this-is-awesome"));
    assert!(h.contains("Documentation for awesomeness"));

    assert_eq!(
        Value::Record(vec![Value::Flag(true)]),
        parse_from(&shape, toks(&["--this-is-awesome"])).unwrap()
    );

    assert_eq!(Value::Record(vec![Value::Flag(false)]), parse_from(&shape, toks(&[])).unwrap());

    assert!(parse_from(&shape, toks(&["--bob"])).is_err());
}

#[test]
fn tuple_struct_tuple_struct() {
    let shape = Shape::Wrapper(Box::new(Shape::Int(IntKind::I32)));
    let h = help(&shape, "prog");
    println!("help: {}", h);
    assert!(!h.contains("--first"));

    assert_eq!(
        Value::Wrapped(Box::new(Value::Signed(7))),
        parse_from(&shape, toks(&["7"])).unwrap()
    );

    assert!(parse_from(&shape, toks(&[])).is_err());

    assert!(parse_from(&shape, toks(&["hello"])).is_err());
}

#[test]
fn tuple_struct_unit_struct() {
    let shape = Shape::Marker;
    let h = help(&shape, "prog");
    println!("help: {}", h);
    assert!(!h.contains("--first"));

    assert_eq!(Value::Unit, parse_from(&shape, toks(&[])).unwrap());
}

#[test]
fn unit_struct_unit_struct() {
    let shape = Shape::Marker;
    let h = help(&shape, "prog");
    println!("help: {}", h);
    assert!(!h.contains("--first"));

    assert_eq!(Value::Unit, parse_from(&shape, toks(&[])).unwrap());
}

#[test]
fn struct_with_unit() {
    let shape = Shape::Record(vec![
        field("first", Shape::Int(IntKind::I32)),
        field("second", Shape::Marker),
    ]);
    let h = help(&shape, "prog");
    println!("help: {}", h);
    assert!(h.contains("--first"));
    assert!(!h.contains("--second"));

    assert_eq!(
        Value::Record(vec![Value::Signed(7), Value::Unit]),
        parse_from(&shape, toks(&["--first=7"])).unwrap()
    );

    assert_eq!(None, parse_from(&shape, toks(&["--first=7", "--second"])).ok());

    assert!(parse_from(&shape, toks(&[])).is_err());

    assert!(parse_from(&shape, toks(&["hello"])).is_err());

    assert!(parse_from(&shape, toks(&["--first"])).is_err());
}

#[test]
fn simple_phantom() {
    let shape = Shape::Record(vec![field("first", Shape::Marker), field("second", Shape::Text)]);
    let h = help(&shape, "prog");
    println!("help: {}", h);
    assert!(!h.contains("--first"));
    assert!(h.contains("--second"));

    assert_eq!(
        Value::Record(vec![Value::Unit, text("hello")]),
        parse_from(&shape, toks(&["--second=hello"])).unwrap()
    );

    assert!(parse_from(&shape, toks(&[])).is_err());
}
