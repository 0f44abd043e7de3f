use auto_args::errors::Error;
use auto_args::help::help;
use auto_args::parse::parse_from;
use auto_args::shape::Field;
use auto_args::shape::IntKind;
use auto_args::shape::Shape;
use auto_args::shape::Value;

fn toks(xs: &[&str]) -> Vec<String> {
    xs.iter().map(|s| s.to_string()).collect()
}

fn field(name: &str, shape: Shape) -> Field {
    Field { name: name.to_string(), doc: String::new(), shape }
}

fn fieldd(name: &str, doc: &str, shape: Shape) -> Field {
    Field { name: name.to_string(), doc: doc.to_string(), shape }
}

fn text(s: &str) -> Value {
    Value::Text(s.to_string())
}

fn choice(i: usize, v: Value) -> Value {
    Value::Choice(i, Box::new(v))
}

#[test]
fn enum_error_message() {
    let shape = Shape::Alternatives(vec![
        field(
            "First",
            Shape::Record(vec![field("first", Shape::Text), field("second", Shape::Text)]),
        ),
        field("Second", Shape::Record(vec![field("second", Shape::Int(IntKind::I32))])),
        field("Third", Shape::Record(vec![field("third", Shape::Int(IntKind::U16))])),
    ]);
    let h = help(&shape, "prog");
    println!("help: {}", h);
    assert!(h.contains("--first-first "));
    assert!(h.contains("--first-second "));
    assert!(h.contains("--second-second "));
    assert!(h.contains("--third-third "));

    assert_eq!(
        choice(0, Value::Record(vec![text("hello"), text("world")])),
        parse_from(&shape, toks(&["--first-first", "hello", "--first-second", "world"])).unwrap()
    );

    assert_eq!(
        choice(1, Value::Record(vec![Value::Signed(5)])),
        parse_from(&shape, toks(&["--second-second", "5"])).unwrap()
    );

    assert!(parse_from(&shape, toks(&[])).is_err());

    assert!(parse_from(&shape, toks(&["--first-first", "hello", "--second-second", "5"])).is_err());
    assert_eq!(
        parse_from(&shape, toks(&["--first-first", "hello"])),
        Err(Error::MissingOption("--first-second".to_string()))
    );
}

#[test]
fn enum_required_by_optional_struct_craziness() {
    let dimensions = Shape::Alternatives(vec![
        fieldd("Width", "The three widths of the cell", Shape::Wrapper(Box::new(Shape::Text))),
        fieldd("Volume", "The volume of the cell", Shape::Wrapper(Box::new(Shape::Text))),
    ]);
    let square_well = Shape::Record(vec![
        field("well_width", Shape::Text),
        field("cell", dimensions),
    ]);
    let shape = Shape::Alternatives(vec![
        field("ResumeFrom", Shape::Wrapper(Box::new(Shape::Text))),
        field("_Params", Shape::Record(vec![field("sys", square_well)])),
    ]);
    let h = help(&shape, "prog");
    println!("help: {}", h);
    assert!(h.contains("--resume-from "));
}

#[test]
fn enum_with_variant_having_only_optional_params_craziness() {
    let shape = Shape::Alternatives(vec![
        field(
            "First",
            Shape::Record(vec![field("name", Shape::Optional(Box::new(Shape::Text)))]),
        ),
        field(
            "Second",
            Shape::Record(vec![
                field("values", Shape::Repeated(Box::new(Shape::Int(IntKind::Usize)))),
            ]),
        ),
    ]);
    let h = help(&shape, "prog");
    println!("help: {}", h);
    assert!(!auto_args::shape::requires_input(&Shape::Optional(Box::new(Shape::Text))));
    assert!(h.contains("--first-name "));
    assert!(h.contains("--first "));
    assert_eq!(
        Ok(choice(0, Value::Record(vec![Value::Maybe(None)]))),
        parse_from(&shape, toks(&["--first"]))
    );
    assert_eq!(
        Ok(choice(1, Value::Record(vec![Value::List(vec![])]))),
        parse_from(&shape, toks(&["--second"]))
    );
    assert_eq!(
        Ok(choice(1, Value::Record(vec![Value::List(vec![Value::Unsigned(1)])]))),
        parse_from(&shape, toks(&["--second", "--second-values", "1"]))
    );
    assert!(parse_from(&shape, toks(&["--second-values"])).is_err());
}

#[test]
fn only_one_variant_craziness() {
    let shape = Shape::Alternatives(vec![
        field("First", Shape::Record(vec![field("a", Shape::Text)])),
    ]);
    let h = help(&shape, "prog");
    println!("help: {}", h);
    println!("\n\n\n\n");
    assert!(h.contains("--first-a "));

    assert!(h.contains("--first-a "));

    assert!(parse_from(&shape, toks(&[])).is_err());
}

#[test]
fn underscore_in_optional_field_craziness() {
    let square_well = Shape::Record(vec![field("well_width", Shape::Text)]);
    let shape = Shape::Alternatives(vec![
        field("ResumeFrom", Shape::Wrapper(Box::new(Shape::Text))),
        field("_Params", Shape::Record(vec![field("sys", square_well)])),
    ]);
    let h = help(&shape, "prog");
    println!("help: {}", h);
    assert!(h.contains("--resume-from "));
}

#[test]
fn simple_doc_comment() {
    let shape = Shape::Record(vec![
        fieldd("arg", "First line\nSecond line", Shape::Int(IntKind::U64)),
    ]);
    let h = help(&shape, "prog");
    println!("help: {}", h);
    assert!(h.contains("First line"), "Should use the first line from the doc comment");
    assert!(!h.contains("Second line"), "Should not use the second line from the doc comment");
}
