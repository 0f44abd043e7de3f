use auto_args::help::help;
use auto_args::parse::parse_from;
use auto_args::shape::Field;
use auto_args::shape::IntKind;
use auto_args::shape::Shape;
use auto_args::shape::Value;

fn toks(xs: &[&str]) -> Vec<String> {
    xs.iter().map(|s| s.to_string()).collect()
}

fn field(name: &str, shape: Shape) -> Field {
    Field { name: name.to_string(), doc: String::new(), shape }
}

fn text(s: &str) -> Value {
    Value::Text(s.to_string())
}

#[test]
fn required_option() {
    let opt = Shape::Record(vec![field("arg", Shape::Int(IntKind::I32))]);
    let shape = Shape::Record(vec![field("arg", opt), field("other", Shape::Text)]);
    let h = help(&shape, "prog");
    println!("help: {}", h);
    assert!(h.contains("--arg"));
    assert!(h.contains("--arg-arg"));

    assert_eq!(
        Value::Record(vec![Value::Record(vec![Value::Signed(7)]), text("hello")]),
        parse_from(&shape, toks(&["--arg-arg", "7", "--other", "hello"])).unwrap()
    );

    assert!(parse_from(&shape, toks(&["--arg"])).is_err());
}

#[test]
fn required_option_with_flattened_name() {
    let opt = Shape::Record(vec![field("arg", Shape::Int(IntKind::I32))]);
    let shape = Shape::Record(vec![field("_arg", opt), field("other", Shape::Text)]);
    let h = help(&shape, "prog");
    println!("help: {}", h);
    assert!(h.contains("--arg "));

    assert_eq!(
        Value::Record(vec![Value::Record(vec![Value::Signed(7)]), text("hello")]),
        parse_from(&shape, toks(&["--arg", "7", "--other", "hello"])).unwrap()
    );
}

#[test]
fn optional_option() {
    let foo = Shape::Record(vec![
        field("arg1", Shape::Int(IntKind::U32)),
        field("arg2", Shape::Int(IntKind::I32)),
    ]);
    let shape = Shape::Record(vec![
        field("_arg", Shape::Optional(Box::new(foo))),
        field("other", Shape::Text),
    ]);
    let h = help(&shape, "prog");
    println!("help: {}", h);
    assert!(h.contains("--arg1 "));
    assert!(h.contains("--arg2 "));

    assert_eq!(
        Value::Record(vec![
            Value::Maybe(Some(Box::new(Value::Record(vec![
                Value::Unsigned(37),
                Value::Signed(-3)
            ])))),
            text("hello")
        ]),
        parse_from(&shape, toks(&["--arg1", "37", "--arg2=-3", "--other", "hello"])).unwrap()
    );

    assert_eq!(
        Value::Record(vec![Value::Maybe(None), text("hello")]),
        parse_from(&shape, toks(&["--other", "hello"])).unwrap()
    );
}
