use auto_args::errors::Error;
use auto_args::help::help;
use auto_args::parse::parse_from;
use auto_args::shape::Field;
use auto_args::shape::IntKind;
use auto_args::shape::Shape;
use auto_args::shape::Value;

fn toks(xs: &[&str]) -> Vec<String> {
    xs.iter().map(|s| s.to_string()).collect()
}

fn field(name: &str, shape: Shape) -> Field {
    Field { name: name.to_string(), doc: String::new(), shape }
}

fn fieldd(name: &str, doc: &str, shape: Shape) -> Field {
    Field { name: name.to_string(), doc: doc.to_string(), shape }
}

fn text(s: &str) -> Value {
    Value::Text(s.to_string())
}

fn choice(i: usize, v: Value) -> Value {
    Value::Choice(i, Box::new(v))
}

#[test]
fn simple_enum() {
    let shape = Shape::Alternatives(vec![
        field("First", Shape::Record(vec![field("first", Shape::Text)])),
        field("Second", Shape::Record(vec![field("second", Shape::Int(IntKind::I32))])),
        field("Third", Shape::Record(vec![field("third", Shape::Int(IntKind::U16))])),
    ]);
    let h = help(&shape, "prog");
    println!("help: {}", h);
    assert!(h.contains("--first-first "));
    assert!(h.contains("--second-second "));
    assert!(h.contains("--third-third "));

    assert_eq!(
        choice(0, Value::Record(vec![text("hello")])),
        parse_from(&shape, toks(&["--first-first", "hello"])).unwrap()
    );

    assert_eq!(
        choice(1, Value::Record(vec![Value::Signed(5)])),
        parse_from(&shape, toks(&["--second-second", "5"])).unwrap()
    );

    assert!(parse_from(&shape, toks(&[])).is_err());

    assert!(parse_from(&shape, toks(&["--first-first", "hello", "--second-second", "5"])).is_err());
}

#[test]
fn unit_enum() {
    let shape = Shape::Alternatives(vec![
        field("First", Shape::Marker),
        field("Second", Shape::Marker),
        field("Third", Shape::Marker),
    ]);
    let h = help(&shape, "prog");
    println!("help: {}", h);
    assert!(h.contains("--first "));
    assert!(h.contains("--second "));
    assert!(h.contains("--third "));

    assert_eq!(choice(0, Value::Unit), parse_from(&shape, toks(&["--first"])).unwrap());
    assert_eq!(choice(1, Value::Unit), parse_from(&shape, toks(&["--second"])).unwrap());

    assert!(parse_from(&shape, toks(&[])).is_err());

    assert!(parse_from(&shape, toks(&["--first", "--second"])).is_err());
}

#[test]
fn unit_enum_with_underscores() {
    let shape = Shape::Alternatives(vec![
        field("First_World", Shape::Marker),
        fieldd("Second", "The second option is awesome!", Shape::Marker),
        field("T_", Shape::Marker),
    ]);
    let h = help(&shape, "prog");
    println!("help: {}", h);
    assert!(h.contains("--First-World "));
    assert!(h.contains("--second "));
    assert!(h.contains("The second option is awesome!"));
    assert!(h.contains("--T "));

    assert_eq!(choice(0, Value::Unit), parse_from(&shape, toks(&["--First-World"])).unwrap());
    assert_eq!(choice(1, Value::Unit), parse_from(&shape, toks(&["--second"])).unwrap());
    assert_eq!(choice(2, Value::Unit), parse_from(&shape, toks(&["--T"])).unwrap());

    assert!(parse_from(&shape, toks(&[])).is_err());

    assert!(parse_from(&shape, toks(&["--first", "--second"])).is_err());
}

#[test]
fn enum_with_singular_tuple() {
    let shape = Shape::Alternatives(vec![
        fieldd("Foo", "The foo integer", Shape::Wrapper(Box::new(Shape::Int(IntKind::U32)))),
        fieldd("Bar", "The bar String", Shape::Wrapper(Box::new(Shape::Text))),
    ]);
    let h = help(&shape, "prog");
    println!("help: {}", h);
    assert!(h.contains("--foo u32"));
    assert!(h.contains("--bar STRING"));
    assert!(h.contains("The foo integer"));
    assert!(h.contains("The bar String"));

    println!("Without too much fun...");
    println!("Hello world {:?}", parse_from(&shape, toks(&["--foo=37"])));
    println!("This is fun...");
    assert_eq!(
        choice(0, Value::Wrapped(Box::new(Value::Unsigned(37)))),
        parse_from(&shape, toks(&["--foo=37"])).expect("Trouble right here")
    );

    assert_eq!(
        choice(1, Value::Wrapped(Box::new(text("hello")))),
        parse_from(&shape, toks(&["--bar=hello"])).unwrap()
    );

    assert!(parse_from(&shape, toks(&[])).is_err());

    assert!(parse_from(&shape, toks(&["--foo=37", "--bar=hello"])).is_err());
}

#[test]
fn enum_with_underscore_variant() {
    let shape = Shape::Alternatives(vec![
        field("_Greet", Shape::Record(vec![field("hello", Shape::Text)])),
        field("Goodbye", Shape::Wrapper(Box::new(Shape::Text))),
    ]);
    let h = help(&shape, "prog");
    println!("help: {}", h);
    assert!(h.contains("--hello "));
    assert!(h.contains("--goodbye "));

    assert_eq!(
        choice(0, Value::Record(vec![text("David")])),
        parse_from(&shape, toks(&["--hello", "David"])).unwrap()
    );

    assert_eq!(
        choice(1, Value::Wrapped(Box::new(text("David")))),
        parse_from(&shape, toks(&["--goodbye=David"])).unwrap()
    );

    assert!(parse_from(&shape, toks(&[])).is_err());

    assert!(parse_from(&shape, toks(&["--hello=David", "--goodbye=Goliath"])).is_err());
}

#[test]
fn enum_with_nested_underscore_variant() {
    let inner = Shape::Alternatives(vec![
        field("_Greet", Shape::Record(vec![field("hello", Shape::Text)])),
        field("Goodbye", Shape::Wrapper(Box::new(Shape::Text))),
    ]);
    let shape = Shape::Record(vec![field("say", inner)]);
    let h = help(&shape, "prog");
    println!("help: {}", h);
    assert!(h.contains("--say-hello "));
    assert!(h.contains("--say-goodbye "));

    assert_eq!(
        Value::Record(vec![choice(0, Value::Record(vec![text("David")]))]),
        parse_from(&shape, toks(&["--say-hello", "David"])).unwrap()
    );

    assert_eq!(
        Value::Record(vec![choice(1, Value::Wrapped(Box::new(text("David"))))]),
        parse_from(&shape, toks(&["--say-goodbye=David"])).unwrap()
    );

    assert!(parse_from(&shape, toks(&[])).is_err());

    assert!(parse_from(&shape, toks(&["--say-hello=David", "--say-goodbye=Goliath"])).is_err());
}

fn nested_shape() -> Shape {
    Shape::Alternatives(vec![
        field(
            "Hello",
            Shape::Record(vec![field("hello", Shape::Text), field("greeting", Shape::Text)]),
        ),
        field("Goodbye", Shape::Wrapper(Box::new(Shape::Text))),
    ])
}

#[test]
fn enum_missing_flag() {
    let shape = Shape::Alternatives(vec![
        field("Other", Shape::Wrapper(Box::new(nested_shape()))),
        field("Nested", Shape::Wrapper(Box::new(nested_shape()))),
    ]);
    let h = help(&shape, "prog");
    println!("help: {}", h);
    assert!(h.contains("--other-goodbye "));
    assert!(h.contains("--nested-hello-hello "));
    assert!(h.contains("--nested-hello-greeting "));
    assert!(h.contains("--nested-goodbye "));

    assert_eq!(
        Ok(choice(0, Value::Wrapped(Box::new(choice(
            0,
            Value::Record(vec![text("1"), text("ee")])
        ))))),
        parse_from(
            &shape,
            toks(&["--other-hello-hello", "1", "--other-hello-greeting", "ee"])
        )
    );

    assert!(parse_from(&shape, toks(&[])).is_err());

    assert_eq!(
        Ok(choice(0, Value::Wrapped(Box::new(choice(
            1,
            Value::Wrapped(Box::new(text("World")))
        ))))),
        parse_from(&shape, toks(&["--other-goodbye", "World"]))
    );

    assert_eq!(
        Err(Error::MissingOption("--other-hello-greeting".to_string())),
        parse_from(&shape, toks(&["--other-hello-hello", "World"]))
    );
    assert_eq!(
        Err(Error::MissingOption("--nested-goodbye".to_string())),
        parse_from(&shape, toks(&[]))
    );

    assert_eq!(
        Err(Error::MissingOption("--nested-goodbye".to_string())),
        parse_from(&shape, toks(&["World"]))
    );
}
