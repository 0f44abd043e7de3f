use auto_args::help::help_message;
use auto_args::parse::parse_from;
use auto_args::parse::parse_internal;
use auto_args::shape::Field;
use auto_args::shape::IntKind;
use auto_args::shape::Shape;
use auto_args::shape::Value;

fn toks(xs: &[&str]) -> Vec<String> {
    xs.iter().map(|s| s.to_string()).collect()
}

fn field(name: &str, shape: Shape) -> Field {
    Field { name: name.to_string(), doc: String::new(), shape }
}

fn text(s: &str) -> Value {
    Value::Text(s.to_string())
}

fn choice(i: usize, v: Value) -> Value {
    Value::Choice(i, Box::new(v))
}

fn should_parse(shape: &Shape, args: &[&str], key: &str, result: Value) {
    let mut args = toks(args);
    assert_eq!(parse_internal(shape, key, &mut args).unwrap(), result);
}

fn should_parse_completely(shape: &Shape, args: &[&str], key: &str, result: Value) {
    let mut args = toks(args);
    assert_eq!(parse_internal(shape, key, &mut args).unwrap(), result);
    if args.len() != 0 {
        println!("args remaining: {:?}", args);
        assert_eq!(args.len(), 0);
    }
}

fn shouldnt_parse(shape: &Shape, args: &[&str], key: &str) {
    let mut args = toks(args);
    assert!(parse_internal(shape, key, &mut args).is_err());
}

#[test]
fn hello_world() {
    let flags = &["--hello", "world", "--bad"];
    should_parse(&Shape::Text, flags, "--hello", text("world"));
    shouldnt_parse(&Shape::Text, flags, "--helloo");
    shouldnt_parse(&Shape::Int(IntKind::U8), flags, "--hello");
}

#[test]
fn hello_world_complete() {
    let flags = &["--hello", "world"];
    should_parse_completely(&Shape::Text, flags, "--hello", text("world"));
}

#[test]
fn hello_list() {
    let flags = &["--hello", "big", "--hello", "bad", "--hello", "wolf"];
    let list = Shape::Repeated(Box::new(Shape::Text));
    should_parse(
        &list,
        flags,
        "--hello",
        Value::List(vec![text("big"), text("bad"), text("wolf")]),
    );
    shouldnt_parse(&Shape::Text, flags, "--helloo");
    shouldnt_parse(&Shape::Int(IntKind::U8), flags, "--hello");
}

#[test]
fn positional_arg() {
    let flags = &["bad"];
    should_parse(&Shape::Text, flags, "", text("bad"));
}

#[test]
fn arg_u8() {
    let flags = &["--hello", "8", "--goodbye", "255", "--bad"];
    let u8s = Shape::Int(IntKind::U8);
    should_parse(&u8s, flags, "--hello", Value::Unsigned(8));
    should_parse(&u8s, flags, "--goodbye", Value::Unsigned(255));
    shouldnt_parse(&Shape::Text, flags, "--helloo");
}

#[test]
fn arg_i32() {
    let flags = &["--hello", "-100008", "--goodbye", "255", "--bad"];
    should_parse(&Shape::Int(IntKind::I32), flags, "--hello", Value::Signed(-100008));
    should_parse(&Shape::Int(IntKind::I64), flags, "--hello", Value::Signed(-100008));
    should_parse(&Shape::Int(IntKind::I32), flags, "--goodbye", Value::Signed(255));
    shouldnt_parse(&Shape::Text, flags, "--helloo");
    shouldnt_parse(&Shape::Int(IntKind::U32), flags, "--hello");
}

#[test]
fn arg_equal_i32() {
    let flags = &["--hello=-100008", "--goodbye", "255", "--bad"];
    should_parse(&Shape::Int(IntKind::I32), flags, "--hello", Value::Signed(-100008));
    should_parse(&Shape::Int(IntKind::I64), flags, "--hello", Value::Signed(-100008));
    should_parse(&Shape::Int(IntKind::I32), flags, "--goodbye", Value::Signed(255));
    shouldnt_parse(&Shape::Text, flags, "--helloo");
    shouldnt_parse(&Shape::Int(IntKind::U32), flags, "--hello");
}

#[test]
fn arg_f64() {
    let flags = &["--hello=3e13", "--goodbye", "2^10", "--bad"];
    should_parse(&Shape::Float, flags, "--hello", Value::Float((3e13f64).to_bits()));
    should_parse(&Shape::Float, flags, "--goodbye", Value::Float((1024.0f64).to_bits()));
    shouldnt_parse(&Shape::Text, flags, "--helloo");
    shouldnt_parse(&Shape::Int(IntKind::U32), flags, "--hello");
}

#[test]
fn arg_pathbuf() {
    let flags = &["--hello=3e13", "--goodbye", "2^10", "--bad"];
    should_parse(&Shape::Path, flags, "--hello", Value::Path("3e13".to_string()));
    should_parse(&Shape::Path, flags, "--goodbye", Value::Path("2^10".to_string()));
    shouldnt_parse(&Shape::Text, flags, "--helloo");
    shouldnt_parse(&Shape::Int(IntKind::U32), flags, "--hello");
}

fn test_shape() -> Shape {
    Shape::Record(vec![field("a", Shape::Text), field("b", Shape::Text)])
}

#[test]
fn derive_test() {
    println!("help:\n{}", help_message(&test_shape(), "", "this is the help"));
    println!("help prefix --foo:\n{}", help_message(&test_shape(), "--foo", "this is the help"));
    let flags = &["--a=foo", "--b", "bar"];
    should_parse_completely(
        &test_shape(),
        flags,
        "",
        Value::Record(vec![text("foo"), text("bar")]),
    );
    shouldnt_parse(&Shape::Text, flags, "--helloo");

    let foo_flags = &["--foo-a=foo", "--foo-b", "bar"];
    should_parse_completely(
        &test_shape(),
        foo_flags,
        "--foo",
        Value::Record(vec![text("foo"), text("bar")]),
    );
    shouldnt_parse(&test_shape(), foo_flags, "");
}

#[test]
fn derive_test_pair() {
    let pair = Shape::Record(vec![field("first", test_shape()), field("second", test_shape())]);
    println!("help:\n{}", help_message(&pair, "", "this is the help"));
    let flags = &["--first-a=a1", "--first-b", "b1", "--second-a", "a2", "--second-b", "b2"];
    should_parse_completely(
        &pair,
        flags,
        "",
        Value::Record(vec![
            Value::Record(vec![text("a1"), text("b1")]),
            Value::Record(vec![text("a2"), text("b2")]),
        ]),
    );
    shouldnt_parse(&Shape::Text, flags, "--helloo");
    let optional_pair = Shape::Record(vec![
        field("first", Shape::Optional(Box::new(Shape::Text))),
        field("second", Shape::Optional(Box::new(Shape::Text))),
    ]);
    assert!(!auto_args::shape::requires_input(&optional_pair));
    let required_pair = Shape::Record(vec![
        field("first", Shape::Text),
        field("second", Shape::Text),
    ]);
    assert!(auto_args::shape::requires_input(&required_pair));
}

fn either(a: Shape, b: Shape) -> Shape {
    Shape::Alternatives(vec![
        field("Left", Shape::Wrapper(Box::new(a))),
        field("Right", Shape::Wrapper(Box::new(b))),
    ])
}

#[test]
fn derive_either() {
    let shape = either(Shape::Int(IntKind::U8), Shape::Int(IntKind::U16));
    let flags = &["--left", "37"];
    should_parse_completely(
        &shape,
        flags,
        "",
        choice(0, Value::Wrapped(Box::new(Value::Unsigned(37)))),
    );
}

#[test]
fn derive_pair_either() {
    let e = || either(Shape::Int(IntKind::U32), Shape::Int(IntKind::U32));
    let pair = Shape::Record(vec![field("first", e()), field("second", e())]);
    let flags = &["--first-left", "37", "--second-right", "3"];
    should_parse_completely(
        &pair,
        flags,
        "",
        Value::Record(vec![
            choice(0, Value::Wrapped(Box::new(Value::Unsigned(37)))),
            choice(1, Value::Wrapped(Box::new(Value::Unsigned(3)))),
        ]),
    );
}

#[test]
fn derive_either_either() {
    let inner = either(Shape::Int(IntKind::U8), Shape::Int(IntKind::U16));
    let shape = either(Shape::Int(IntKind::U32), inner);
    let flags = &["--right-left", "37"];
    should_parse_completely(
        &shape,
        flags,
        "",
        choice(
            1,
            Value::Wrapped(Box::new(choice(0, Value::Wrapped(Box::new(Value::Unsigned(37)))))),
        ),
    );
}

#[test]
fn derive_myenum() {
    let shape = Shape::Alternatives(vec![
        field(
            "Hello",
            Shape::Record(vec![field("foo", Shape::Text), field("bar", Shape::Int(IntKind::U8))]),
        ),
        field("_Goodbye", Shape::Record(vec![field("baz", Shape::Text)])),
    ]);
    let flags = &["--hello-foo", "good", "--hello-bar", "7"];
    should_parse(
        &shape,
        flags,
        "",
        choice(0, Value::Record(vec![text("good"), Value::Unsigned(7)])),
    );
}

#[test]
fn option() {
    let shape = Shape::Optional(Box::new(Shape::Text));
    let flags = &["--foo", "good"];
    should_parse(&shape, flags, "--foo", Value::Maybe(Some(Box::new(text("good")))));
    should_parse(&shape, flags, "--bar", Value::Maybe(None));
    assert!(auto_args::shape::requires_input(&Shape::Text));
    assert!(!auto_args::shape::requires_input(&shape));
}

#[test]
fn lib_tuple_struct() {
    let shape = Shape::Wrapper(Box::new(Shape::Int(IntKind::Usize)));
    let flags = &["--foo", "5"];
    should_parse_completely(
        &shape,
        flags,
        "--foo",
        Value::Wrapped(Box::new(Value::Unsigned(5))),
    );
}

fn sub_opt() -> Shape {
    Shape::Record(vec![
        field("max_iter", Shape::Optional(Box::new(Shape::Int(IntKind::U64)))),
        field("quiet", Shape::Flag),
    ])
}

fn opt_shape() -> Shape {
    Shape::Record(vec![field("foo", Shape::Text), field("_report", sub_opt())])
}

#[test]
fn just_opt() {
    let shape = opt_shape();
    let h = auto_args::help::help(&shape, "prog");
    println!("help: {}", h);
    assert!(h.contains("--quiet"));
    let parent = parse_from(&shape, toks(&["--foo=foo"])).unwrap();
    assert_eq!(
        Value::Record(vec![
            text("foo"),
            Value::Record(vec![Value::Maybe(None), Value::Flag(false)]),
        ]),
        parent
    );
}

#[test]
fn bool_and_option_in_substruct_craziness() {
    let shape = Shape::Alternatives(vec![
        field("CaseOne", Shape::Marker),
        field("_CaseTwo", Shape::Wrapper(Box::new(opt_shape()))),
    ]);
    let h = auto_args::help::help(&shape, "prog");
    println!("help: {}", h);
    assert!(h.contains("--quiet"));
    let parent = parse_from(&shape, toks(&["--foo=foo"])).unwrap();
    assert_eq!(
        choice(
            1,
            Value::Wrapped(Box::new(Value::Record(vec![
                text("foo"),
                Value::Record(vec![Value::Maybe(None), Value::Flag(false)]),
            ]))),
        ),
        parent
    );
}

fn vector3d_floats() -> Shape {
    Shape::Record(vec![
        field("x", Shape::Float),
        field("y", Shape::Float),
        field("z", Shape::Float),
    ])
}

fn cell_dimensions() -> Shape {
    Shape::Alternatives(vec![
        fieldd_local("CellWidth", "The three widths of the cell", vector3d_floats()),
        fieldd_local("CellVolume", "The volume of the cell", Shape::Wrapper(Box::new(Shape::Float))),
    ])
}

fn square_well_params() -> Shape {
    Shape::Record(vec![field("well_width", Shape::Float), field("_dim", cell_dimensions())])
}

fn sad_params() -> Shape {
    Shape::Record(vec![
        fieldd_local("min_T", "The minimum temperature we are interested in.", Shape::Float),
        fieldd_local(
            "seed",
            "The seed for the random number generator.",
            Shape::Optional(Box::new(Shape::Int(IntKind::U64))),
        ),
    ])
}

fn simple_params() -> Shape {
    Shape::Record(vec![field("simple", Shape::Int(IntKind::U64))])
}

fn naive_params() -> Shape {
    Shape::Record(vec![field("naive", Shape::Text)])
}

fn params(mp: Shape, sp: Shape) -> Shape {
    Shape::Alternatives(vec![
        field("ResumeFrom", Shape::Wrapper(Box::new(Shape::Text))),
        field("_Params", Shape::Record(vec![field("_sys", sp), field("_mc", mp)])),
    ])
}

#[test]
fn deeply_nested_with_underscores_craziness() {
    let p = params(sad_params(), square_well_params());
    let h = auto_args::help::help(&p, "prog");
    println!("help: {}", h);
    println!("\n\n\n\n");
    assert!(h.contains("--resume-from "));
    assert!(h.contains("--well-width "));
    assert!(h.contains("--cell-volume "));
    assert!(h.contains("--cell-width-x "));
    assert!(!h.contains("--dim- "));

    assert_eq!(
        choice(0, Value::Wrapped(Box::new(text("hello")))),
        parse_from(&p, toks(&["--resume-from", "hello"])).unwrap()
    );

    let pn = params(naive_params(), simple_params());
    assert_eq!(
        choice(0, Value::Wrapped(Box::new(text("hello")))),
        parse_from(&pn, toks(&["--resume-from", "hello"])).unwrap()
    );

    assert_eq!(
        choice(
            1,
            Value::Record(vec![
                Value::Record(vec![Value::Unsigned(37)]),
                Value::Record(vec![text("goodbye")]),
            ]),
        ),
        parse_from(&pn, toks(&["--simple", "37", "--naive", "goodbye"])).unwrap()
    );

    let ps = params(sad_params(), simple_params());
    assert_eq!(
        choice(
            1,
            Value::Record(vec![
                Value::Record(vec![Value::Unsigned(137)]),
                Value::Record(vec![
                    Value::Float((0.2f64).to_bits()),
                    Value::Maybe(None),
                ]),
            ]),
        ),
        parse_from(&ps, toks(&["--simple", "137", "--min-T", "0.2"])).unwrap()
    );

    assert_eq!(
        choice(
            1,
            Value::Record(vec![
                Value::Record(vec![
                    Value::Float((1.3f64).to_bits()),
                    choice(1, Value::Wrapped(Box::new(Value::Float((5.0f64).to_bits())))),
                ]),
                Value::Record(vec![
                    Value::Float((0.2f64).to_bits()),
                    Value::Maybe(None),
                ]),
            ]),
        ),
        parse_from(
            &p,
            toks(&["--well-width", "1.3", "--cell-volume", "5", "--min-T", "0.2"])
        )
        .unwrap()
    );
}

fn fieldd_local(name: &str, doc: &str, shape: Shape) -> Field {
    Field { name: name.to_string(), doc: doc.to_string(), shape }
}
