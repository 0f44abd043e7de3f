use auto_args::errors::Error;
use auto_args::errors::error_message;
use auto_args::help::tiny_help;
use auto_args::help::usage;
use auto_args::join_prefix;
use auto_args::parse::contains_help;
use auto_args::parse::parse_from;
use auto_args::parse::parse_internal;
use auto_args::render::render_tokens;
use auto_args::shape::Field;
use auto_args::shape::IntKind;
use auto_args::shape::Shape;
use auto_args::shape::Value;
use auto_args::to_flag_name;
use auto_args::variant_to_flag_name;

fn toks(xs: &[&str]) -> Vec<String> {
    xs.iter().map(|s| s.to_string()).collect()
}

fn field(name: &str, shape: Shape) -> Field {
    Field { name: name.to_string(), doc: String::new(), shape }
}

fn text(s: &str) -> Value {
    Value::Text(s.to_string())
}

fn choice(i: usize, v: Value) -> Value {
    Value::Choice(i, Box::new(v))
}

#[test]
fn naming_rules() {
    assert_eq!(to_flag_name("min_T"), "min-T");
    assert_eq!(variant_to_flag_name("CellWidth"), "cell-width");
    assert_eq!(to_flag_name("_report"), "");
    assert_eq!(to_flag_name("this_is_awesome"), "this-is-awesome");
    assert_eq!(to_flag_name("foo_"), "foo");
    assert_eq!(variant_to_flag_name("First_World"), "First-World");
    assert_eq!(variant_to_flag_name("T_"), "T");
    assert_eq!(variant_to_flag_name("_Goodbye"), "");
    assert_eq!(join_prefix("", "foo"), "--foo");
    assert_eq!(join_prefix("--sub", "a"), "--sub-a");
    assert_eq!(join_prefix("--sub", ""), "--sub");
    assert_eq!(join_prefix("", ""), "");
    assert_eq!(join_prefix("--", "x"), "--x");
    assert_eq!(join_prefix("--sub-", "a"), "--sub-a");
}

#[test]
fn flattened_field_uses_parent_prefix() {
    // A field named `_report` nested one level produces flags at the
    // parent's own prefix: no `-report-` segment appears.
    let report = Shape::Record(vec![field("max_iter", Shape::Optional(Box::new(Shape::Int(
        IntKind::U64,
    ))))]);
    let shape = Shape::Record(vec![field("foo", Shape::Text), field("_report", report)]);
    assert_eq!(
        Value::Record(vec![
            text("x"),
            Value::Record(vec![Value::Maybe(Some(Box::new(Value::Unsigned(3))))]),
        ]),
        parse_from(&shape, toks(&["--foo=x", "--max-iter", "3"])).unwrap()
    );
    let h = auto_args::help::help(&shape, "prog");
    assert!(h.contains("--max-iter"));
    assert!(!h.contains("report"));
}

#[test]
fn optional_absorption() {
    let shape = Shape::Optional(Box::new(Shape::Int(IntKind::U32)));
    let mut empty: Vec<String> = Vec::new();
    assert_eq!(parse_internal(&shape, "--x", &mut empty).unwrap(), Value::Maybe(None));
    let mut args = toks(&["--x", "5"]);
    assert_eq!(
        parse_internal(&shape, "--x", &mut args).unwrap(),
        Value::Maybe(Some(Box::new(Value::Unsigned(5))))
    );
    assert_eq!(args.len(), 0);
}

#[test]
fn optional_propagates_other_failures() {
    // A present flag with a malformed value is not absorbed into "absent".
    let shape = Shape::Optional(Box::new(Shape::Int(IntKind::U32)));
    let mut args = toks(&["--x", "zebra"]);
    assert!(parse_internal(&shape, "--x", &mut args).is_err());
    assert_eq!(args, toks(&["--x", "zebra"]));
}

#[test]
fn repeated_greediness() {
    let shape = Shape::Repeated(Box::new(Shape::Text));
    let mut args = toks(&["--hello", "a", "--hello", "b", "--hello", "c"]);
    assert_eq!(
        parse_internal(&shape, "--hello", &mut args).unwrap(),
        Value::List(vec![text("a"), text("b"), text("c")])
    );
    assert_eq!(args.len(), 0);

    let mut empty: Vec<String> = Vec::new();
    assert_eq!(parse_internal(&shape, "--hello", &mut empty).unwrap(), Value::List(vec![]));
}

fn left_right() -> Shape {
    Shape::Alternatives(vec![
        field("Left", Shape::Wrapper(Box::new(Shape::Int(IntKind::U8)))),
        field("Right", Shape::Wrapper(Box::new(Shape::Int(IntKind::U16)))),
    ])
}

#[test]
fn alternatives_exclusivity() {
    // Selecting --left yields Left and never attempts Right.
    assert_eq!(
        choice(0, Value::Wrapped(Box::new(Value::Unsigned(37)))),
        parse_from(&left_right(), toks(&["--left", "37"])).unwrap()
    );
    // Selecting both flags still commits the first variant that fully
    // parses; the leftover tokens are then unexpected at the top level.
    let r = parse_from(&left_right(), toks(&["--left", "37", "--right", "22"]));
    assert_eq!(r, Err(Error::UnexpectedOption(toks(&["--right", "22"]))));
}

#[test]
fn scenario_record_at_root() {
    // Shape Record{foo: String} at the root, input ["--foo=bar"].
    let shape = Shape::Record(vec![field("foo", Shape::Text)]);
    let mut args = toks(&["--foo=bar"]);
    assert_eq!(
        parse_internal(&shape, "", &mut args).unwrap(),
        Value::Record(vec![text("bar")])
    );
    assert_eq!(args.len(), 0);
}

#[test]
fn scenario_marker_against_record() {
    // Shape Alternatives{CaseOne: Marker, CaseTwo(Record{foo: String})},
    // input ["--foo=foo"]: CaseOne's presence flag is absent, so CaseTwo's
    // field-level flag decides.
    let shape = Shape::Alternatives(vec![
        field("CaseOne", Shape::Marker),
        field("_CaseTwo", Shape::Wrapper(Box::new(Shape::Record(vec![field(
            "foo",
            Shape::Text,
        )])))),
    ]);
    assert_eq!(
        choice(1, Value::Wrapped(Box::new(Value::Record(vec![text("foo")])))),
        parse_from(&shape, toks(&["--foo=foo"])).unwrap()
    );
    let shape2 = Shape::Alternatives(vec![
        field("CaseOne", Shape::Marker),
        field("CaseTwo", Shape::Wrapper(Box::new(Shape::Record(vec![field(
            "foo",
            Shape::Text,
        )])))),
    ]);
    assert_eq!(
        choice(1, Value::Wrapped(Box::new(Value::Record(vec![text("foo")])))),
        parse_from(&shape2, toks(&["--case-two-foo=foo"])).unwrap()
    );
    assert_eq!(choice(0, Value::Unit), parse_from(&shape2, toks(&["--case-one"])).unwrap());
}

#[test]
fn scenario_record_at_prefix() {
    // Shape Record{a: String, b: String} at prefix --sub.
    let shape = Shape::Record(vec![field("a", Shape::Text), field("b", Shape::Text)]);
    let mut args = toks(&["--sub-a=foo", "--sub-b", "bar"]);
    assert_eq!(
        parse_internal(&shape, "--sub", &mut args).unwrap(),
        Value::Record(vec![text("foo"), text("bar")])
    );
    assert_eq!(args.len(), 0);
}

#[test]
fn round_trip_record() {
    // Rendering a value under its natural flags and parsing it back yields
    // the value, with every token consumed.
    let shape = Shape::Record(vec![
        field("name", Shape::Text),
        field("count", Shape::Int(IntKind::U32)),
        field("verbose", Shape::Flag),
        field("limit", Shape::Optional(Box::new(Shape::Int(IntKind::I64)))),
        field("tag", Shape::Repeated(Box::new(Shape::Text))),
    ]);
    let expected = Value::Record(vec![
        text("luthien"),
        Value::Unsigned(42),
        Value::Flag(true),
        Value::Maybe(Some(Box::new(Value::Signed(-7)))),
        Value::List(vec![text("a"), text("b")]),
    ]);
    let rendered = render_tokens(&shape, "", &expected);
    assert_eq!(
        rendered,
        toks(&["--name=luthien", "--count=42", "--verbose", "--limit=-7", "--tag=a", "--tag=b"])
    );
    assert_eq!(expected, parse_from(&shape, rendered).unwrap());

    // Absent members render to nothing and parse back as absent.
    let expected2 = Value::Record(vec![
        text("beren"),
        Value::Unsigned(1),
        Value::Flag(false),
        Value::Maybe(None),
        Value::List(vec![]),
    ]);
    let rendered2 = render_tokens(&shape, "", &expected2);
    assert_eq!(rendered2, toks(&["--name=beren", "--count=1"]));
    assert_eq!(expected2, parse_from(&shape, rendered2).unwrap());

    // Even a value that looks like a flag survives the trip, since flag
    // leaves attach their value with `=`.
    let expected3 = Value::Record(vec![
        text("--count"),
        Value::Unsigned(2),
        Value::Flag(false),
        Value::Maybe(None),
        Value::List(vec![]),
    ]);
    let rendered3 = render_tokens(&shape, "", &expected3);
    assert_eq!(rendered3, toks(&["--name=--count", "--count=2"]));
    assert_eq!(expected3, parse_from(&shape, rendered3).unwrap());

    // Nested records and markers round-trip the same way.
    let nested = Shape::Record(vec![
        field("sub", Shape::Record(vec![field("a", Shape::Text), field("b", Shape::Marker)])),
        field("top", Shape::Int(IntKind::I8)),
    ]);
    let val = Value::Record(vec![
        Value::Record(vec![text("x"), Value::Unit]),
        Value::Signed(-128),
    ]);
    let r = render_tokens(&nested, "", &val);
    assert_eq!(r, toks(&["--sub-a=x", "--top=-128"]));
    assert_eq!(val, parse_from(&nested, r).unwrap());
}

#[test]
fn unexpected_token_reported_at_top() {
    // A token unrelated to the shape's flags never disturbs the nested
    // parse; it is reported once, at the top level.
    let shape = Shape::Record(vec![field("foo", Shape::Text)]);
    let r = parse_from(&shape, toks(&["--foo=bar", "--extra"]));
    assert_eq!(r, Err(Error::UnexpectedOption(toks(&["--extra"]))));
}

#[test]
fn positional_escape_token() {
    // A literal -- makes the following token positional.
    let mut args = toks(&["--", "--weird"]);
    assert_eq!(parse_internal(&Shape::Text, "", &mut args).unwrap(), text("--weird"));
    assert_eq!(args, toks(&["--"]));
}

#[test]
fn integer_edges() {
    assert_eq!(
        Value::Unsigned(255),
        parse_from(&Shape::Int(IntKind::U8), toks(&["255"])).unwrap()
    );
    assert!(parse_from(&Shape::Int(IntKind::U8), toks(&["300"])).is_err());
    assert_eq!(
        Value::Unsigned(18446744073709551615),
        parse_from(&Shape::Int(IntKind::U64), toks(&["18446744073709551615"])).unwrap()
    );
    assert_eq!(
        Value::Signed(i64::MIN),
        parse_from(&Shape::Int(IntKind::I64), toks(&["-9223372036854775808"])).unwrap()
    );
    assert_eq!(
        Value::Unsigned(1024),
        parse_from(&Shape::Int(IntKind::U32), toks(&["2^10"])).unwrap()
    );
    assert_eq!(Value::Unsigned(5), parse_from(&Shape::Int(IntKind::U32), toks(&["+5"])).unwrap());
    assert!(parse_from(&Shape::Int(IntKind::U32), toks(&["7.5"])).is_err());
    assert!(parse_from(&Shape::Int(IntKind::U32), toks(&["-5"])).is_err());
    assert_eq!(
        Value::Signed(-32768),
        parse_from(&Shape::Int(IntKind::I16), toks(&["-32768"])).unwrap()
    );
    assert!(parse_from(&Shape::Int(IntKind::I16), toks(&["32768"])).is_err());
}

#[test]
fn bool_positional() {
    assert_eq!(Value::Flag(true), parse_from(&Shape::Flag, toks(&["true"])).unwrap());
    assert_eq!(Value::Flag(false), parse_from(&Shape::Flag, toks(&["false"])).unwrap());
    assert!(parse_from(&Shape::Flag, toks(&["maybe"])).is_err());
    assert!(parse_from(&Shape::Flag, toks(&[])).is_err());
}

#[test]
fn error_messages() {
    assert_eq!(
        error_message(&Error::MissingOption("--x".to_string())),
        "the required '--x' option is missing"
    );
    assert_eq!(
        error_message(&Error::OptionWithoutAValue("--x".to_string())),
        "the option '--x' is missing a value"
    );
    assert_eq!(
        error_message(&Error::OptionValueParsingFailed("--x".to_string(), "bad".to_string())),
        "error parsing option '--x': bad"
    );
    assert_eq!(
        error_message(&Error::InvalidUTF8("oops".to_string())),
        "invalid UTF-8: 'oops'"
    );
    assert_eq!(
        error_message(&Error::UnexpectedOption(toks(&["--a", "--b"]))),
        "unexpected option: --a --b"
    );
}

#[test]
fn help_token_detection() {
    assert!(contains_help(&toks(&["--foo", "--help"])));
    assert!(!contains_help(&toks(&["--foo", "--helpo"])));
    assert!(!contains_help(&toks(&[])));
}

#[test]
fn usage_format() {
    let shape = Shape::Record(vec![field("foo", Shape::Text)]);
    assert_eq!(
        usage(&shape, "prog"),
        "USAGE:\n    prog  --foo STRING\n\nFor more information try --help"
    );
    assert_eq!(tiny_help(&shape, ""), " --foo STRING");
}

#[test]
fn float_conversion_failure() {
    let r = parse_from(&Shape::Float, toks(&["zebra"]));
    assert!(matches!(r, Err(Error::OptionValueParsingFailed(_, _))));
}

#[test]
fn blank_tokens_are_errors() {
    // A value token of nothing but whitespace is rejected as a conversion
    // failure, for floats and for the integer expression fallback alike.
    for bad in [" ", "\t", "\n", "\r", "   ", ""] {
        let r = parse_from(&Shape::Float, toks(&[bad]));
        assert!(matches!(r, Err(Error::OptionValueParsingFailed(_, _))));
        let r = parse_from(&Shape::Int(IntKind::U32), toks(&[bad]));
        assert!(matches!(r, Err(Error::OptionValueParsingFailed(_, _))));
    }
    let shape = Shape::Record(vec![field("x", Shape::Float)]);
    let r = parse_from(&shape, toks(&["--x="]));
    assert!(matches!(r, Err(Error::OptionValueParsingFailed(_, _))));
    let r = parse_from(&shape, toks(&["--x", " "]));
    assert!(matches!(r, Err(Error::OptionValueParsingFailed(_, _))));
}

#[test]
fn bool_placeholder() {
    // A boolean leaf shows the same placeholder as text.
    assert_eq!(tiny_help(&Shape::Flag, "--q"), "--q STRING");
    assert_eq!(tiny_help(&Shape::Flag, ""), "STRING");
}
