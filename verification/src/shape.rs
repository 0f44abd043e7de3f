//! The shape descriptors handed to the engine, and the values it produces.

use vstd::prelude::*;

verus! {

broadcast use vstd::std_specs::vec::axiom_vec_index_decreases;

/// The width and signedness of an integer leaf.
#[derive(Clone, Copy, Debug, PartialEq, Eq, Structural)]
pub enum IntKind {
    U8,
    U16,
    U32,
    U64,
    Usize,
    I8,
    I16,
    I32,
    I64,
    Isize,
}

/// One named member of a record or one variant of an alternatives shape:
/// its identifier, its documentation text, and the shape of its contents.
#[derive(Debug)]
pub struct Field {
    pub name: String,
    pub doc: String,
    pub shape: Shape,
}

/// An immutable description of a parseable structure.
#[derive(Debug)]
pub enum Shape {
    /// Free-form text.
    Text,
    /// A filesystem path, kept as text.
    Path,
    /// A boolean flag: with a flag name, presence alone makes it true.
    Flag,
    /// A floating-point number, held by its bit pattern.
    Float,
    /// An integer of the given width.
    Int(IntKind),
    /// A value that may be absent.
    Optional(Box<Shape>),
    /// Zero or more occurrences under the same flag.
    Repeated(Box<Shape>),
    /// A zero-information shape, carrying no data.
    Marker,
    /// A single-member wrapper that adds no name segment of its own.
    Wrapper(Box<Shape>),
    /// A product of named fields, each parsed in declaration order.
    Record(Vec<Field>),
    /// A closed set of variants, of which exactly one must parse.
    Alternatives(Vec<Field>),
}

/// A parsed value, mirroring the shape that produced it.
#[derive(Debug)]
pub enum Value {
    Text(String),
    Path(String),
    Flag(bool),
    /// A float, by its bit pattern.
    Float(u64),
    Unsigned(u64),
    Signed(i64),
    Maybe(Option<Box<Value>>),
    List(Vec<Value>),
    Record(Vec<Value>),
    Wrapped(Box<Value>),
    Unit,
    Choice(usize, Box<Value>),
}

/// The mathematical counterpart of [`Value`], over character sequences.
pub enum ValueV {
    Text(Seq<char>),
    Path(Seq<char>),
    Flag(bool),
    Float(u64),
    Unsigned(u64),
    Signed(i64),
    Maybe(Option<Box<ValueV>>),
    List(Seq<ValueV>),
    Record(Seq<ValueV>),
    Wrapped(Box<ValueV>),
    Unit,
    Choice(int, Box<ValueV>),
}

pub open spec fn view_value(v: Value) -> ValueV
    decreases v, 0int,
{
    match v {
        Value::Text(s) => ValueV::Text(s@),
        Value::Path(s) => ValueV::Path(s@),
        Value::Flag(b) => ValueV::Flag(b),
        Value::Float(bits) => ValueV::Float(bits),
        Value::Unsigned(n) => ValueV::Unsigned(n),
        Value::Signed(n) => ValueV::Signed(n),
        Value::Maybe(o) => ValueV::Maybe(
            match o {
                Option::None => Option::None,
                Option::Some(b) => Option::Some(Box::new(view_value(*b))),
            },
        ),
        Value::List(vs) => ValueV::List(view_values(vs, 0)),
        Value::Record(vs) => ValueV::Record(view_values(vs, 0)),
        Value::Wrapped(b) => ValueV::Wrapped(Box::new(view_value(*b))),
        Value::Unit => ValueV::Unit,
        Value::Choice(i, b) => ValueV::Choice(i as int, Box::new(view_value(*b))),
    }
}

pub open spec fn view_values(vs: Vec<Value>, i: int) -> Seq<ValueV>
    decreases vs, vs@.len() - i,
{
    if i < 0 || i >= vs@.len() {
        Seq::empty()
    } else {
        seq![view_value(vs@[i])] + view_values(vs, i + 1)
    }
}

impl View for Value {
    type V = ValueV;

    open spec fn view(&self) -> ValueV {
        view_value(*self)
    }
}

/// The members of a value list, seen one by one.
pub proof fn lemma_view_values(vs: Vec<Value>, i: int)
    requires
        0 <= i <= vs@.len(),
    ensures
        view_values(vs, i).len() == vs@.len() - i,
        forall|j: int|
            0 <= j < vs@.len() - i ==> #[trigger] view_values(vs, i)[j] == view_value(vs@[i + j]),
    decreases vs@.len() - i,
{
    if i < vs@.len() {
        lemma_view_values(vs, i + 1);
        assert forall|j: int| 0 <= j < vs@.len() - i implies #[trigger] view_values(vs, i)[j]
            == view_value(vs@[i + j]) by {
            if j > 0 {
                assert(view_values(vs, i)[j] == view_values(vs, i + 1)[j - 1]);
            }
        }
    }
}

fn value_eq(a: &Value, b: &Value) -> (r: bool)
    ensures
        r == (view_value(*a) == view_value(*b)),
    decreases *a, 0int,
{
    match (a, b) {
        (Value::Text(x), Value::Text(y)) => x.eq(y),
        (Value::Path(x), Value::Path(y)) => x.eq(y),
        (Value::Flag(x), Value::Flag(y)) => x == y,
        (Value::Float(x), Value::Float(y)) => x == y,
        (Value::Unsigned(x), Value::Unsigned(y)) => x == y,
        (Value::Signed(x), Value::Signed(y)) => x == y,
        (Value::Maybe(x), Value::Maybe(y)) => match (x, y) {
            (Option::None, Option::None) => true,
            (Option::Some(xv), Option::Some(yv)) => value_eq(xv, yv),
            _ => false,
        },
        (Value::List(xs), Value::List(ys)) => values_eq(xs, ys),
        (Value::Record(xs), Value::Record(ys)) => values_eq(xs, ys),
        (Value::Wrapped(x), Value::Wrapped(y)) => value_eq(x, y),
        (Value::Unit, Value::Unit) => true,
        (Value::Choice(i, x), Value::Choice(j, y)) => i == j && value_eq(x, y),
        _ => false,
    }
}

#[verifier::loop_isolation(false)]
fn values_eq(a: &Vec<Value>, b: &Vec<Value>) -> (r: bool)
    ensures
        r == (view_values(*a, 0) == view_values(*b, 0)),
    decreases *a, 1int,
{
    proof {
        lemma_view_values(*a, 0);
        lemma_view_values(*b, 0);
    }
    if a.len() != b.len() {
        return false;
    }
    let n = a.len();
    let mut i: usize = 0;
    while i < n
        invariant
            i <= n,
            n == a@.len() == b@.len(),
            forall|j: int| 0 <= j < i ==> view_value(a@[j]) == view_value(b@[j]),
        decreases n - i,
    {
        if !value_eq(&a[i], &b[i]) {
            assert(view_values(*a, 0)[i as int] != view_values(*b, 0)[i as int]);
            return false;
        }
        i = i + 1;
    }
    proof {
        assert(view_values(*a, 0) =~= view_values(*b, 0));
    }
    true
}

impl PartialEq for Value {
    fn eq(&self, other: &Value) -> (r: bool)
        ensures
            r == (self@ == other@),
    {
        value_eq(self, other)
    }
}

impl Eq for Value {

}

impl vstd::std_specs::cmp::PartialEqSpecImpl for Value {
    open spec fn obeys_eq_spec() -> bool {
        true
    }

    open spec fn eq_spec(&self, other: &Value) -> bool {
        self@ == other@
    }
}

/// Whether a shape can only succeed by consuming input: true for text,
/// paths and numbers; false for flags, markers and the optional and repeated
/// wrappers; a record requires input when any of its fields does.
pub open spec fn spec_requires_input(s: Shape) -> bool
    decreases s, 0int,
{
    match s {
        Shape::Text => true,
        Shape::Path => true,
        Shape::Flag => false,
        Shape::Float => true,
        Shape::Int(_) => true,
        Shape::Optional(_) => false,
        Shape::Repeated(_) => false,
        Shape::Marker => false,
        Shape::Wrapper(inner) => spec_requires_input(*inner),
        Shape::Record(fields) => any_field_requires(fields, 0),
        Shape::Alternatives(_) => true,
    }
}

pub open spec fn any_field_requires(fields: Vec<Field>, i: int) -> bool
    decreases fields, fields@.len() - i,
{
    if i < 0 || i >= fields@.len() {
        false
    } else {
        spec_requires_input(fields@[i].shape) || any_field_requires(fields, i + 1)
    }
}

/// Whether this shape requires input to parse successfully.
#[verifier::loop_isolation(false)]
pub fn requires_input(s: &Shape) -> (r: bool)
    ensures
        r == spec_requires_input(*s),
    decreases *s,
{
    match s {
        Shape::Text => true,
        Shape::Path => true,
        Shape::Flag => false,
        Shape::Float => true,
        Shape::Int(_) => true,
        Shape::Optional(_) => false,
        Shape::Repeated(_) => false,
        Shape::Marker => false,
        Shape::Wrapper(inner) => requires_input(inner),
        Shape::Record(fields) => {
            let n = fields.len();
            let mut i: usize = 0;
            let mut found = false;
            while i < n
                invariant
                    i <= n,
                    n == fields@.len(),
                    any_field_requires(*fields, 0) == any_field_requires(*fields, i as int),
                decreases n - i,
            {
                if requires_input(&fields[i].shape) {
                    assert(any_field_requires(*fields, i as int));
                    return true;
                }
                assert(any_field_requires(*fields, i as int) == any_field_requires(
                    *fields,
                    i + 1,
                ));
                i = i + 1;
            }
            false
        },
        Shape::Alternatives(_) => true,
    }
}

} // verus!
