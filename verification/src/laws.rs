//! Laws of the traversal engine, stated over the parse model.

use vstd::prelude::*;
use crate::errors::ErrorV;
use crate::naming::spec_join_prefix;
use crate::naming::spec_variant_to_flag_name;
use crate::parse::FieldsOut;
use crate::parse::ParseOut;
use crate::parse::ext_fields;
use crate::parse::parse_fields;
use crate::parse::parse_repeat;
use crate::parse::parse_variant;
use crate::parse::parse_variants;
use crate::parse::spec_parse;
use crate::parse::spec_parse_from;
use crate::render::field_key;
use crate::render::flag_keys;
use crate::render::keys_fields;
use crate::render::renderable;
use crate::render::unrel;
use crate::scan::TokenOut;
use crate::scan::find_exact;
use crate::scan::find_flag;
use crate::scan::matches_key;
use crate::scan::take_string;
use crate::shape::Field;
use crate::shape::Shape;
use crate::shape::ValueV;

verus! {

broadcast use vstd::std_specs::vec::axiom_vec_index_decreases;

/// Law: the optional wrapper absorbs exactly a missing flag.  Where the
/// inner shape reports its flag missing, the optional parse succeeds with an
/// absent value and consumes nothing; where the inner shape succeeds, the
/// optional parse wraps its value; every other inner failure passes through.
pub proof fn lemma_optional_absorption(inner: Shape, key: Seq<char>, args: Seq<Seq<char>>)
    ensures
        ({
            let r = spec_parse(Shape::Optional(Box::new(inner)), key, args);
            match spec_parse(inner, key, args) {
                ParseOut::Parsed(v, rest) => r == ParseOut::Parsed(
                    ValueV::Maybe(Option::Some(Box::new(v))),
                    rest,
                ),
                ParseOut::Failed(e, p) => if e is MissingOption {
                    r == ParseOut::Parsed(ValueV::Maybe(Option::None), args)
                } else {
                    r == ParseOut::Failed(e, p)
                },
            }
        }),
{
}

/// Law: the repeated wrapper is greedy and never fails on a missing flag.
/// Where the inner shape reports its flag missing, it yields the empty list
/// and consumes nothing; where the inner shape succeeds and consumes, it
/// collects that value in front of whatever a repeated parse of the
/// remainder collects; any other inner failure propagates.
pub proof fn lemma_repeated_greedy(inner: Shape, key: Seq<char>, args: Seq<Seq<char>>)
    ensures
        ({
            let r = spec_parse(Shape::Repeated(Box::new(inner)), key, args);
            match spec_parse(inner, key, args) {
                ParseOut::Failed(e, p) => if e is MissingOption {
                    r == ParseOut::Parsed(ValueV::List(Seq::empty()), args)
                } else {
                    r == ParseOut::Failed(e, p)
                },
                ParseOut::Parsed(v, rest) => rest.len() < args.len() ==> r == (match parse_repeat(
                    inner,
                    key,
                    rest,
                ) {
                    FieldsOut::Done(vs, rest2) => ParseOut::Parsed(
                        ValueV::List(seq![v] + vs),
                        rest2,
                    ),
                    FieldsOut::Stopped(e, p) => ParseOut::Failed(e, args.len() - rest.len() + p),
                }),
            }
        }),
{
    match spec_parse(inner, key, args) {
        ParseOut::Parsed(v, rest) => {
            if rest.len() < args.len() {
                assert(parse_repeat(inner, key, args) == ext_fields(
                    parse_repeat(inner, key, rest),
                    seq![v],
                    args.len() - rest.len(),
                ));
            }
        },
        ParseOut::Failed(e, p) => {
        },
    }
}

/// The prefix at which one variant of an alternatives shape is attempted.
pub open spec fn variant_key(prefix: Seq<char>, v: Field) -> Seq<char> {
    spec_join_prefix(prefix, spec_variant_to_flag_name(v.name@))
}

proof fn lemma_variants_reach(
    vars: Vec<Field>,
    j: int,
    i: int,
    prefix: Seq<char>,
    args: Seq<Seq<char>>,
    best: Option<(ErrorV, int)>,
)
    requires
        0 <= j <= i < vars@.len(),
        forall|k: int|
            j <= k < i ==> (#[trigger] parse_variant(
                vars@[k].shape,
                variant_key(prefix, vars@[k]),
                args,
            )) is Failed,
        parse_variant(vars@[i].shape, variant_key(prefix, vars@[i]), args) is Parsed,
    ensures
        ({
            let r = parse_variant(vars@[i].shape, variant_key(prefix, vars@[i]), args);
            parse_variants(vars, j, prefix, args, best) matches ParseOut::Parsed(cv, rest)
                && r matches ParseOut::Parsed(v, rest2) && cv == ValueV::Choice(i, Box::new(v))
                && rest == rest2
        }),
    decreases i - j,
{
    if j < i {
        assert(parse_variant(vars@[j].shape, variant_key(prefix, vars@[j]), args) is Failed);
        match parse_variant(vars@[j].shape, variant_key(prefix, vars@[j]), args) {
            ParseOut::Failed(e, p) => {
                let nb = match best {
                    Option::None => Option::Some((e, p)),
                    Option::Some(b) => if p >= b.1 {
                        Option::Some((e, p))
                    } else {
                        Option::Some(b)
                    },
                };
                lemma_variants_reach(vars, j + 1, i, prefix, args, nb);
            },
            ParseOut::Parsed(_, _) => {
                assert(false);
            },
        }
    }
}

proof fn lemma_find_flag_is_first(key: Seq<char>, args: Seq<Seq<char>>, i: int)
    requires
        0 <= i < args.len(),
        matches_key(key, args[i]),
        forall|j: int| 0 <= j < i ==> !matches_key(key, #[trigger] args[j]),
    ensures
        find_flag(key, args) == Option::Some(i),
    decreases i,
{
    if i > 0 {
        assert(!matches_key(key, args[0]));
        assert(args.drop_first()[i - 1] == args[i]);
        assert forall|j: int| 0 <= j < i - 1 implies !matches_key(
            key,
            #[trigger] args.drop_first()[j],
        ) by {
            assert(args.drop_first()[j] == args[j + 1]);
        }
        lemma_find_flag_is_first(key, args.drop_first(), i - 1);
    }
}

proof fn lemma_find_exact_is_first(key: Seq<char>, args: Seq<Seq<char>>, i: int)
    requires
        0 <= i < args.len(),
        args[i] == key,
        forall|j: int| 0 <= j < i ==> #[trigger] args[j] != key,
    ensures
        find_exact(key, args) == Option::Some(i),
    decreases i,
{
    if i > 0 {
        assert(args.drop_first()[i - 1] == args[i]);
        assert forall|j: int| 0 <= j < i - 1 implies #[trigger] args.drop_first()[j] != key by {
            assert(args.drop_first()[j] == args[j + 1]);
        }
        lemma_find_exact_is_first(key, args.drop_first(), i - 1);
    }
}

proof fn lemma_find_flag_push(key: Seq<char>, args: Seq<Seq<char>>, t: Seq<char>)
    requires
        !matches_key(key, t),
    ensures
        find_flag(key, args.push(t)) == find_flag(key, args),
{
    crate::scan::lemma_find_flag(key, args);
    crate::scan::lemma_find_flag(key, args.push(t));
    match find_flag(key, args) {
        Option::Some(i) => {
            assert(args.push(t)[i] == args[i]);
            assert forall|j: int| 0 <= j < i implies !matches_key(
                key,
                #[trigger] args.push(t)[j],
            ) by {
                assert(args.push(t)[j] == args[j]);
            }
            lemma_find_flag_is_first(key, args.push(t), i);
        },
        Option::None => {
            match find_flag(key, args.push(t)) {
                Option::Some(i2) => {
                    if i2 < args.len() {
                        assert(args.push(t)[i2] == args[i2]);
                        assert(false);
                    } else {
                        assert(args.push(t)[i2] == t);
                        assert(false);
                    }
                },
                Option::None => {
                },
            }
        },
    }
}

proof fn lemma_find_exact_push(key: Seq<char>, args: Seq<Seq<char>>, t: Seq<char>)
    requires
        t != key,
    ensures
        find_exact(key, args.push(t)) == find_exact(key, args),
{
    crate::scan::lemma_find_exact(key, args);
    crate::scan::lemma_find_exact(key, args.push(t));
    match find_exact(key, args) {
        Option::Some(i) => {
            assert(args.push(t)[i] == args[i]);
            assert forall|j: int| 0 <= j < i implies #[trigger] args.push(t)[j] != key by {
                assert(args.push(t)[j] == args[j]);
            }
            lemma_find_exact_is_first(key, args.push(t), i);
        },
        Option::None => {
            match find_exact(key, args.push(t)) {
                Option::Some(i2) => {
                    if i2 < args.len() {
                        assert(args.push(t)[i2] == args[i2]);
                        assert(false);
                    } else {
                        assert(args.push(t)[i2] == t);
                        assert(false);
                    }
                },
                Option::None => {
                },
            }
        },
    }
}

proof fn lemma_take_string_push(key: Seq<char>, args: Seq<Seq<char>>, t: Seq<char>)
    requires
        key.len() > 0,
        !matches_key(key, t),
    ensures
        ({
            let a = take_string(key, args);
            let b = take_string(key, args.push(t));
            match a {
                TokenOut::Got(v, rest) => b == TokenOut::Got(v, rest.push(t)),
                TokenOut::NoToken(e) => e is MissingOption ==> b == TokenOut::NoToken(e),
            }
        }),
{
    lemma_find_flag_push(key, args, t);
    crate::scan::lemma_find_flag(key, args);
    match find_flag(key, args) {
        Option::Some(i) => {
            assert(args.push(t)[i] == args[i]);
            if args[i] == key {
                if args.len() > i + 1 {
                    assert(args.push(t)[i + 1] == args[i + 1]);
                    assert(args.push(t).remove(i + 1).remove(i) =~= args.remove(i + 1).remove(
                        i,
                    ).push(t));
                } else {
                    // the flag sits last: with the extra token a value appears,
                    // so only missing-flag failures are preserved
                }
            } else {
                assert(args.push(t).remove(i) =~= args.remove(i).push(t));
            }
        },
        Option::None => {
        },
    }
}

/// Appending one token that selects none of a shape's flags never changes a
/// successful parse of that shape, and keeps a missing-flag failure what it
/// was; the extra token simply survives.
pub proof fn lemma_frame(s: Shape, key: Seq<char>, args: Seq<Seq<char>>, t: Seq<char>)
    requires
        renderable(s, key),
        unrel(t, flag_keys(s, key)),
    ensures
        ({
            let a = spec_parse(s, key, args);
            let b = spec_parse(s, key, args.push(t));
            match a {
                ParseOut::Parsed(v, rest) => b == ParseOut::Parsed(v, rest.push(t)),
                ParseOut::Failed(e, p) => e is MissingOption ==> b == ParseOut::Failed(e, p),
            }
        }),
    decreases s, 0int, 0int,
{
    match s {
        Shape::Text | Shape::Path | Shape::Int(_) => {
            assert(set![key].contains(key));
            lemma_take_string_push(key, args, t);
        },
        Shape::Float => {
            assert(false);
        },
        Shape::Flag => {
            assert(set![key].contains(key));
            assert(t != key);
            lemma_find_exact_push(key, args, t);
            crate::scan::lemma_find_exact(key, args);
            match find_exact(key, args) {
                Option::Some(i) => {
                    assert(args.push(t)[i] == args[i]);
                    assert(args.push(t).remove(i) =~= args.remove(i).push(t));
                },
                Option::None => {
                },
            }
        },
        Shape::Marker => {
        },
        Shape::Optional(inner) => {
            lemma_frame(*inner, key, args, t);
        },
        Shape::Wrapper(inner) => {
            lemma_frame(*inner, key, args, t);
        },
        Shape::Repeated(inner) => {
            assert(renderable(*inner, key));
            lemma_repeat_frame(*inner, key, args, t);
        },
        Shape::Record(fields) => {
            lemma_fields_frame(fields, 0, key, args, t);
        },
        Shape::Alternatives(_) => {
            assert(false);
        },
    }
}

proof fn lemma_repeat_frame(inner: Shape, key: Seq<char>, args: Seq<Seq<char>>, t: Seq<char>)
    requires
        renderable(inner, key),
        unrel(t, flag_keys(inner, key)),
    ensures
        ({
            let a = parse_repeat(inner, key, args);
            let b = parse_repeat(inner, key, args.push(t));
            match a {
                FieldsOut::Done(vs, rest) => b == FieldsOut::Done(vs, rest.push(t)),
                FieldsOut::Stopped(e, p) => !(e is MissingOption),
            }
        }),
    decreases inner, args.len(), 1int,
{
    lemma_frame(inner, key, args, t);
    match spec_parse(inner, key, args) {
        ParseOut::Parsed(v, rest) => {
            if rest.len() >= args.len() {
                assert(rest.push(t).len() >= args.push(t).len());
            } else {
                lemma_repeat_frame(inner, key, rest, t);
            }
        },
        ParseOut::Failed(e, p) => {
        },
    }
}

proof fn lemma_fields_frame(
    fields: Vec<Field>,
    i: int,
    prefix: Seq<char>,
    args: Seq<Seq<char>>,
    t: Seq<char>,
)
    requires
        crate::render::fields_renderable(fields, i, prefix),
        unrel(t, keys_fields(fields, i, prefix)),
    ensures
        ({
            let a = parse_fields(fields, i, prefix, args);
            let b = parse_fields(fields, i, prefix, args.push(t));
            match a {
                FieldsOut::Done(vs, rest) => b == FieldsOut::Done(vs, rest.push(t)),
                FieldsOut::Stopped(e, p) => e is MissingOption ==> b == FieldsOut::Stopped(e, p),
            }
        }),
    decreases fields, fields@.len() - i, 1int,
{
    if 0 <= i < fields@.len() {
        let ckey = field_key(prefix, fields@[i]);
        assert forall|k: Seq<char>|
            flag_keys(fields@[i].shape, ckey).contains(k) implies !matches_key(k, t) by {
            assert(keys_fields(fields, i, prefix).contains(k));
        }
        assert forall|k: Seq<char>|
            keys_fields(fields, i + 1, prefix).contains(k) implies !matches_key(k, t) by {
            assert(keys_fields(fields, i, prefix).contains(k));
        }
        lemma_frame(fields@[i].shape, ckey, args, t);
        match spec_parse(fields@[i].shape, ckey, args) {
            ParseOut::Parsed(v, rest) => {
                lemma_fields_frame(fields, i + 1, prefix, rest, t);
                assert(args.push(t).len() - rest.push(t).len() == args.len() - rest.len());
            },
            ParseOut::Failed(e, p) => {
            },
        }
    }
}

/// One variant attempt under an appended unrelated token: success and
/// missing-flag failure are both kept.
proof fn lemma_variant_frame(s: Shape, vkey: Seq<char>, args: Seq<Seq<char>>, t: Seq<char>)
    requires
        renderable(s, vkey),
        unrel(t, flag_keys(s, vkey)),
        !matches_key(vkey, t),
    ensures
        ({
            let a = parse_variant(s, vkey, args);
            let b = parse_variant(s, vkey, args.push(t));
            match a {
                ParseOut::Parsed(v, rest) => b == ParseOut::Parsed(v, rest.push(t)),
                ParseOut::Failed(e, p) => e is MissingOption ==> b == ParseOut::Failed(e, p),
            }
        }),
{
    if crate::shape::spec_requires_input(s) {
        lemma_frame(s, vkey, args, t);
    } else {
        lemma_find_exact_push(vkey, args, t);
        crate::scan::lemma_find_exact(vkey, args);
        match find_exact(vkey, args) {
            Option::None => {
            },
            Option::Some(j) => {
                assert(args.push(t)[j] == args[j]);
                assert(args.push(t).remove(j) =~= args.remove(j).push(t));
                lemma_frame(s, vkey, args.remove(j), t);
            },
        }
    }
}

proof fn lemma_variants_frame(
    vars: Vec<Field>,
    i: int,
    prefix: Seq<char>,
    args: Seq<Seq<char>>,
    t: Seq<char>,
    b1: Option<(ErrorV, int)>,
    b2: Option<(ErrorV, int)>,
)
    requires
        0 <= i <= vars@.len(),
        forall|j: int|
            i <= j < vars@.len() ==> renderable(
                #[trigger] vars@[j].shape,
                variant_key(prefix, vars@[j]),
            ) && unrel(t, flag_keys(vars@[j].shape, variant_key(prefix, vars@[j])))
                && !matches_key(variant_key(prefix, vars@[j]), t),
        forall|j: int|
            i <= j < vars@.len() ==> ((#[trigger] parse_variant(
                vars@[j].shape,
                variant_key(prefix, vars@[j]),
                args,
            )) matches ParseOut::Failed(e, p) ==> e is MissingOption),
        parse_variants(vars, i, prefix, args, b1) is Parsed,
    ensures
        ({
            let a = parse_variants(vars, i, prefix, args, b1);
            let b = parse_variants(vars, i, prefix, args.push(t), b2);
            a matches ParseOut::Parsed(v, rest) ==> b == ParseOut::Parsed(v, rest.push(t))
        }),
    decreases vars@.len() - i,
{
    if i < vars@.len() {
        let vkey = variant_key(prefix, vars@[i]);
        lemma_variant_frame(vars@[i].shape, vkey, args, t);
        match parse_variant(vars@[i].shape, vkey, args) {
            ParseOut::Parsed(v, rest) => {
            },
            ParseOut::Failed(e, p) => {
                let nb1 = match b1 {
                    Option::None => Option::Some((e, p)),
                    Option::Some(b) => if p >= b.1 {
                        Option::Some((e, p))
                    } else {
                        Option::Some(b)
                    },
                };
                let nb2 = match b2 {
                    Option::None => Option::Some((e, p)),
                    Option::Some(b) => if p >= b.1 {
                        Option::Some((e, p))
                    } else {
                        Option::Some(b)
                    },
                };
                lemma_variants_frame(vars, i + 1, prefix, args, t, nb1, nb2);
            },
        }
    }
}

/// The frame law for alternatives: when every variant the parse tried and
/// rejected was rejected for want of its flags, appending a token that
/// selects no variant's flags keeps the committed variant and its value, and
/// the extra token survives to the caller.
pub proof fn lemma_alternatives_frame(
    vars: Vec<Field>,
    prefix: Seq<char>,
    args: Seq<Seq<char>>,
    t: Seq<char>,
)
    requires
        vars@.len() >= 2,
        forall|j: int|
            0 <= j < vars@.len() ==> renderable(
                #[trigger] vars@[j].shape,
                variant_key(prefix, vars@[j]),
            ) && unrel(t, flag_keys(vars@[j].shape, variant_key(prefix, vars@[j])))
                && !matches_key(variant_key(prefix, vars@[j]), t),
        forall|j: int|
            0 <= j < vars@.len() ==> ((#[trigger] parse_variant(
                vars@[j].shape,
                variant_key(prefix, vars@[j]),
                args,
            )) matches ParseOut::Failed(e, p) ==> e is MissingOption),
        spec_parse(Shape::Alternatives(vars), prefix, args) is Parsed,
    ensures
        ({
            let a = spec_parse(Shape::Alternatives(vars), prefix, args);
            let b = spec_parse(Shape::Alternatives(vars), prefix, args.push(t));
            a matches ParseOut::Parsed(v, rest) ==> b == ParseOut::Parsed(v, rest.push(t))
        }),
{
    lemma_variants_frame(vars, 0, prefix, args, t, Option::None, Option::None);
}

/// Law of the drained parse: appending a token that selects none of the
/// shape's flags to an input that parsed completely leaves the value intact
/// and is reported as the one unexpected token at the top level, never as a
/// failure inside the nested parse.
pub proof fn lemma_unrelated_token_rejected(s: Shape, args: Seq<Seq<char>>, t: Seq<char>)
    requires
        renderable(s, Seq::empty()),
        unrel(t, flag_keys(s, Seq::empty())),
        spec_parse_from(s, args) is Ok,
    ensures
        spec_parse_from(s, args.push(t)) == Result::<ValueV, ErrorV>::Err(
            ErrorV::UnexpectedOption(seq![t]),
        ),
{
    lemma_frame(s, Seq::empty(), args, t);
    match spec_parse(s, Seq::empty(), args) {
        ParseOut::Parsed(v, rest) => {
            assert(rest.len() == 0);
            assert(rest.push(t) =~= seq![t]);
        },
        ParseOut::Failed(e, p) => {
            assert(false);
        },
    }
}

/// Law: the first variant that fully parses wins.  For a shape with two or
/// more alternatives, when every variant before `i` fails its attempt and
/// variant `i` parses, the whole alternatives parse commits variant `i`,
/// whatever the variants after it would have done.
pub proof fn lemma_first_variant_wins(
    vars: Vec<Field>,
    i: int,
    prefix: Seq<char>,
    args: Seq<Seq<char>>,
)
    requires
        vars@.len() >= 2,
        0 <= i < vars@.len(),
        forall|k: int|
            0 <= k < i ==> (#[trigger] parse_variant(
                vars@[k].shape,
                variant_key(prefix, vars@[k]),
                args,
            )) is Failed,
        parse_variant(vars@[i].shape, variant_key(prefix, vars@[i]), args) is Parsed,
    ensures
        ({
            let r = parse_variant(vars@[i].shape, variant_key(prefix, vars@[i]), args);
            spec_parse(Shape::Alternatives(vars), prefix, args) matches ParseOut::Parsed(cv, rest)
                && r matches ParseOut::Parsed(v, rest2) && cv == ValueV::Choice(i, Box::new(v))
                && rest == rest2
        }),
{
    lemma_variants_reach(vars, 0, i, prefix, args, Option::None);
}

} // verus!
