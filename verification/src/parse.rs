//! The traversal engine: parsing a token list against a shape descriptor.

use vstd::prelude::*;
use vstd::string::StrSliceExecFns;
use crate::errors::Error;
use crate::errors::ErrorV;
use crate::naming::join_prefix;
use crate::naming::spec_join_prefix;
use crate::naming::spec_to_flag_name;
use crate::naming::spec_variant_to_flag_name;
use crate::naming::to_flag_name;
use crate::naming::variant_to_flag_name;
use crate::num::convert_float;
use crate::num::convert_int;
use crate::num::float_token_value;
use crate::num::int_token_value;
use crate::scan::find_exact;
use crate::scan::lemma_find_exact;
use crate::scan::lemma_deep_remove;
use crate::scan::take_string;
use crate::scan::take_string_exec;
use crate::scan::TokenOut;
use crate::shape::Field;
use crate::shape::Shape;
use crate::shape::Value;
use crate::shape::ValueV;
use crate::shape::lemma_view_values;
use crate::shape::view_value;
use crate::shape::requires_input;
use crate::shape::spec_requires_input;
use crate::shape::view_values;
use crate::strutil::clone_tokens;
use crate::strutil::str_eq_str;
use crate::strutil::str_to_string;

verus! {

broadcast use vstd::std_specs::vec::axiom_vec_index_decreases;

/// A parse outcome: a value with the tokens that remain, or an error with
/// the number of tokens the failed attempt had consumed (used by the
/// alternatives tie-break to report the deepest failure).
pub enum ParseOut {
    Parsed(ValueV, Seq<Seq<char>>),
    Failed(ErrorV, int),
}

/// The outcome of a run of sub-parses: the values parsed so far with the
/// remaining tokens, or the error that stopped the run.
pub enum FieldsOut {
    Done(Seq<ValueV>, Seq<Seq<char>>),
    Stopped(ErrorV, int),
}

/// Prepends already-parsed values and already-consumed tokens to a run's
/// outcome.
pub open spec fn ext_fields(out: FieldsOut, pre: Seq<ValueV>, consumed: int) -> FieldsOut {
    match out {
        FieldsOut::Done(vs, rest) => FieldsOut::Done(pre + vs, rest),
        FieldsOut::Stopped(e, p) => FieldsOut::Stopped(e, consumed + p),
    }
}

/// What parsing a shape at a flag name does to the argument list.
pub open spec fn spec_parse(s: Shape, key: Seq<char>, args: Seq<Seq<char>>) -> ParseOut
    decreases s, args.len(), 0int,
{
    match s {
        Shape::Text => match take_string(key, args) {
            TokenOut::Got(t, rest) => ParseOut::Parsed(ValueV::Text(t), rest),
            TokenOut::NoToken(e) => ParseOut::Failed(e, 0),
        },
        Shape::Path => match take_string(key, args) {
            TokenOut::Got(t, rest) => ParseOut::Parsed(ValueV::Path(t), rest),
            TokenOut::NoToken(e) => ParseOut::Failed(e, 0),
        },
        Shape::Int(k) => match take_string(key, args) {
            TokenOut::Got(t, rest) => match int_token_value(k, t) {
                Result::Ok(v) => ParseOut::Parsed(v, rest),
                Result::Err(m) => ParseOut::Failed(ErrorV::OptionValueParsingFailed(key, m), 0),
            },
            TokenOut::NoToken(e) => ParseOut::Failed(e, 0),
        },
        Shape::Float => match take_string(key, args) {
            TokenOut::Got(t, rest) => match float_token_value(t) {
                Result::Ok(bits) => ParseOut::Parsed(ValueV::Float(bits), rest),
                Result::Err(m) => ParseOut::Failed(ErrorV::OptionValueParsingFailed(key, m), 0),
            },
            TokenOut::NoToken(e) => ParseOut::Failed(e, 0),
        },
        Shape::Flag => if key.len() == 0 {
            if args.len() == 0 {
                ParseOut::Failed(ErrorV::OptionWithoutAValue(Seq::empty()), 0)
            } else if args[0] == "--"@ {
                ParseOut::Failed(ErrorV::OptionWithoutAValue("bool"@), 0)
            } else if args[0] == "true"@ {
                ParseOut::Parsed(ValueV::Flag(true), args.drop_first())
            } else if args[0] == "false"@ {
                ParseOut::Parsed(ValueV::Flag(false), args.drop_first())
            } else {
                ParseOut::Failed(ErrorV::MissingOption("bool"@), 0)
            }
        } else {
            match find_exact(key, args) {
                Option::Some(i) => ParseOut::Parsed(ValueV::Flag(true), args.remove(i)),
                Option::None => ParseOut::Parsed(ValueV::Flag(false), args),
            }
        },
        Shape::Marker => ParseOut::Parsed(ValueV::Unit, args),
        Shape::Optional(inner) => match spec_parse(*inner, key, args) {
            ParseOut::Parsed(v, rest) => ParseOut::Parsed(
                ValueV::Maybe(Option::Some(Box::new(v))),
                rest,
            ),
            ParseOut::Failed(e, p) => match e {
                ErrorV::MissingOption(_) => ParseOut::Parsed(ValueV::Maybe(Option::None), args),
                _ => ParseOut::Failed(e, p),
            },
        },
        Shape::Repeated(inner) => match parse_repeat(*inner, key, args) {
            FieldsOut::Done(vs, rest) => ParseOut::Parsed(ValueV::List(vs), rest),
            FieldsOut::Stopped(e, p) => ParseOut::Failed(e, p),
        },
        Shape::Wrapper(inner) => match spec_parse(*inner, key, args) {
            ParseOut::Parsed(v, rest) => ParseOut::Parsed(ValueV::Wrapped(Box::new(v)), rest),
            ParseOut::Failed(e, p) => ParseOut::Failed(e, p),
        },
        Shape::Record(fields) => match parse_fields(fields, 0, key, args) {
            FieldsOut::Done(vs, rest) => ParseOut::Parsed(ValueV::Record(vs), rest),
            FieldsOut::Stopped(e, p) => ParseOut::Failed(e, p),
        },
        Shape::Alternatives(vars) => if vars@.len() == 1 {
            let vkey = spec_join_prefix(key, spec_variant_to_flag_name(vars@[0].name@));
            match spec_parse(vars@[0].shape, vkey, args) {
                ParseOut::Parsed(v, rest) => ParseOut::Parsed(
                    ValueV::Choice(0, Box::new(v)),
                    rest,
                ),
                ParseOut::Failed(e, p) => ParseOut::Failed(e, p),
            }
        } else {
            parse_variants(vars, 0, key, args, Option::None)
        },
    }
}

/// Parses the fields of a record from `i` on, each at its own flag name
/// joined onto the record's prefix, in declaration order.
pub open spec fn parse_fields(
    fields: Vec<Field>,
    i: int,
    prefix: Seq<char>,
    args: Seq<Seq<char>>,
) -> FieldsOut
    decreases fields, fields@.len() - i, 1int,
{
    if i < 0 || i >= fields@.len() {
        FieldsOut::Done(Seq::empty(), args)
    } else {
        let ckey = spec_join_prefix(prefix, spec_to_flag_name(fields@[i].name@));
        match spec_parse(fields@[i].shape, ckey, args) {
            ParseOut::Failed(e, p) => FieldsOut::Stopped(e, p),
            ParseOut::Parsed(v, rest) => ext_fields(
                parse_fields(fields, i + 1, prefix, rest),
                seq![v],
                args.len() - rest.len(),
            ),
        }
    }
}

/// Parses occurrences of `inner` under one flag name until the flag is
/// reported missing, collecting the values in argument order.
pub open spec fn parse_repeat(inner: Shape, key: Seq<char>, args: Seq<Seq<char>>) -> FieldsOut
    decreases inner, args.len(), 1int,
{
    match spec_parse(inner, key, args) {
        ParseOut::Failed(e, p) => match e {
            ErrorV::MissingOption(_) => FieldsOut::Done(Seq::empty(), args),
            _ => FieldsOut::Stopped(e, p),
        },
        ParseOut::Parsed(v, rest) => if rest.len() >= args.len() {
            FieldsOut::Done(seq![v], rest)
        } else {
            ext_fields(parse_repeat(inner, key, rest), seq![v], args.len() - rest.len())
        },
    }
}

/// One variant attempt: a variant none of whose contents require input must
/// first show its presence flag, which is consumed; then the variant's shape
/// is parsed at the variant's prefix.
pub open spec fn parse_variant(s: Shape, vkey: Seq<char>, args: Seq<Seq<char>>) -> ParseOut
    decreases s, args.len(), 1int,
{
    if spec_requires_input(s) {
        spec_parse(s, vkey, args)
    } else {
        match find_exact(vkey, args) {
            Option::None => ParseOut::Failed(ErrorV::MissingOption(vkey), 0),
            Option::Some(j) => {
                let gated = if 0 <= j < args.len() {
                    args.remove(j)
                } else {
                    args
                };
                match spec_parse(s, vkey, gated) {
                    ParseOut::Parsed(v, rest) => ParseOut::Parsed(v, rest),
                    ParseOut::Failed(e, p) => ParseOut::Failed(e, p + 1),
                }
            },
        }
    }
}

/// Tries the variants from `i` on, in declaration order, each against a
/// private copy of the argument list.  The first success is committed; when
/// all fail, the error of the attempt that consumed the most tokens is
/// reported, later attempts winning ties.
pub open spec fn parse_variants(
    vars: Vec<Field>,
    i: int,
    prefix: Seq<char>,
    args: Seq<Seq<char>>,
    best: Option<(ErrorV, int)>,
) -> ParseOut
    decreases vars, vars@.len() - i, 2int,
{
    if i < 0 || i >= vars@.len() {
        match best {
            Option::Some(b) => ParseOut::Failed(b.0, b.1),
            Option::None => ParseOut::Failed(ErrorV::MissingOption(prefix), 0),
        }
    } else {
        let vkey = spec_join_prefix(prefix, spec_variant_to_flag_name(vars@[i].name@));
        match parse_variant(vars@[i].shape, vkey, args) {
            ParseOut::Parsed(v, rest) => ParseOut::Parsed(ValueV::Choice(i, Box::new(v)), rest),
            ParseOut::Failed(e, p) => {
                let nb = match best {
                    Option::None => Option::Some((e, p)),
                    Option::Some(b) => if p >= b.1 {
                        Option::Some((e, p))
                    } else {
                        Option::Some(b)
                    },
                };
                parse_variants(vars, i + 1, prefix, args, nb)
            },
        }
    }
}

/// A parse error together with how many tokens the attempt had consumed.
pub struct ErrInfo {
    pub err: Error,
    pub used: usize,
}

/// The position of the first token equal to `key`, executably.
fn find_exact_exec(key: &str, args: &Vec<String>) -> (r: Option<usize>)
    ensures
        match r {
            Option::Some(i) => i < args@.len() && find_exact(key@, args.deep_view())
                == Option::Some(i as int),
            Option::None => find_exact(key@, args.deep_view()) is None,
        },
{
    let ghost deep = args.deep_view();
    proof {
        assert(forall|j: int| 0 <= j < args@.len() ==> deep[j] == args@[j]@);
    }
    let n = args.len();
    let mut i: usize = 0;
    while i < n
        invariant
            i <= n,
            n == args@.len(),
            deep == args.deep_view(),
            forall|j: int| 0 <= j < i ==> deep[j] != key@,
        decreases n - i,
    {
        if str_eq_str(args[i].as_str(), key) {
            proof {
                assert(deep[i as int] == key@);
                lemma_find_exact(key@, deep);
                match find_exact(key@, deep) {
                    Option::Some(i2) => {
                        assert(!(i2 < i) && !(i < i2));
                    },
                    Option::None => {
                        assert(false);
                    },
                }
            }
            return Some(i);
        }
        i = i + 1;
    }
    proof {
        lemma_find_exact(key@, deep);
    }
    None
}

/// Composing two prepend steps is one prepend step.
proof fn lemma_ext_compose(out: FieldsOut, pre: Seq<ValueV>, v: ValueV, c1: int, c2: int)
    ensures
        ext_fields(ext_fields(out, seq![v], c2), pre, c1) == ext_fields(
            out,
            pre + seq![v],
            c1 + c2,
        ),
{
    match out {
        FieldsOut::Done(vs, rest) => {
            assert(pre + (seq![v] + vs) =~= (pre + seq![v]) + vs);
        },
        FieldsOut::Stopped(e, p) => {
        },
    }
}

/// Appending one parsed value to the collected values, seen through views.
proof fn lemma_vals_push(pre: Vec<Value>, post: Vec<Value>, v: Value)
    requires
        post@ == pre@.push(v),
    ensures
        view_values(post, 0) == view_values(pre, 0) + seq![v@],
{
    lemma_view_values(pre, 0);
    lemma_view_values(post, 0);
    assert forall|j: int| 0 <= j < post@.len() implies #[trigger] view_values(post, 0)[j] == (
    view_values(pre, 0) + seq![v@])[j] by {
        assert(view_values(post, 0)[j] == view_value(post@[0 + j]));
        if j < pre@.len() {
            assert(post@[j] == pre@[j]);
            assert(view_values(pre, 0)[j] == view_value(pre@[0 + j]));
        } else {
            assert(post@[j] == v);
        }
    }
    assert(view_values(post, 0) =~= view_values(pre, 0) + seq![v@]);
}

/// Parses a shape at a flag name, consuming the tokens it recognizes.  On
/// failure the argument list is unchanged and the error reports how many
/// tokens the attempt had consumed before failing.
#[verifier::loop_isolation(false)]
pub fn parse_shape(s: &Shape, key: &str, args: &mut Vec<String>) -> (r: Result<Value, ErrInfo>)
    ensures
        match r {
            Result::Ok(v) => spec_parse(*s, key@, old(args).deep_view()) == ParseOut::Parsed(
                v@,
                final(args).deep_view(),
            ) && final(args)@.len() <= old(args)@.len(),
            Result::Err(e) => spec_parse(*s, key@, old(args).deep_view()) == ParseOut::Failed(
                e.err@,
                e.used as int,
            ) && final(args).deep_view() == old(args).deep_view()
                && final(args)@.len() == old(args)@.len() && e.used <= old(args)@.len(),
        },
    decreases *s, old(args)@.len(), 0int,
{
    let ghost orig = args.deep_view();
    proof {
        assert(forall|j: int| 0 <= j < args@.len() ==> orig[j] == args@[j]@);
    }
    match s {
        Shape::Text => match take_string_exec(key, args) {
            Ok(t) => Ok(Value::Text(t)),
            Err(e) => Err(ErrInfo { err: e, used: 0 }),
        },
        Shape::Path => match take_string_exec(key, args) {
            Ok(t) => Ok(Value::Path(t)),
            Err(e) => Err(ErrInfo { err: e, used: 0 }),
        },
        Shape::Int(k) => {
            let saved = clone_tokens(args);
            match take_string_exec(key, args) {
                Err(e) => Err(ErrInfo { err: e, used: 0 }),
                Ok(t) => match convert_int(*k, t.as_str()) {
                    Ok(v) => Ok(v),
                    Err(m) => {
                        *args = saved;
                        Err(
                            ErrInfo {
                                err: Error::OptionValueParsingFailed(str_to_string(key), m),
                                used: 0,
                            },
                        )
                    },
                },
            }
        },
        Shape::Float => {
            let saved = clone_tokens(args);
            match take_string_exec(key, args) {
                Err(e) => Err(ErrInfo { err: e, used: 0 }),
                Ok(t) => match convert_float(t.as_str()) {
                    Ok(bits) => Ok(Value::Float(bits)),
                    Err(m) => {
                        *args = saved;
                        Err(
                            ErrInfo {
                                err: Error::OptionValueParsingFailed(str_to_string(key), m),
                                used: 0,
                            },
                        )
                    },
                },
            }
        },
        Shape::Flag => {
            if key.unicode_len() == 0 {
                if args.len() == 0 {
                    return Err(ErrInfo { err: Error::OptionWithoutAValue(String::new()), used: 0 });
                }
                if str_eq_str(args[0].as_str(), "--") {
                    return Err(
                        ErrInfo { err: Error::OptionWithoutAValue(str_to_string("bool")), used: 0 },
                    );
                }
                if str_eq_str(args[0].as_str(), "true") {
                    let _t = args.remove(0);
                    proof {
                        lemma_deep_remove(old(args)@, args@, orig, 0);
                        assert(args.deep_view() =~= orig.drop_first());
                    }
                    return Ok(Value::Flag(true));
                }
                if str_eq_str(args[0].as_str(), "false") {
                    let _t = args.remove(0);
                    proof {
                        lemma_deep_remove(old(args)@, args@, orig, 0);
                        assert(args.deep_view() =~= orig.drop_first());
                    }
                    return Ok(Value::Flag(false));
                }
                return Err(ErrInfo { err: Error::MissingOption(str_to_string("bool")), used: 0 });
            }
            match find_exact_exec(key, args) {
                Some(j) => {
                    let _t = args.remove(j);
                    proof {
                        lemma_deep_remove(old(args)@, args@, orig, j as int);
                        assert(args.deep_view() =~= orig.remove(j as int));
                    }
                    Ok(Value::Flag(true))
                },
                None => Ok(Value::Flag(false)),
            }
        },
        Shape::Marker => Ok(Value::Unit),
        Shape::Optional(inner) => match parse_shape(inner, key, args) {
            Ok(v) => Ok(Value::Maybe(Some(Box::new(v)))),
            Err(e) => {
                if matches!(e.err, Error::MissingOption(_)) {
                    Ok(Value::Maybe(None))
                } else {
                    Err(e)
                }
            },
        },
        Shape::Wrapper(inner) => match parse_shape(inner, key, args) {
            Ok(v) => Ok(Value::Wrapped(Box::new(v))),
            Err(e) => Err(e),
        },
        Shape::Repeated(inner) => {
            let mut local = clone_tokens(args);
            match parse_repeat_exec(inner, key, &mut local) {
                Ok(vals) => {
                    *args = local;
                    Ok(Value::List(vals))
                },
                Err(e) => Err(e),
            }
        },
        Shape::Record(fields) => match parse_record_exec(fields, key, args) {
            Ok(vals) => Ok(Value::Record(vals)),
            Err(e) => Err(e),
        },
        Shape::Alternatives(vars) => {
            if vars.len() == 1 {
                let vname = variant_to_flag_name(vars[0].name.as_str());
                let vkey = join_prefix(key, vname.as_str());
                match parse_shape(&vars[0].shape, vkey.as_str(), args) {
                    Ok(v) => Ok(Value::Choice(0, Box::new(v))),
                    Err(e) => Err(e),
                }
            } else {
                parse_variants_exec(vars, key, args)
            }
        },
    }
}

/// Parses a record's fields in declaration order against a private copy of
/// the argument list, committing only when every field has parsed.
#[verifier::loop_isolation(false)]
fn parse_record_exec(fields: &Vec<Field>, key: &str, args: &mut Vec<String>) -> (r: Result<
    Vec<Value>,
    ErrInfo,
>)
    ensures
        match r {
            Result::Ok(vs) => parse_fields(*fields, 0, key@, old(args).deep_view())
                == FieldsOut::Done(view_values(vs, 0), final(args).deep_view())
                && final(args)@.len() <= old(args)@.len(),
            Result::Err(e) => parse_fields(*fields, 0, key@, old(args).deep_view())
                == FieldsOut::Stopped(e.err@, e.used as int)
                && final(args).deep_view() == old(args).deep_view()
                && final(args)@.len() == old(args)@.len() && e.used <= old(args)@.len(),
        },
    decreases *fields, old(args)@.len(), 1int,
{
    let ghost orig = args.deep_view();
    let mut local = clone_tokens(args);
    let mut vals: Vec<Value> = Vec::new();
    let n = fields.len();
    let mut i: usize = 0;
    proof {
        assert(view_values(vals, 0) =~= Seq::<ValueV>::empty());
        assert(ext_fields(parse_fields(*fields, 0, key@, orig), Seq::empty(), 0) == parse_fields(
            *fields,
            0,
            key@,
            orig,
        )) by {
            match parse_fields(*fields, 0, key@, orig) {
                FieldsOut::Done(vs, rest) => {
                    assert(Seq::<ValueV>::empty() + vs =~= vs);
                },
                FieldsOut::Stopped(e, p) => {
                },
            }
        }
    }
    while i < n
        invariant
            i <= n,
            n == fields@.len(),
            args@ == old(args)@,
            orig == args.deep_view(),
            local.deep_view().len() <= orig.len(),
            parse_fields(*fields, 0, key@, orig) == ext_fields(
                parse_fields(*fields, i as int, key@, local.deep_view()),
                view_values(vals, 0),
                orig.len() - local.deep_view().len(),
            ),
        decreases n - i,
    {
        let fname = to_flag_name(fields[i].name.as_str());
        let ckey = join_prefix(key, fname.as_str());
        let ghost pre_deep = local.deep_view();
        let ghost pre_vals = view_values(vals, 0);
        match parse_shape(&fields[i].shape, ckey.as_str(), &mut local) {
            Ok(v) => {
                proof {
                    assert(parse_fields(*fields, i as int, key@, pre_deep) == ext_fields(
                        parse_fields(*fields, i + 1, key@, local.deep_view()),
                        seq![v@],
                        pre_deep.len() - local.deep_view().len(),
                    ));
                    lemma_ext_compose(
                        parse_fields(*fields, i + 1, key@, local.deep_view()),
                        pre_vals,
                        v@,
                        orig.len() - pre_deep.len(),
                        pre_deep.len() - local.deep_view().len(),
                    );
                }
                let ghost old_vals = vals;
                vals.push(v);
                proof {
                    lemma_vals_push(old_vals, vals, v);
                }
                i = i + 1;
            },
            Err(e) => {
                let used = args.len() - local.len() + e.used;
                proof {
                    assert(parse_fields(*fields, i as int, key@, local.deep_view())
                        == FieldsOut::Stopped(e.err@, e.used as int));
                }
                return Err(ErrInfo { err: e.err, used });
            },
        }
    }
    proof {
        assert(parse_fields(*fields, n as int, key@, local.deep_view()) == FieldsOut::Done(
            Seq::empty(),
            local.deep_view(),
        ));
        assert(view_values(vals, 0) + Seq::<ValueV>::empty() =~= view_values(vals, 0));
        assert(parse_fields(*fields, 0, key@, orig) == FieldsOut::Done(
            view_values(vals, 0),
            local.deep_view(),
        ));
    }
    *args = local;
    Ok(vals)
}

/// Tries each variant in declaration order against a private copy of the
/// argument list, committing the first success.
#[verifier::loop_isolation(false)]
fn parse_variants_exec(vars: &Vec<Field>, key: &str, args: &mut Vec<String>) -> (r: Result<
    Value,
    ErrInfo,
>)
    ensures
        match r {
            Result::Ok(v) => parse_variants(*vars, 0, key@, old(args).deep_view(), Option::None)
                == ParseOut::Parsed(v@, final(args).deep_view())
                && final(args)@.len() <= old(args)@.len(),
            Result::Err(e) => parse_variants(*vars, 0, key@, old(args).deep_view(), Option::None)
                == ParseOut::Failed(e.err@, e.used as int)
                && final(args).deep_view() == old(args).deep_view()
                && final(args)@.len() == old(args)@.len() && e.used <= old(args)@.len(),
        },
    decreases *vars, old(args)@.len(), 1int,
{
    let ghost orig = args.deep_view();
    let total = args.len();
    let n = vars.len();
    let mut best: Option<ErrInfo> = None;
    let mut i: usize = 0;
    while i < n
        invariant
            i <= n,
            n == vars@.len(),
            args@ == old(args)@,
            orig == args.deep_view(),
            match best {
                Option::Some(b) => b.used <= orig.len() && parse_variants(
                    *vars,
                    0,
                    key@,
                    orig,
                    Option::None,
                ) == parse_variants(
                    *vars,
                    i as int,
                    key@,
                    orig,
                    Option::Some((b.err@, b.used as int)),
                ),
                Option::None => i == 0,
            },
        decreases n - i,
    {
        let vname = variant_to_flag_name(vars[i].name.as_str());
        let vkey = join_prefix(key, vname.as_str());
        let mut local = clone_tokens(args);
        let attempt: Result<Value, ErrInfo> = if requires_input(&vars[i].shape) {
            parse_shape(&vars[i].shape, vkey.as_str(), &mut local)
        } else {
            match find_exact_exec(vkey.as_str(), &local) {
                None => Err(ErrInfo { err: Error::MissingOption(vkey.clone()), used: 0 }),
                Some(j) => {
                    let ghost pre_local = local@;
                    let _t = local.remove(j);
                    proof {
                        lemma_deep_remove(pre_local, local@, orig, j as int);
                        assert(local.deep_view() =~= orig.remove(j as int));
                    }
                    match parse_shape(&vars[i].shape, vkey.as_str(), &mut local) {
                        Ok(v) => Ok(v),
                        Err(e) => {
                            proof {
                                assert(e.used <= local@.len());
                                assert(local@.len() < orig.len());
                                assert(orig.len() == total);
                            }
                            Err(ErrInfo { err: e.err, used: e.used + 1 })
                        },
                    }
                },
            }
        };
        match attempt {
            Ok(v) => {
                proof {
                    assert(parse_variant(vars@[i as int].shape, vkey@, orig) == ParseOut::Parsed(
                        v@,
                        local.deep_view(),
                    ));
                }
                *args = local;
                return Ok(Value::Choice(i, Box::new(v)));
            },
            Err(e) => {
                proof {
                    assert(parse_variant(vars@[i as int].shape, vkey@, orig) == ParseOut::Failed(
                        e.err@,
                        e.used as int,
                    ));
                }
                let replace = match &best {
                    None => true,
                    Some(b) => e.used >= b.used,
                };
                if replace {
                    best = Some(e);
                }
                i = i + 1;
            },
        }
    }
    match best {
        Some(b) => Err(b),
        None => {
            assert(n == 0);
            Err(ErrInfo { err: Error::MissingOption(str_to_string(key)), used: 0 })
        },
    }
}

/// Parses repetitions of `inner` under one flag name until the flag is
/// missing.  On error the argument list is left in an intermediate state;
/// the caller restores its own copy.
#[verifier::loop_isolation(false)]
fn parse_repeat_exec(inner: &Shape, key: &str, args: &mut Vec<String>) -> (r: Result<
    Vec<Value>,
    ErrInfo,
>)
    ensures
        match r {
            Result::Ok(vs) => parse_repeat(*inner, key@, old(args).deep_view()) == FieldsOut::Done(
                view_values(vs, 0),
                final(args).deep_view(),
            ) && final(args)@.len() <= old(args)@.len(),
            Result::Err(e) => parse_repeat(*inner, key@, old(args).deep_view())
                == FieldsOut::Stopped(e.err@, e.used as int) && e.used <= old(args)@.len(),
        },
    decreases *inner, old(args)@.len(), 1int,
{
    let before = args.len();
    match parse_shape(inner, key, args) {
        Err(e) => {
            if matches!(e.err, Error::MissingOption(_)) {
                let vals: Vec<Value> = Vec::new();
                proof {
                    assert(view_values(vals, 0) =~= Seq::<ValueV>::empty());
                }
                Ok(vals)
            } else {
                Err(e)
            }
        },
        Ok(v) => {
            if args.len() >= before {
                let mut vals: Vec<Value> = Vec::new();
                let ghost empty_vals = vals;
                vals.push(v);
                proof {
                    lemma_vals_push(empty_vals, vals, v);
                    assert(view_values(empty_vals, 0) =~= Seq::<ValueV>::empty());
                    assert(Seq::<ValueV>::empty() + seq![v@] =~= seq![v@]);
                }
                Ok(vals)
            } else {
                let consumed = before - args.len();
                let ghost mid = args.deep_view();
                match parse_repeat_exec(inner, key, args) {
                    Ok(vals) => {
                        let ghost pre_vals = vals;
                        let mut vals = vals;
                        vals.insert(0, v);
                        proof {
                            lemma_view_values(pre_vals, 0);
                            lemma_view_values(vals, 0);
                            assert forall|j: int| 0 <= j < vals@.len() implies #[trigger]
                            view_values(vals, 0)[j] == (seq![v@] + view_values(pre_vals, 0))[j] by {
                                assert(view_values(vals, 0)[j] == view_value(vals@[0 + j]));
                                if j > 0 {
                                    assert(vals@[j] == pre_vals@[j - 1]);
                                    assert(view_values(pre_vals, 0)[j - 1] == view_value(
                                        pre_vals@[0 + (j - 1)],
                                    ));
                                } else {
                                    assert(vals@[0] == v);
                                }
                            }
                            assert(view_values(vals, 0) =~= seq![v@] + view_values(pre_vals, 0));
                        }
                        Ok(vals)
                    },
                    Err(e) => Err(ErrInfo { err: e.err, used: consumed + e.used }),
                }
            }
        },
    }
}

/// What a whole parse returns: the value, provided every token was consumed;
/// leftover tokens are an error even after a structurally successful parse.
pub open spec fn spec_parse_from(s: Shape, args: Seq<Seq<char>>) -> Result<ValueV, ErrorV> {
    match spec_parse(s, Seq::empty(), args) {
        ParseOut::Parsed(v, rest) => if rest.len() == 0 {
            Result::Ok(v)
        } else {
            Result::Err(ErrorV::UnexpectedOption(rest))
        },
        ParseOut::Failed(e, _) => Result::Err(e),
    }
}

/// Parses a token list against a shape, rooted at the empty prefix, and
/// requires the list to be fully drained.
pub fn parse_from(s: &Shape, args: Vec<String>) -> (r: Result<Value, Error>)
    ensures
        match r {
            Result::Ok(v) => spec_parse_from(*s, args.deep_view()) == Result::<
                ValueV,
                ErrorV,
            >::Ok(v@),
            Result::Err(e) => spec_parse_from(*s, args.deep_view()) == Result::<
                ValueV,
                ErrorV,
            >::Err(e@),
        },
{
    let mut a = args;
    proof {
        reveal_strlit("");
        assert(""@ =~= Seq::<char>::empty());
    }
    match parse_shape(s, "", &mut a) {
        Ok(v) => {
            if a.len() == 0 {
                proof {
                    assert(a.deep_view() =~= Seq::<Seq<char>>::empty());
                }
                Ok(v)
            } else {
                Err(Error::UnexpectedOption(a))
            }
        },
        Err(e) => Err(e.err),
    }
}

/// Parses a shape at an explicit flag name, without the drain check.
pub fn parse_internal(s: &Shape, key: &str, args: &mut Vec<String>) -> (r: Result<Value, Error>)
    ensures
        match r {
            Result::Ok(v) => spec_parse(*s, key@, old(args).deep_view()) == ParseOut::Parsed(
                v@,
                final(args).deep_view(),
            ),
            Result::Err(e) => spec_parse(*s, key@, old(args).deep_view()) matches ParseOut::Failed(
                ev,
                p,
            ) && ev == e@ && final(args).deep_view() == old(args).deep_view(),
        },
{
    match parse_shape(s, key, args) {
        Ok(v) => Ok(v),
        Err(e) => Err(e.err),
    }
}

/// Whether the help token appears among the raw arguments.
pub fn contains_help(args: &Vec<String>) -> (r: bool)
    ensures
        r == exists|j: int| 0 <= j < args@.len() && args.deep_view()[j] == "--help"@,
{
    let ghost deep = args.deep_view();
    proof {
        assert(forall|j: int| 0 <= j < args@.len() ==> deep[j] == args@[j]@);
    }
    let n = args.len();
    let mut i: usize = 0;
    while i < n
        invariant
            i <= n,
            n == args@.len(),
            deep == args.deep_view(),
            forall|j: int| 0 <= j < i ==> deep[j] != "--help"@,
        decreases n - i,
    {
        if str_eq_str(args[i].as_str(), "--help") {
            proof {
                assert(deep[i as int] == "--help"@);
            }
            return true;
        }
        i = i + 1;
    }
    false
}

} // verus!
