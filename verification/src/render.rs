//! Rendering a value back to a token sequence under its natural flags, and
//! the round-trip law: parsing what was rendered yields the value back.

use vstd::prelude::*;
use vstd::arithmetic::div_mod::lemma_fundamental_div_mod;
use crate::errors::ErrorV;
use crate::naming::spec_join_prefix;
use crate::parse::FieldsOut;
use crate::parse::ParseOut;
use crate::parse::ext_fields;
use crate::parse::parse_fields;
use crate::parse::parse_repeat;
use crate::parse::spec_parse;
use crate::parse::spec_parse_from;
use crate::scan::TokenOut;
use crate::scan::find_exact;
use crate::scan::find_flag;
use crate::scan::lemma_find_exact;
use crate::scan::lemma_find_flag;
use crate::scan::take_string;
use crate::num::int_token_value;
use crate::naming::spec_to_flag_name;
use crate::num::all_digits;
use crate::num::dec_val;
use crate::num::digit_val;
use crate::num::in_range;
use crate::num::int_value;
use crate::num::is_digit;
use crate::num::is_signed_kind;
use crate::num::parse_decimal;
use crate::scan::matches_key;
use crate::shape::Field;
use crate::shape::Shape;
use crate::shape::Value;
use crate::shape::ValueV;
use crate::shape::view_value;
use crate::shape::view_values;
use crate::shape::lemma_view_values;
use crate::shape::spec_requires_input;
use crate::strutil::is_prefix_of;
use crate::strutil::push_char;
use crate::strutil::str_to_string;

verus! {

broadcast use vstd::std_specs::vec::axiom_vec_index_decreases;

/// A usable flag name: nonempty and free of the `=` separator.
pub open spec fn key_clear(k: Seq<char>) -> bool {
    k.len() > 0 && forall|i: int| 0 <= i < k.len() ==> k[i] != '='
}

/// Every key of the set is usable.
pub open spec fn keys_clear(ks: Set<Seq<char>>) -> bool {
    forall|k: Seq<char>| ks.contains(k) ==> key_clear(k)
}

/// The flag name a field is parsed at.
pub open spec fn field_key(prefix: Seq<char>, f: Field) -> Seq<char> {
    spec_join_prefix(prefix, spec_to_flag_name(f.name@))
}

/// The set of flag names a shape's parse may scan the argument list for.
pub open spec fn flag_keys(s: Shape, key: Seq<char>) -> Set<Seq<char>>
    decreases s, 0int,
{
    match s {
        Shape::Text | Shape::Path | Shape::Flag | Shape::Float | Shape::Int(_) => set![key],
        Shape::Optional(inner) => flag_keys(*inner, key),
        Shape::Repeated(inner) => flag_keys(*inner, key),
        Shape::Marker => Set::empty(),
        Shape::Wrapper(inner) => flag_keys(*inner, key),
        Shape::Record(fields) => keys_fields(fields, 0, key),
        Shape::Alternatives(vars) => keys_fields(vars, 0, key),
    }
}

pub open spec fn keys_fields(fields: Vec<Field>, i: int, prefix: Seq<char>) -> Set<Seq<char>>
    decreases fields, fields@.len() - i, 1int,
{
    if i < 0 || i >= fields@.len() {
        Set::empty()
    } else {
        flag_keys(fields@[i].shape, field_key(prefix, fields@[i])).union(
            keys_fields(fields, i + 1, prefix),
        )
    }
}

/// A token that cannot select any flag of the set.
pub open spec fn unrel(t: Seq<char>, ks: Set<Seq<char>>) -> bool {
    forall|k: Seq<char>| ks.contains(k) ==> !matches_key(k, t)
}

pub open spec fn unrel_tokens(ts: Seq<Seq<char>>, ks: Set<Seq<char>>) -> bool {
    forall|j: int| 0 <= j < ts.len() ==> unrel(#[trigger] ts[j], ks)
}

/// A token that selects some flag of the set.
pub open spec fn token_of_keys(t: Seq<char>, ks: Set<Seq<char>>) -> bool {
    exists|k: Seq<char>| ks.contains(k) && matches_key(k, t)
}

/// Whether a value has the given shape.
pub open spec fn fits(v: ValueV, s: Shape) -> bool
    decreases s, 0int, 0int,
{
    match (s, v) {
        (Shape::Text, ValueV::Text(_)) => true,
        (Shape::Path, ValueV::Path(_)) => true,
        (Shape::Flag, ValueV::Flag(_)) => true,
        (Shape::Float, ValueV::Float(_)) => true,
        (Shape::Int(k), ValueV::Unsigned(n)) => !is_signed_kind(k) && in_range(k, n as int),
        (Shape::Int(k), ValueV::Signed(n)) => is_signed_kind(k) && in_range(k, n as int),
        (Shape::Optional(inner), ValueV::Maybe(o)) => match o {
            Option::None => true,
            Option::Some(b) => fits(*b, *inner),
        },
        (Shape::Repeated(inner), ValueV::List(vs)) => fits_list(vs, *inner),
        (Shape::Marker, ValueV::Unit) => true,
        (Shape::Wrapper(inner), ValueV::Wrapped(b)) => fits(*b, *inner),
        (Shape::Record(fields), ValueV::Record(vs)) => vs.len() == fields@.len() && fits_fields(
            fields,
            0,
            vs,
        ),
        (Shape::Alternatives(vars), ValueV::Choice(i, b)) => 0 <= i < vars@.len() && fits(
            *b,
            vars@[i].shape,
        ),
        _ => false,
    }
}

pub open spec fn fits_list(vs: Seq<ValueV>, inner: Shape) -> bool
    decreases inner, vs.len(), 1int,
{
    vs.len() == 0 || (fits(vs[0], inner) && fits_list(vs.drop_first(), inner))
}

pub open spec fn fits_fields(fields: Vec<Field>, i: int, vs: Seq<ValueV>) -> bool
    decreases fields, fields@.len() - i, 1int,
{
    if i < 0 || i >= fields@.len() {
        true
    } else {
        i < vs.len() && fits(vs[i], fields@[i].shape) && fits_fields(fields, i + 1, vs)
    }
}

/// The shapes the serializer supports: flag-addressed leaves (no positional
/// and no floating-point leaves, whose rendering could not be pinned down),
/// optional members that demand input when present, repeated plain leaves,
/// and records whose members' flag names cannot capture one another.
pub open spec fn renderable(s: Shape, key: Seq<char>) -> bool
    decreases s, 0int,
{
    match s {
        Shape::Text | Shape::Path | Shape::Flag | Shape::Int(_) => key_clear(key),
        Shape::Float => false,
        Shape::Optional(inner) => key_clear(key) && spec_requires_input(*inner) && renderable(
            *inner,
            key,
        ),
        Shape::Repeated(inner) => key_clear(key) && (*inner matches Shape::Text || *inner
            matches Shape::Path || *inner matches Shape::Int(_)),
        Shape::Marker => true,
        Shape::Wrapper(inner) => renderable(*inner, key),
        Shape::Record(fields) => fields_renderable(fields, 0, key) && (forall|i: int, j: int|
            0 <= i < j < fields@.len() ==> #[trigger] flag_keys(
                fields@[i].shape,
                field_key(key, fields@[i]),
            ).disjoint(#[trigger] flag_keys(fields@[j].shape, field_key(key, fields@[j])))),
        Shape::Alternatives(_) => false,
    }
}

pub open spec fn fields_renderable(fields: Vec<Field>, i: int, prefix: Seq<char>) -> bool
    decreases fields, fields@.len() - i, 1int,
{
    if i < 0 || i >= fields@.len() {
        true
    } else {
        renderable(fields@[i].shape, field_key(prefix, fields@[i])) && fields_renderable(
            fields,
            i + 1,
            prefix,
        )
    }
}

/// The decimal digit character for one digit value.
pub open spec fn dchar(d: nat) -> char {
    if d == 0 {
        '0'
    } else if d == 1 {
        '1'
    } else if d == 2 {
        '2'
    } else if d == 3 {
        '3'
    } else if d == 4 {
        '4'
    } else if d == 5 {
        '5'
    } else if d == 6 {
        '6'
    } else if d == 7 {
        '7'
    } else if d == 8 {
        '8'
    } else {
        '9'
    }
}

/// The decimal digits of a nonnegative integer.
pub open spec fn dec_digits(n: nat) -> Seq<char>
    decreases n,
{
    if n < 10 {
        seq![dchar(n)]
    } else {
        dec_digits(n / 10).push(dchar(n % 10))
    }
}

/// The decimal rendering of an integer, a leading minus sign included.
pub open spec fn dec_string(n: int) -> Seq<char> {
    if n < 0 {
        seq!['-'] + dec_digits((-n) as nat)
    } else {
        dec_digits(n as nat)
    }
}

pub proof fn lemma_dec_digits(n: nat)
    ensures
        all_digits(dec_digits(n)),
        dec_val(dec_digits(n)) == n,
    decreases n,
{
    if n < 10 {
        assert(dec_digits(n) =~= seq![dchar(n)]);
        assert(dec_digits(n).drop_last() =~= Seq::<char>::empty());
        assert(dec_digits(n).last() == dchar(n));
        assert(digit_val(dchar(n)) == n);
        assert(dec_val(Seq::<char>::empty()) == 0);
        assert(dec_val(dec_digits(n)) == 0 * 10 + digit_val(dchar(n)));
    } else {
        lemma_dec_digits(n / 10);
        lemma_fundamental_div_mod(n as int, 10);
        let s = dec_digits(n / 10);
        assert(dec_digits(n) == s.push(dchar(n % 10)));
        assert(s.push(dchar(n % 10)).drop_last() =~= s);
        assert(s.push(dchar(n % 10)).last() == dchar(n % 10));
        assert(digit_val(dchar(n % 10)) == n % 10);
        assert(dec_val(dec_digits(n)) == dec_val(s) * 10 + n % 10);
        assert(forall|j: int|
            0 <= j < dec_digits(n).len() ==> is_digit(#[trigger] dec_digits(n)[j]));
    }
}

/// Rendering an integer and reading it back in decimal is the identity.
pub proof fn lemma_dec_string(n: int)
    ensures
        parse_decimal(dec_string(n)) == Option::Some(n),
{
    if n < 0 {
        lemma_dec_digits((-n) as nat);
        let s = dec_string(n);
        assert(s[0] == '-');
        assert(s.drop_first() =~= dec_digits((-n) as nat));
        assert(all_digits(s.drop_first()));
    } else {
        lemma_dec_digits(n as nat);
        let s = dec_string(n);
        assert(s == dec_digits(n as nat));
        assert(is_digit(s[0]));
        assert(s[0] != '-' && s[0] != '+');
    }
}

/// Renders a value of a shape to the token sequence its flags accept: flag
/// leaves carry their value attached by `=`, booleans appear as their bare
/// flag when true, absent and empty members produce nothing, and records
/// render their members in declaration order.
pub open spec fn render(s: Shape, key: Seq<char>, v: ValueV) -> Seq<Seq<char>>
    decreases s, 0int, 0int,
{
    match (s, v) {
        (Shape::Text, ValueV::Text(t)) => seq![key.push('=') + t],
        (Shape::Path, ValueV::Path(t)) => seq![key.push('=') + t],
        (Shape::Flag, ValueV::Flag(b)) => if b {
            seq![key]
        } else {
            Seq::empty()
        },
        (Shape::Int(_), ValueV::Unsigned(n)) => seq![key.push('=') + dec_string(n as int)],
        (Shape::Int(_), ValueV::Signed(n)) => seq![key.push('=') + dec_string(n as int)],
        (Shape::Optional(inner), ValueV::Maybe(o)) => match o {
            Option::None => Seq::empty(),
            Option::Some(b) => render(*inner, key, *b),
        },
        (Shape::Repeated(inner), ValueV::List(vs)) => render_list(*inner, key, vs),
        (Shape::Marker, ValueV::Unit) => Seq::empty(),
        (Shape::Wrapper(inner), ValueV::Wrapped(b)) => render(*inner, key, *b),
        (Shape::Record(fields), ValueV::Record(vs)) => render_fields(fields, 0, key, vs),
        _ => Seq::empty(),
    }
}

pub open spec fn render_list(inner: Shape, key: Seq<char>, vs: Seq<ValueV>) -> Seq<Seq<char>>
    decreases inner, vs.len(), 1int,
{
    if vs.len() == 0 {
        Seq::empty()
    } else {
        render(inner, key, vs[0]) + render_list(inner, key, vs.drop_first())
    }
}

pub open spec fn render_fields(
    fields: Vec<Field>,
    i: int,
    prefix: Seq<char>,
    vs: Seq<ValueV>,
) -> Seq<Seq<char>>
    decreases fields, fields@.len() - i, 1int,
{
    if i < 0 || i >= fields@.len() || i >= vs.len() {
        Seq::empty()
    } else {
        render(fields@[i].shape, field_key(prefix, fields@[i]), vs[i]) + render_fields(
            fields,
            i + 1,
            prefix,
            vs,
        )
    }
}

/// The value a shape that demands no input parses from tokens it cannot
/// recognize: false flags, absent members, empty lists.
pub open spec fn empty_value(s: Shape) -> ValueV
    decreases s, 0int,
{
    match s {
        Shape::Flag => ValueV::Flag(false),
        Shape::Optional(_) => ValueV::Maybe(Option::None),
        Shape::Repeated(_) => ValueV::List(Seq::empty()),
        Shape::Marker => ValueV::Unit,
        Shape::Wrapper(inner) => ValueV::Wrapped(Box::new(empty_value(*inner))),
        Shape::Record(fields) => ValueV::Record(empty_values(fields, 0)),
        _ => ValueV::Unit,
    }
}

pub open spec fn empty_values(fields: Vec<Field>, i: int) -> Seq<ValueV>
    decreases fields, fields@.len() - i, 1int,
{
    if i < 0 || i >= fields@.len() {
        Seq::empty()
    } else {
        seq![empty_value(fields@[i].shape)] + empty_values(fields, i + 1)
    }
}

/// Two distinct usable flag names never select the same token.
proof fn lemma_two_keys(k1: Seq<char>, k2: Seq<char>, t: Seq<char>)
    requires
        matches_key(k1, t),
        key_clear(k1),
        key_clear(k2),
        k1 != k2,
    ensures
        !matches_key(k2, t),
{
    if matches_key(k2, t) {
        if t == k1 && t == k2 {
            assert(false);
        } else if t == k1 {
            assert(is_prefix_of(k2.push('='), t));
            assert(t[k2.len() as int] == '=') by {
                assert(t.subrange(0, k2.len() + 1 as int)[k2.len() as int] == t[k2.len() as int]);
                assert((k2.push('='))[k2.len() as int] == '=');
            }
            assert(k1[k2.len() as int] == '=');
            assert(false);
        } else if t == k2 {
            assert(is_prefix_of(k1.push('='), t));
            assert(t[k1.len() as int] == '=') by {
                assert(t.subrange(0, k1.len() + 1 as int)[k1.len() as int] == t[k1.len() as int]);
                assert((k1.push('='))[k1.len() as int] == '=');
            }
            assert(k2[k1.len() as int] == '=');
            assert(false);
        } else {
            assert(is_prefix_of(k1.push('='), t));
            assert(is_prefix_of(k2.push('='), t));
            let l1 = k1.len() as int;
            let l2 = k2.len() as int;
            assert(t[l1] == '=') by {
                assert(t.subrange(0, l1 + 1)[l1] == t[l1]);
                assert((k1.push('='))[l1] == '=');
            }
            assert(t[l2] == '=') by {
                assert(t.subrange(0, l2 + 1)[l2] == t[l2]);
                assert((k2.push('='))[l2] == '=');
            }
            if l1 == l2 {
                assert forall|i: int| 0 <= i < l1 implies k1[i] == k2[i] by {
                    assert(t.subrange(0, l1 + 1)[i] == t[i]);
                    assert(t.subrange(0, l2 + 1)[i] == t[i]);
                    assert((k1.push('='))[i] == k1[i]);
                    assert((k2.push('='))[i] == k2[i]);
                }
                assert(k1 =~= k2);
                assert(false);
            } else if l1 < l2 {
                assert(k2[l1] == t[l1]) by {
                    assert(t.subrange(0, l2 + 1)[l1] == t[l1]);
                    assert((k2.push('='))[l1] == k2[l1]);
                }
                assert(false);
            } else {
                assert(k1[l2] == t[l2]) by {
                    assert(t.subrange(0, l1 + 1)[l2] == t[l2]);
                    assert((k1.push('='))[l2] == k1[l2]);
                }
                assert(false);
            }
        }
    }
}

/// A token selecting a flag of one set cannot select a flag of a set
/// disjoint from it.
proof fn lemma_unrel_from_disjoint(t: Seq<char>, a: Set<Seq<char>>, b: Set<Seq<char>>)
    requires
        token_of_keys(t, a),
        a.disjoint(b),
        keys_clear(a),
        keys_clear(b),
    ensures
        unrel(t, b),
{
    let k1 = choose|k: Seq<char>| a.contains(k) && matches_key(k, t);
    assert forall|k2: Seq<char>| b.contains(k2) implies !matches_key(k2, t) by {
        assert(!a.contains(k2));
        lemma_two_keys(k1, k2, t);
    }
}

/// Every key a shape scans for is usable, for renderable shapes.
proof fn lemma_keys_clear(s: Shape, key: Seq<char>)
    requires
        renderable(s, key),
    ensures
        keys_clear(flag_keys(s, key)),
    decreases s, 0int,
{
    match s {
        Shape::Record(fields) => {
            lemma_keys_fields_clear(fields, 0, key);
        },
        Shape::Optional(inner) => {
            lemma_keys_clear(*inner, key);
        },
        Shape::Repeated(inner) => {
            lemma_keys_clear(*inner, key);
        },
        Shape::Wrapper(inner) => {
            lemma_keys_clear(*inner, key);
        },
        _ => {
        },
    }
}

proof fn lemma_keys_fields_clear(fields: Vec<Field>, i: int, prefix: Seq<char>)
    requires
        fields_renderable(fields, i, prefix),
    ensures
        keys_clear(keys_fields(fields, i, prefix)),
    decreases fields, fields@.len() - i, 1int,
{
    if 0 <= i < fields@.len() {
        lemma_keys_clear(fields@[i].shape, field_key(prefix, fields@[i]));
        lemma_keys_fields_clear(fields, i + 1, prefix);
    }
}

/// Every token a renderable value renders to selects one of the shape's own
/// flags.
proof fn lemma_render_tokens(s: Shape, key: Seq<char>, v: ValueV)
    requires
        renderable(s, key),
        fits(v, s),
    ensures
        forall|j: int|
            0 <= j < render(s, key, v).len() ==> token_of_keys(
                #[trigger] render(s, key, v)[j],
                flag_keys(s, key),
            ),
    decreases s, 0int, 2int,
{
    match (s, v) {
        (Shape::Text, ValueV::Text(t)) => {
            lemma_eq_token_matches(key, t);
            assert(render(s, key, v)[0] == key.push('=') + t);
        },
        (Shape::Path, ValueV::Path(t)) => {
            lemma_eq_token_matches(key, t);
            assert(render(s, key, v)[0] == key.push('=') + t);
        },
        (Shape::Int(_), ValueV::Unsigned(n)) => {
            lemma_eq_token_matches(key, dec_string(n as int));
            assert(render(s, key, v)[0] == key.push('=') + dec_string(n as int));
        },
        (Shape::Int(_), ValueV::Signed(n)) => {
            lemma_eq_token_matches(key, dec_string(n as int));
            assert(render(s, key, v)[0] == key.push('=') + dec_string(n as int));
        },
        (Shape::Flag, ValueV::Flag(b)) => {
            assert(matches_key(key, key));
            assert(set![key].contains(key));
            if b {
                assert(render(s, key, v)[0] == key);
            }
        },
        (Shape::Optional(inner), ValueV::Maybe(o)) => {
            match o {
                Option::Some(b) => {
                    lemma_render_tokens(*inner, key, *b);
                    assert forall|j: int| 0 <= j < render(s, key, v).len() implies token_of_keys(
                        #[trigger] render(s, key, v)[j],
                        flag_keys(s, key),
                    ) by {
                        assert(render(s, key, v)[j] == render(*inner, key, *b)[j]);
                    }
                },
                Option::None => {
                },
            }
        },
        (Shape::Repeated(inner), ValueV::List(vs)) => {
            lemma_render_list_tokens(*inner, key, vs);
            assert forall|j: int| 0 <= j < render(s, key, v).len() implies token_of_keys(
                #[trigger] render(s, key, v)[j],
                flag_keys(s, key),
            ) by {
                assert(render(s, key, v)[j] == render_list(*inner, key, vs)[j]);
            }
        },
        (Shape::Wrapper(inner), ValueV::Wrapped(b)) => {
            lemma_render_tokens(*inner, key, *b);
            assert forall|j: int| 0 <= j < render(s, key, v).len() implies token_of_keys(
                #[trigger] render(s, key, v)[j],
                flag_keys(s, key),
            ) by {
                assert(render(s, key, v)[j] == render(*inner, key, *b)[j]);
            }
        },
        (Shape::Record(fields), ValueV::Record(vs)) => {
            lemma_render_fields_tokens(fields, 0, key, vs);
            assert forall|j: int| 0 <= j < render(s, key, v).len() implies token_of_keys(
                #[trigger] render(s, key, v)[j],
                flag_keys(s, key),
            ) by {
                assert(render(s, key, v)[j] == render_fields(fields, 0, key, vs)[j]);
            }
        },
        _ => {
        },
    }
}

/// A `key=value` token selects `key`.
proof fn lemma_eq_token_matches(key: Seq<char>, val: Seq<char>)
    ensures
        matches_key(key, key.push('=') + val),
        token_of_keys(key.push('=') + val, set![key]),
{
    let t = key.push('=') + val;
    assert(t.subrange(0, key.len() + 1 as int) =~= key.push('='));
    assert(is_prefix_of(key.push('='), t));
    assert(set![key].contains(key));
}

proof fn lemma_render_list_tokens(inner: Shape, key: Seq<char>, vs: Seq<ValueV>)
    requires
        renderable(Shape::Repeated(Box::new(inner)), key),
        fits_list(vs, inner),
    ensures
        forall|j: int|
            0 <= j < render_list(inner, key, vs).len() ==> token_of_keys(
                #[trigger] render_list(inner, key, vs)[j],
                flag_keys(inner, key),
            ),
    decreases inner, vs.len(), 3int,
{
    if vs.len() > 0 {
        assert(renderable(inner, key));
        lemma_render_tokens(inner, key, vs[0]);
        lemma_render_list_tokens(inner, key, vs.drop_first());
        let r0 = render(inner, key, vs[0]);
        let rr = render_list(inner, key, vs.drop_first());
        assert forall|j: int|
            0 <= j < render_list(inner, key, vs).len() implies token_of_keys(
            #[trigger] render_list(inner, key, vs)[j],
            flag_keys(inner, key),
        ) by {
            if j < r0.len() {
                assert(render_list(inner, key, vs)[j] == r0[j]);
            } else {
                assert(render_list(inner, key, vs)[j] == rr[j - r0.len()]);
            }
        }
    }
}

proof fn lemma_render_fields_tokens(fields: Vec<Field>, i: int, prefix: Seq<char>, vs: Seq<ValueV>)
    requires
        fields_renderable(fields, i, prefix),
        fits_fields(fields, i, vs),
    ensures
        forall|j: int|
            0 <= j < render_fields(fields, i, prefix, vs).len() ==> token_of_keys(
                #[trigger] render_fields(fields, i, prefix, vs)[j],
                keys_fields(fields, i, prefix),
            ),
    decreases fields, fields@.len() - i, 2int,
{
    if 0 <= i < fields@.len() {
        let ckey = field_key(prefix, fields@[i]);
        lemma_render_tokens(fields@[i].shape, ckey, vs[i]);
        lemma_render_fields_tokens(fields, i + 1, prefix, vs);
        let r0 = render(fields@[i].shape, ckey, vs[i]);
        let rr = render_fields(fields, i + 1, prefix, vs);
        assert forall|j: int|
            0 <= j < render_fields(fields, i, prefix, vs).len() implies token_of_keys(
            #[trigger] render_fields(fields, i, prefix, vs)[j],
            keys_fields(fields, i, prefix),
        ) by {
            if j < r0.len() {
                assert(render_fields(fields, i, prefix, vs)[j] == r0[j]);
                assert(token_of_keys(r0[j], flag_keys(fields@[i].shape, ckey)));
                let k = choose|k: Seq<char>|
                    #[trigger] flag_keys(fields@[i].shape, ckey).contains(k) && matches_key(
                        k,
                        r0[j],
                    );
                assert(keys_fields(fields, i, prefix).contains(k));
            } else {
                assert(render_fields(fields, i, prefix, vs)[j] == rr[j - r0.len()]);
                assert(token_of_keys(rr[j - r0.len()], keys_fields(fields, i + 1, prefix)));
                let k = choose|k: Seq<char>|
                    #[trigger] keys_fields(fields, i + 1, prefix).contains(k) && matches_key(
                        k,
                        rr[j - r0.len()],
                    );
                assert(keys_fields(fields, i, prefix).contains(k));
            }
        }
    }
}

/// On an argument list none of whose tokens select its flags, a shape that
/// demands input fails reporting a missing flag.
proof fn lemma_missing_unrelated(s: Shape, key: Seq<char>, args: Seq<Seq<char>>)
    requires
        renderable(s, key),
        spec_requires_input(s),
        unrel_tokens(args, flag_keys(s, key)),
    ensures
        spec_parse(s, key, args) matches ParseOut::Failed(e, p) && e is MissingOption,
    decreases s, 0int,
{
    match s {
        Shape::Text | Shape::Path | Shape::Int(_) => {
            lemma_find_flag(key, args);
            assert(set![key].contains(key));
            match find_flag(key, args) {
                Option::Some(j) => {
                    assert(unrel(args[j], flag_keys(s, key)));
                    assert(false);
                },
                Option::None => {
                },
            }
        },
        Shape::Wrapper(inner) => {
            lemma_missing_unrelated(*inner, key, args);
        },
        Shape::Record(fields) => {
            lemma_fields_missing(fields, 0, key, args);
        },
        _ => {
        },
    }
}

proof fn lemma_fields_missing(fields: Vec<Field>, i: int, prefix: Seq<char>, args: Seq<Seq<char>>)
    requires
        fields_renderable(fields, i, prefix),
        crate::shape::any_field_requires(fields, i),
        unrel_tokens(args, keys_fields(fields, i, prefix)),
    ensures
        parse_fields(fields, i, prefix, args) matches FieldsOut::Stopped(e, p) && e
            is MissingOption,
    decreases fields, fields@.len() - i,
{
    let ckey = field_key(prefix, fields@[i]);
    assert forall|j: int| 0 <= j < args.len() implies unrel(
        #[trigger] args[j],
        flag_keys(fields@[i].shape, ckey),
    ) by {
        assert(unrel(args[j], keys_fields(fields, i, prefix)));
        assert forall|k: Seq<char>|
            flag_keys(fields@[i].shape, ckey).contains(k) implies !matches_key(k, args[j]) by {
            assert(keys_fields(fields, i, prefix).contains(k));
        }
    }
    if spec_requires_input(fields@[i].shape) {
        lemma_missing_unrelated(fields@[i].shape, ckey, args);
    } else {
        lemma_empty_unrelated(fields@[i].shape, ckey, args);
        assert forall|j: int| 0 <= j < args.len() implies unrel(
            #[trigger] args[j],
            keys_fields(fields, i + 1, prefix),
        ) by {
            assert(unrel(args[j], keys_fields(fields, i, prefix)));
            assert forall|k: Seq<char>|
                keys_fields(fields, i + 1, prefix).contains(k) implies !matches_key(
                k,
                args[j],
            ) by {
                assert(keys_fields(fields, i, prefix).contains(k));
            }
        }
        lemma_fields_missing(fields, i + 1, prefix, args);
    }
}

/// On an argument list none of whose tokens select its flags, a shape that
/// demands no input succeeds with its empty value, consuming nothing.
proof fn lemma_empty_unrelated(s: Shape, key: Seq<char>, args: Seq<Seq<char>>)
    requires
        renderable(s, key),
        !spec_requires_input(s),
        unrel_tokens(args, flag_keys(s, key)),
    ensures
        spec_parse(s, key, args) == ParseOut::Parsed(empty_value(s), args),
    decreases s, 1int,
{
    match s {
        Shape::Flag => {
            lemma_find_exact(key, args);
            assert(set![key].contains(key));
            match find_exact(key, args) {
                Option::Some(j) => {
                    assert(unrel(args[j], flag_keys(s, key)));
                    assert(matches_key(key, args[j]));
                    assert(false);
                },
                Option::None => {
                },
            }
        },
        Shape::Optional(inner) => {
            lemma_missing_unrelated(*inner, key, args);
            assert(spec_parse(s, key, args) == ParseOut::Parsed(ValueV::Maybe(Option::None), args));
            assert(empty_value(s) == ValueV::Maybe(Option::<Box<ValueV>>::None));
        },
        Shape::Repeated(inner) => {
            assert(renderable(*inner, key));
            lemma_missing_unrelated(*inner, key, args);
            assert(parse_repeat(*inner, key, args) == FieldsOut::Done(Seq::<ValueV>::empty(), args));
            assert(spec_parse(s, key, args) == ParseOut::Parsed(
                ValueV::List(Seq::<ValueV>::empty()),
                args,
            ));
        },
        Shape::Marker => {
            assert(spec_parse(s, key, args) == ParseOut::Parsed(ValueV::Unit, args));
        },
        Shape::Wrapper(inner) => {
            lemma_empty_unrelated(*inner, key, args);
            assert(spec_parse(s, key, args) == ParseOut::Parsed(
                ValueV::Wrapped(Box::new(empty_value(*inner))),
                args,
            ));
        },
        Shape::Record(fields) => {
            assert(!crate::shape::any_field_requires(fields, 0));
            lemma_fields_empty(fields, 0, key, args);
            assert(spec_parse(s, key, args) == ParseOut::Parsed(
                ValueV::Record(empty_values(fields, 0)),
                args,
            ));
        },
        _ => {
            assert(false);
        },
    }
}

proof fn lemma_fields_empty(fields: Vec<Field>, i: int, prefix: Seq<char>, args: Seq<Seq<char>>)
    requires
        fields_renderable(fields, i, prefix),
        !crate::shape::any_field_requires(fields, i),
        0 <= i <= fields@.len(),
        unrel_tokens(args, keys_fields(fields, i, prefix)),
    ensures
        parse_fields(fields, i, prefix, args) == FieldsOut::Done(empty_values(fields, i), args),
    decreases fields, fields@.len() - i,
{
    if i < fields@.len() {
        let ckey = field_key(prefix, fields@[i]);
        assert forall|j: int| 0 <= j < args.len() implies unrel(
            #[trigger] args[j],
            flag_keys(fields@[i].shape, ckey),
        ) by {
            assert(unrel(args[j], keys_fields(fields, i, prefix)));
            assert forall|k: Seq<char>|
                flag_keys(fields@[i].shape, ckey).contains(k) implies !matches_key(k, args[j]) by {
                assert(keys_fields(fields, i, prefix).contains(k));
            }
        }
        lemma_empty_unrelated(fields@[i].shape, ckey, args);
        assert forall|j: int| 0 <= j < args.len() implies unrel(
            #[trigger] args[j],
            keys_fields(fields, i + 1, prefix),
        ) by {
            assert(unrel(args[j], keys_fields(fields, i, prefix)));
            assert forall|k: Seq<char>|
                keys_fields(fields, i + 1, prefix).contains(k) implies !matches_key(
                k,
                args[j],
            ) by {
                assert(keys_fields(fields, i, prefix).contains(k));
            }
        }
        lemma_fields_empty(fields, i + 1, prefix, args);
        assert(ext_fields(
            FieldsOut::Done(empty_values(fields, i + 1), args),
            seq![empty_value(fields@[i].shape)],
            args.len() - args.len(),
        ) == FieldsOut::Done(empty_values(fields, i), args));
    }
}

/// Extracting a rendered `key=value` token gives the value back and leaves
/// exactly the following tokens.
proof fn lemma_take_eq_token(key: Seq<char>, val: Seq<char>, rest: Seq<Seq<char>>)
    requires
        key_clear(key),
    ensures
        take_string(key, seq![key.push('=') + val] + rest) == TokenOut::Got(val, rest),
{
    let t = key.push('=') + val;
    let args = seq![t] + rest;
    assert(args[0] == t);
    lemma_eq_token_matches(key, val);
    assert(matches_key(key, args[0]));
    assert(find_flag(key, args) == Option::Some(0int));
    assert(t.len() > key.len());
    assert(t != key);
    assert(t.skip(key.len() + 1 as int) =~= val);
    assert(args.remove(0) =~= rest);
}

/// Parsing the rendering of a plain leaf consumes exactly its one token,
/// whatever follows.
proof fn lemma_prim_round(s: Shape, key: Seq<char>, v: ValueV, tail: Seq<Seq<char>>)
    requires
        key_clear(key),
        s matches Shape::Text || s matches Shape::Path || s matches Shape::Int(_),
        fits(v, s),
    ensures
        spec_parse(s, key, render(s, key, v) + tail) == ParseOut::Parsed(v, tail),
        render(s, key, v).len() == 1,
{
    match (s, v) {
        (Shape::Text, ValueV::Text(t)) => {
            lemma_take_eq_token(key, t, tail);
        },
        (Shape::Path, ValueV::Path(t)) => {
            lemma_take_eq_token(key, t, tail);
        },
        (Shape::Int(k), ValueV::Unsigned(n)) => {
            lemma_take_eq_token(key, dec_string(n as int), tail);
            lemma_dec_string(n as int);
            assert(int_token_value(k, dec_string(n as int)) == Result::<ValueV, Seq<char>>::Ok(
                int_value(k, n as int),
            ));
            assert(int_value(k, n as int) == v);
        },
        (Shape::Int(k), ValueV::Signed(n)) => {
            lemma_take_eq_token(key, dec_string(n as int), tail);
            lemma_dec_string(n as int);
            assert(int_token_value(k, dec_string(n as int)) == Result::<ValueV, Seq<char>>::Ok(
                int_value(k, n as int),
            ));
            assert(int_value(k, n as int) == v);
        },
        _ => {
            assert(false);
        },
    }
}

proof fn lemma_round_trip_list(inner: Shape, key: Seq<char>, vs: Seq<ValueV>, rest: Seq<Seq<char>>)
    requires
        renderable(Shape::Repeated(Box::new(inner)), key),
        fits_list(vs, inner),
        unrel_tokens(rest, flag_keys(inner, key)),
    ensures
        parse_repeat(inner, key, render_list(inner, key, vs) + rest) == FieldsOut::Done(vs, rest),
    decreases vs.len(),
{
    if vs.len() == 0 {
        assert(render_list(inner, key, vs) + rest =~= rest);
        lemma_missing_unrelated(inner, key, rest);
        assert(vs =~= Seq::<ValueV>::empty());
        assert(parse_repeat(inner, key, rest) == FieldsOut::Done(Seq::empty(), rest));
    } else {
        assert(renderable(inner, key));
        let r0 = render(inner, key, vs[0]);
        let tail = render_list(inner, key, vs.drop_first()) + rest;
        let args = render_list(inner, key, vs) + rest;
        assert(args =~= r0 + tail);
        lemma_prim_round(inner, key, vs[0], tail);
        assert(spec_parse(inner, key, args) == ParseOut::Parsed(vs[0], tail));
        assert(tail.len() < args.len());
        lemma_round_trip_list(inner, key, vs.drop_first(), rest);
        assert(parse_repeat(inner, key, args) == ext_fields(
            parse_repeat(inner, key, tail),
            seq![vs[0]],
            args.len() - tail.len(),
        ));
        assert(seq![vs[0]] + vs.drop_first() =~= vs);
        assert(parse_repeat(inner, key, args) == FieldsOut::Done(vs, rest));
    }
}

/// The law of round-trip parsing: for a renderable shape and a value of that
/// shape, parsing the value's rendering consumes exactly the rendered tokens
/// and yields the value back, whatever unrelated tokens follow.
pub proof fn lemma_round_trip(s: Shape, key: Seq<char>, v: ValueV, rest: Seq<Seq<char>>)
    requires
        renderable(s, key),
        fits(v, s),
        unrel_tokens(rest, flag_keys(s, key)),
    ensures
        spec_parse(s, key, render(s, key, v) + rest) == ParseOut::Parsed(v, rest),
    decreases s, 2int,
{
    match (s, v) {
        (Shape::Text, ValueV::Text(_)) => {
            lemma_prim_round(s, key, v, rest);
        },
        (Shape::Path, ValueV::Path(_)) => {
            lemma_prim_round(s, key, v, rest);
        },
        (Shape::Int(_), ValueV::Unsigned(_)) => {
            lemma_prim_round(s, key, v, rest);
        },
        (Shape::Int(_), ValueV::Signed(_)) => {
            lemma_prim_round(s, key, v, rest);
        },
        (Shape::Flag, ValueV::Flag(b)) => {
            if b {
                let args = seq![key] + rest;
                assert(render(s, key, v) + rest =~= args);
                assert(args[0] == key);
                assert(find_exact(key, args) == Option::Some(0int));
                assert(args.remove(0) =~= rest);
            } else {
                assert(render(s, key, v) + rest =~= rest);
                lemma_find_exact(key, rest);
                assert(set![key].contains(key));
                match find_exact(key, rest) {
                    Option::Some(j) => {
                        assert(unrel(rest[j], flag_keys(s, key)));
                        assert(matches_key(key, rest[j]));
                        assert(false);
                    },
                    Option::None => {
                    },
                }
            }
        },
        (Shape::Marker, ValueV::Unit) => {
            assert(render(s, key, v) + rest =~= rest);
        },
        (Shape::Optional(inner), ValueV::Maybe(o)) => {
            match o {
                Option::Some(b) => {
                    lemma_round_trip(*inner, key, *b, rest);
                },
                Option::None => {
                    assert(render(s, key, v) + rest =~= rest);
                    lemma_missing_unrelated(*inner, key, rest);
                },
            }
        },
        (Shape::Repeated(inner), ValueV::List(vs)) => {
            lemma_round_trip_list(*inner, key, vs, rest);
        },
        (Shape::Wrapper(inner), ValueV::Wrapped(b)) => {
            lemma_round_trip(*inner, key, *b, rest);
        },
        (Shape::Record(fields), ValueV::Record(vs)) => {
            lemma_round_trip_fields(fields, 0, key, vs, rest);
            assert(vs.skip(0) =~= vs);
        },
        _ => {
            assert(false);
        },
    }
}

proof fn lemma_round_trip_fields(
    fields: Vec<Field>,
    i: int,
    prefix: Seq<char>,
    vs: Seq<ValueV>,
    rest: Seq<Seq<char>>,
)
    requires
        renderable(Shape::Record(fields), prefix),
        0 <= i <= fields@.len(),
        vs.len() == fields@.len(),
        fits_fields(fields, i, vs),
        unrel_tokens(rest, keys_fields(fields, 0, prefix)),
    ensures
        parse_fields(fields, i, prefix, render_fields(fields, i, prefix, vs) + rest)
            == FieldsOut::Done(vs.skip(i), rest),
    decreases fields, fields@.len() - i,
{
    if i == fields@.len() {
        assert(render_fields(fields, i, prefix, vs) + rest =~= rest);
        assert(vs.skip(i) =~= Seq::<ValueV>::empty());
    } else {
        let ckey = field_key(prefix, fields@[i]);
        let r0 = render(fields@[i].shape, ckey, vs[i]);
        let tail = render_fields(fields, i + 1, prefix, vs) + rest;
        assert(render_fields(fields, i, prefix, vs) + rest =~= r0 + tail);
        lemma_fields_renderable_at(fields, 0, i, prefix);
        lemma_keys_clear(fields@[i].shape, ckey);
        lemma_keys_fields_clear_at(fields, 0, i + 1, prefix);
        lemma_render_fields_tokens(fields, i + 1, prefix, vs);
        lemma_child_disjoint_rest(fields, i, prefix);
        // every token after this field's rendering is unrelated to its flags
        assert forall|j: int| 0 <= j < tail.len() implies unrel(
            #[trigger] tail[j],
            flag_keys(fields@[i].shape, ckey),
        ) by {
            let rr = render_fields(fields, i + 1, prefix, vs);
            if j < rr.len() {
                assert(tail[j] == rr[j]);
                assert(token_of_keys(rr[j], keys_fields(fields, i + 1, prefix)));
                lemma_unrel_from_disjoint(
                    rr[j],
                    keys_fields(fields, i + 1, prefix),
                    flag_keys(fields@[i].shape, ckey),
                );
            } else {
                assert(tail[j] == rest[j - rr.len()]);
                assert(unrel(rest[j - rr.len()], keys_fields(fields, 0, prefix)));
                lemma_child_keys_subset(fields, 0, i, prefix);
                assert forall|k: Seq<char>|
                    flag_keys(fields@[i].shape, ckey).contains(k) implies !matches_key(
                    k,
                    rest[j - rr.len()],
                ) by {
                    assert(keys_fields(fields, 0, prefix).contains(k));
                }
            }
        }
        assert(renderable(fields@[i].shape, ckey));
        assert(fits(vs[i], fields@[i].shape));
        lemma_round_trip(fields@[i].shape, ckey, vs[i], tail);
        assert(spec_parse(fields@[i].shape, ckey, r0 + tail) == ParseOut::Parsed(vs[i], tail));
        lemma_round_trip_fields(fields, i + 1, prefix, vs, rest);
        assert(parse_fields(fields, i, prefix, r0 + tail) == ext_fields(
            FieldsOut::Done(vs.skip(i + 1), rest),
            seq![vs[i]],
            (r0 + tail).len() - tail.len(),
        ));
        assert(seq![vs[i]] + vs.skip(i + 1) =~= vs.skip(i));
        assert(parse_fields(fields, i, prefix, render_fields(fields, i, prefix, vs) + rest)
            == FieldsOut::Done(vs.skip(i), rest));
    }
}

/// A member of a renderable record is renderable at its own flag name.
proof fn lemma_fields_renderable_at(fields: Vec<Field>, j: int, i: int, prefix: Seq<char>)
    requires
        fields_renderable(fields, j, prefix),
        0 <= j <= i < fields@.len(),
    ensures
        renderable(fields@[i].shape, field_key(prefix, fields@[i])),
        fields_renderable(fields, i, prefix),
    decreases i - j,
{
    if j < i {
        lemma_fields_renderable_at(fields, j + 1, i, prefix);
    }
}

proof fn lemma_keys_fields_clear_at(fields: Vec<Field>, j: int, i: int, prefix: Seq<char>)
    requires
        fields_renderable(fields, j, prefix),
        0 <= j <= i <= fields@.len(),
    ensures
        keys_clear(keys_fields(fields, i, prefix)),
    decreases i - j,
{
    if j < i {
        lemma_keys_fields_clear_at(fields, j + 1, i, prefix);
    } else {
        lemma_keys_fields_clear(fields, i, prefix);
    }
}

/// One member's flags are disjoint from every later member's.
proof fn lemma_child_disjoint_rest(fields: Vec<Field>, i: int, prefix: Seq<char>)
    requires
        renderable(Shape::Record(fields), prefix),
        0 <= i < fields@.len(),
    ensures
        keys_fields(fields, i + 1, prefix).disjoint(
            flag_keys(fields@[i].shape, field_key(prefix, fields@[i])),
        ),
{
    lemma_rest_disjoint(fields, i, i + 1, prefix);
}

proof fn lemma_rest_disjoint(fields: Vec<Field>, i: int, m: int, prefix: Seq<char>)
    requires
        renderable(Shape::Record(fields), prefix),
        0 <= i < fields@.len(),
        i < m <= fields@.len(),
    ensures
        keys_fields(fields, m, prefix).disjoint(
            flag_keys(fields@[i].shape, field_key(prefix, fields@[i])),
        ),
    decreases fields@.len() - m,
{
    let ks_i = flag_keys(fields@[i].shape, field_key(prefix, fields@[i]));
    if m < fields@.len() {
        lemma_rest_disjoint(fields, i, m + 1, prefix);
        assert(ks_i.disjoint(flag_keys(fields@[m].shape, field_key(prefix, fields@[m]))));
        assert forall|k: Seq<char>|
            keys_fields(fields, m, prefix).contains(k) implies !ks_i.contains(k) by {
            if flag_keys(fields@[m].shape, field_key(prefix, fields@[m])).contains(k) {
            } else {
                assert(keys_fields(fields, m + 1, prefix).contains(k));
            }
        }
    }
}

/// A member's flags are among the record's flags.
proof fn lemma_child_keys_subset(fields: Vec<Field>, j: int, i: int, prefix: Seq<char>)
    requires
        0 <= j <= i < fields@.len(),
    ensures
        forall|k: Seq<char>|
            flag_keys(fields@[i].shape, field_key(prefix, fields@[i])).contains(k)
                ==> #[trigger] keys_fields(fields, j, prefix).contains(k),
    decreases i - j,
{
    if j < i {
        lemma_child_keys_subset(fields, j + 1, i, prefix);
        assert forall|k: Seq<char>|
            flag_keys(fields@[i].shape, field_key(prefix, fields@[i])).contains(
                k,
            ) implies #[trigger] keys_fields(fields, j, prefix).contains(k) by {
            assert(keys_fields(fields, j + 1, prefix).contains(k));
        }
    }
}

fn dchar_exec(d: u64) -> (r: char)
    requires
        d < 10,
    ensures
        r == dchar(d as nat),
{
    if d == 0 {
        '0'
    } else if d == 1 {
        '1'
    } else if d == 2 {
        '2'
    } else if d == 3 {
        '3'
    } else if d == 4 {
        '4'
    } else if d == 5 {
        '5'
    } else if d == 6 {
        '6'
    } else if d == 7 {
        '7'
    } else if d == 8 {
        '8'
    } else {
        '9'
    }
}

fn dec_digits_exec(n: u64) -> (r: String)
    ensures
        r@ == dec_digits(n as nat),
    decreases n,
{
    if n < 10 {
        let mut r = String::new();
        push_char(&mut r, dchar_exec(n));
        assert(r@ =~= seq![dchar(n as nat)]);
        r
    } else {
        let mut r = dec_digits_exec(n / 10);
        push_char(&mut r, dchar_exec(n % 10));
        assert(r@ =~= dec_digits((n / 10) as nat).push(dchar((n % 10) as nat)));
        r
    }
}

/// Renders an unsigned integer in decimal.
pub fn format_unsigned(n: u64) -> (r: String)
    ensures
        r@ == dec_string(n as int),
{
    dec_digits_exec(n)
}

/// Renders a signed integer in decimal.
pub fn format_signed(n: i64) -> (r: String)
    ensures
        r@ == dec_string(n as int),
{
    if n >= 0 {
        dec_digits_exec(n as u64)
    } else {
        let mag: u64 = if n == i64::MIN {
            9223372036854775808
        } else {
            (-n) as u64
        };
        assert(mag as int == -(n as int));
        let mut r = String::new();
        push_char(&mut r, '-');
        r.append(dec_digits_exec(mag).as_str());
        assert(r@ =~= seq!['-'] + dec_digits(mag as nat));
        r
    }
}

fn eq_token(key: &str, val: &str) -> (r: String)
    ensures
        r@ == key@.push('=') + val@,
{
    let mut r = str_to_string(key);
    push_char(&mut r, '=');
    r.append(val);
    assert(r@ =~= key@.push('=') + val@);
    r
}

/// Renders a value of a shape to the token sequence its flags accept.
#[verifier::loop_isolation(false)]
pub fn render_tokens(s: &Shape, key: &str, v: &Value) -> (r: Vec<String>)
    ensures
        r.deep_view() == render(*s, key@, v@),
    decreases *s, 0int,
{
    match (s, v) {
        (Shape::Text, Value::Text(t)) => {
            let mut r: Vec<String> = Vec::new();
            r.push(eq_token(key, t.as_str()));
            proof {
                assert(r.deep_view() =~= seq![key@.push('=') + t@]);
            }
            r
        },
        (Shape::Path, Value::Path(t)) => {
            let mut r: Vec<String> = Vec::new();
            r.push(eq_token(key, t.as_str()));
            proof {
                assert(r.deep_view() =~= seq![key@.push('=') + t@]);
            }
            r
        },
        (Shape::Flag, Value::Flag(b)) => {
            let mut r: Vec<String> = Vec::new();
            if *b {
                r.push(str_to_string(key));
                proof {
                    assert(r.deep_view() =~= seq![key@]);
                }
            } else {
                proof {
                    assert(r.deep_view() =~= Seq::<Seq<char>>::empty());
                }
            }
            r
        },
        (Shape::Int(_), Value::Unsigned(n)) => {
            let mut r: Vec<String> = Vec::new();
            r.push(eq_token(key, format_unsigned(*n).as_str()));
            proof {
                assert(r.deep_view() =~= seq![key@.push('=') + dec_string(*n as int)]);
            }
            r
        },
        (Shape::Int(_), Value::Signed(n)) => {
            let mut r: Vec<String> = Vec::new();
            r.push(eq_token(key, format_signed(*n).as_str()));
            proof {
                assert(r.deep_view() =~= seq![key@.push('=') + dec_string(*n as int)]);
            }
            r
        },
        (Shape::Optional(inner), Value::Maybe(o)) => match o {
            Option::None => {
                let r: Vec<String> = Vec::new();
                proof {
                    assert(r.deep_view() =~= Seq::<Seq<char>>::empty());
                }
                r
            },
            Option::Some(b) => render_tokens(inner, key, b),
        },
        (Shape::Repeated(inner), Value::List(vs)) => {
            let mut r: Vec<String> = Vec::new();
            let n = vs.len();
            let mut i: usize = 0;
            proof {
                lemma_view_values(*vs, 0);
                assert(r.deep_view() =~= Seq::<Seq<char>>::empty());
                assert(view_values(*vs, 0).skip(0) =~= view_values(*vs, 0));
            }
            while i < n
                invariant
                    i <= n,
                    n == vs@.len(),
                    render(*s, key@, v@) == r.deep_view() + render_list(
                        **inner,
                        key@,
                        view_values(*vs, 0).skip(i as int),
                    ),
                decreases n - i,
            {
                let sub = render_tokens(inner, key, &vs[i]);
                let ghost pre = r;
                let ghost vals = view_values(*vs, 0);
                proof {
                    assert(vals.skip(i as int)[0] == view_value(vs@[i as int]));
                    assert(vals.skip(i as int).drop_first() =~= vals.skip(i + 1));
                }
                let mut sub = sub;
                let ghost sub0 = sub;
                r.append(&mut sub);
                proof {
                    crate::strutil::lemma_deep_concat(pre, sub0, r);
                    assert(pre.deep_view() + (render(**inner, key@, vals.skip(i as int)[0])
                        + render_list(**inner, key@, vals.skip(i + 1))) =~= (pre.deep_view()
                        + render(**inner, key@, vals.skip(i as int)[0])) + render_list(
                        **inner,
                        key@,
                        vals.skip(i + 1),
                    ));
                }
                i = i + 1;
            }
            proof {
                assert(view_values(*vs, 0).skip(n as int) =~= Seq::<ValueV>::empty());
                assert(r.deep_view() + Seq::<Seq<char>>::empty() =~= r.deep_view());
            }
            r
        },
        (Shape::Marker, Value::Unit) => {
            let r: Vec<String> = Vec::new();
            proof {
                assert(r.deep_view() =~= Seq::<Seq<char>>::empty());
            }
            r
        },
        (Shape::Wrapper(inner), Value::Wrapped(b)) => render_tokens(inner, key, b),
        (Shape::Record(fields), Value::Record(vs)) => {
            let mut r: Vec<String> = Vec::new();
            let n = fields.len();
            let mut i: usize = 0;
            proof {
                lemma_view_values(*vs, 0);
                assert(r.deep_view() =~= Seq::<Seq<char>>::empty());
            }
            while i < n
                invariant
                    i <= n,
                    n == fields@.len(),
                    render(*s, key@, v@) == r.deep_view() + render_fields(
                        *fields,
                        i as int,
                        key@,
                        view_values(*vs, 0),
                    ),
                decreases n - i,
            {
                let ghost vals = view_values(*vs, 0);
                if i < vs.len() {
                    let fname = crate::naming::to_flag_name(fields[i].name.as_str());
                    let ckey = crate::naming::join_prefix(key, fname.as_str());
                    let sub = render_tokens(&fields[i].shape, ckey.as_str(), &vs[i]);
                    let ghost pre = r;
                    proof {
                        assert(vals[i as int] == view_value(vs@[i as int]));
                    }
                    let mut sub = sub;
                    let ghost sub0 = sub;
                    r.append(&mut sub);
                    proof {
                        crate::strutil::lemma_deep_concat(pre, sub0, r);
                        assert(pre.deep_view() + (render(
                            fields@[i as int].shape,
                            field_key(key@, fields@[i as int]),
                            vals[i as int],
                        ) + render_fields(*fields, i + 1, key@, vals)) =~= (pre.deep_view()
                            + render(
                            fields@[i as int].shape,
                            field_key(key@, fields@[i as int]),
                            vals[i as int],
                        )) + render_fields(*fields, i + 1, key@, vals));
                    }
                } else {
                    proof {
                        assert(vals.len() == vs@.len());
                        assert(render_fields(*fields, i as int, key@, vals)
                            =~= Seq::<Seq<char>>::empty());
                        assert(render_fields(*fields, i + 1, key@, vals)
                            =~= Seq::<Seq<char>>::empty());
                    }
                }
                i = i + 1;
            }
            proof {
                assert(render_fields(*fields, n as int, key@, view_values(*vs, 0))
                    =~= Seq::<Seq<char>>::empty());
                assert(r.deep_view() + Seq::<Seq<char>>::empty() =~= r.deep_view());
            }
            r
        },
        _ => {
            let r: Vec<String> = Vec::new();
            proof {
                lemma_view_tag(*v);
                lemma_render_mismatch_empty(*s, key@, v@);
                assert(r.deep_view() =~= Seq::<Seq<char>>::empty());
            }
            r
        },
    }
}

/// A value and its view are of corresponding constructors.
proof fn lemma_view_tag(v: Value)
    ensures
        (v is Text <==> view_value(v) is Text),
        (v is Path <==> view_value(v) is Path),
        (v is Flag <==> view_value(v) is Flag),
        (v is Float <==> view_value(v) is Float),
        (v is Unsigned <==> view_value(v) is Unsigned),
        (v is Signed <==> view_value(v) is Signed),
        (v is Maybe <==> view_value(v) is Maybe),
        (v is List <==> view_value(v) is List),
        (v is Record <==> view_value(v) is Record),
        (v is Wrapped <==> view_value(v) is Wrapped),
        (v is Unit <==> view_value(v) is Unit),
        (v is Choice <==> view_value(v) is Choice),
{
    match v {
        Value::Text(_) => {
        },
        Value::Path(_) => {
        },
        Value::Flag(_) => {
        },
        Value::Float(_) => {
        },
        Value::Unsigned(_) => {
        },
        Value::Signed(_) => {
        },
        Value::Maybe(_) => {
        },
        Value::List(_) => {
        },
        Value::Record(_) => {
        },
        Value::Wrapped(_) => {
        },
        Value::Unit => {
        },
        Value::Choice(_, _) => {
        },
    }
}

/// On a value of another shape the serializer produces nothing.
proof fn lemma_render_mismatch_empty(s: Shape, key: Seq<char>, v: ValueV)
    ensures
        !fits_shallow(s, v) ==> render(s, key, v) == Seq::<Seq<char>>::empty(),
{
}

/// Whether the value's outermost constructor agrees with the shape's.
pub open spec fn fits_shallow(s: Shape, v: ValueV) -> bool {
    match (s, v) {
        (Shape::Text, ValueV::Text(_)) => true,
        (Shape::Path, ValueV::Path(_)) => true,
        (Shape::Flag, ValueV::Flag(_)) => true,
        (Shape::Int(_), ValueV::Unsigned(_)) => true,
        (Shape::Int(_), ValueV::Signed(_)) => true,
        (Shape::Optional(_), ValueV::Maybe(_)) => true,
        (Shape::Repeated(_), ValueV::List(_)) => true,
        (Shape::Marker, ValueV::Unit) => true,
        (Shape::Wrapper(_), ValueV::Wrapped(_)) => true,
        (Shape::Record(_), ValueV::Record(_)) => true,
        _ => false,
    }
}

/// The law of round-trip parsing at the root: rendering a value of a
/// renderable shape and parsing the whole token list back yields exactly
/// that value, with every token consumed.
pub proof fn lemma_round_trip_drained(s: Shape, v: ValueV)
    requires
        renderable(s, Seq::empty()),
        fits(v, s),
    ensures
        spec_parse_from(s, render(s, Seq::empty(), v)) == Result::<ValueV, ErrorV>::Ok(v),
{
    let r = render(s, Seq::empty(), v);
    assert(r + Seq::<Seq<char>>::empty() =~= r);
    lemma_round_trip(s, Seq::empty(), v, Seq::empty());
}

} // verus!
