//! Rendering usage fragments and help text, mirroring the parse algorithm
//! shape for shape at the same prefixes.

use vstd::prelude::*;
use vstd::string::StrSliceExecFns;
use vstd::string::StringExecFns;
use crate::naming::join_prefix;
use crate::naming::spec_join_prefix;
use crate::naming::spec_to_flag_name;
use crate::naming::spec_variant_to_flag_name;
use crate::naming::to_flag_name;
use crate::naming::variant_to_flag_name;
use crate::shape::Field;
use crate::shape::IntKind;
use crate::shape::Shape;
use crate::shape::requires_input;
use crate::shape::spec_requires_input;
use crate::strutil::str_to_string;

verus! {

broadcast use vstd::std_specs::vec::axiom_vec_index_decreases;

/// The type placeholder shown for an integer leaf.
pub open spec fn spec_int_placeholder(k: IntKind) -> Seq<char> {
    match k {
        IntKind::U8 => "u8"@,
        IntKind::U16 => "u16"@,
        IntKind::U32 => "u32"@,
        IntKind::U64 => "u64"@,
        IntKind::Usize => "usize"@,
        IntKind::I8 => "i8"@,
        IntKind::I16 => "i16"@,
        IntKind::I32 => "i32"@,
        IntKind::I64 => "i64"@,
        IntKind::Isize => "isize"@,
    }
}

/// A leaf fragment: the type placeholder, after the flag name when there is
/// one.
pub open spec fn spec_leaf_help(key: Seq<char>, name: Seq<char>) -> Seq<char> {
    if key.len() == 0 {
        name
    } else {
        key + " "@ + name
    }
}

/// The compact one-line usage fragment of a shape at a flag name.
pub open spec fn spec_tiny_help(s: Shape, key: Seq<char>) -> Seq<char>
    decreases s, 0int,
{
    match s {
        Shape::Text => spec_leaf_help(key, "STRING"@),
        Shape::Path => spec_leaf_help(key, "PATH"@),
        Shape::Flag => spec_leaf_help(key, "STRING"@),
        Shape::Float => spec_leaf_help(key, "FLOAT"@),
        Shape::Int(k) => spec_leaf_help(key, spec_int_placeholder(k)),
        Shape::Optional(inner) => "["@ + spec_tiny_help(*inner, key) + "]"@,
        Shape::Repeated(inner) => if key.len() == 0 {
            spec_tiny_help(*inner, key) + "..."@
        } else {
            spec_tiny_help(*inner, key) + " ..."@
        },
        Shape::Marker => Seq::empty(),
        Shape::Wrapper(inner) => spec_tiny_help(*inner, key),
        Shape::Record(fields) => spec_tiny_fields(fields, 0, key, Seq::empty()),
        Shape::Alternatives(vars) => spec_tiny_variants(vars, 0, key, "( "@),
    }
}

/// The usage fragments of a record's fields, each preceded by a space.
pub open spec fn spec_tiny_fields(
    fields: Vec<Field>,
    i: int,
    prefix: Seq<char>,
    acc: Seq<char>,
) -> Seq<char>
    decreases fields, fields@.len() - i, 1int,
{
    if i < 0 || i >= fields@.len() {
        acc
    } else {
        let ckey = spec_join_prefix(prefix, spec_to_flag_name(fields@[i].name@));
        spec_tiny_fields(fields, i + 1, prefix, acc + " "@ + spec_tiny_help(fields@[i].shape, ckey))
    }
}

/// One variant's usage fragment: its presence flag where the variant alone
/// would not demand input, then its contents' fragments.
pub open spec fn spec_variant_tiny(s: Shape, vkey: Seq<char>) -> Seq<char>
    decreases s, 1int,
{
    match s {
        Shape::Marker => vkey,
        Shape::Record(fields) => {
            let lead = if !spec_requires_input(s) {
                vkey + " "@
            } else {
                Seq::<char>::empty()
            };
            spec_tiny_fields(fields, 0, vkey, lead)
        },
        _ => spec_tiny_help(s, vkey),
    }
}

/// The alternatives fragment: variants separated by `|`, in parentheses.
pub open spec fn spec_tiny_variants(
    vars: Vec<Field>,
    i: int,
    prefix: Seq<char>,
    acc: Seq<char>,
) -> Seq<char>
    decreases vars, vars@.len() - i, 2int,
{
    if i < 0 || i >= vars@.len() {
        let trimmed = if acc.len() >= 3 {
            acc.take(acc.len() - 3)
        } else {
            Seq::<char>::empty()
        };
        trimmed + " )"@
    } else {
        let vkey = spec_join_prefix(prefix, spec_variant_to_flag_name(vars@[i].name@));
        spec_tiny_variants(
            vars,
            i + 1,
            prefix,
            acc + spec_variant_tiny(vars@[i].shape, vkey) + " | "@,
        )
    }
}

/// Whether a line holds nothing but spaces and tabs.
pub open spec fn is_blank_line(s: Seq<char>) -> bool {
    forall|i: int| 0 <= i < s.len() ==> s[i] == ' ' || s[i] == '\t'
}

/// The position of the first line break.
pub open spec fn find_newline(s: Seq<char>) -> Option<int>
    decreases s.len(),
{
    if s.len() == 0 {
        Option::None
    } else if s[0] == '\n' {
        Option::Some(0)
    } else {
        match find_newline(s.drop_first()) {
            Option::Some(i) => Option::Some(i + 1),
            Option::None => Option::None,
        }
    }
}

/// The first non-blank line of a documentation text; empty when every line
/// is blank.
pub open spec fn first_doc_line(d: Seq<char>) -> Seq<char>
    decreases d.len(),
{
    match find_newline(d) {
        Option::None => if is_blank_line(d) {
            Seq::<char>::empty()
        } else {
            d
        },
        Option::Some(i) => if is_blank_line(d.take(i)) {
            if 0 <= i < d.len() {
                first_doc_line(d.skip(i + 1))
            } else {
                Seq::<char>::empty()
            }
        } else {
            d.take(i)
        },
    }
}

/// Appends a line break unless the text already ends with one.
pub open spec fn ensure_newline(s: Seq<char>) -> Seq<char> {
    if s.len() > 0 && s.last() == '\n' {
        s
    } else {
        s + "\n"@
    }
}

/// The multi-line help block of a shape at a flag name, with the first
/// non-blank line of its documentation attached after its fragment.
pub open spec fn spec_help_message(s: Shape, key: Seq<char>, doc: Seq<char>) -> Seq<char>
    decreases s, 0int,
{
    match s {
        Shape::Wrapper(inner) => spec_help_message(*inner, key, doc),
        Shape::Record(fields) => spec_help_fields(fields, 0, key, Seq::empty()),
        Shape::Alternatives(vars) => spec_help_variants(vars, 0, key, "\tEITHER\t\n"@),
        _ => "    "@ + spec_tiny_help(s, key) + "  "@ + first_doc_line(doc),
    }
}

/// The help blocks of a record's fields, each ending in a line break.
pub open spec fn spec_help_fields(
    fields: Vec<Field>,
    i: int,
    prefix: Seq<char>,
    acc: Seq<char>,
) -> Seq<char>
    decreases fields, fields@.len() - i, 1int,
{
    if i < 0 || i >= fields@.len() {
        acc
    } else {
        let ckey = spec_join_prefix(prefix, spec_to_flag_name(fields@[i].name@));
        let block = spec_help_message(fields@[i].shape, ckey, fields@[i].doc@);
        spec_help_fields(fields, i + 1, prefix, ensure_newline(acc + block))
    }
}

/// One variant's help block.
pub open spec fn spec_variant_help(s: Shape, vkey: Seq<char>, vdoc: Seq<char>) -> Seq<char>
    decreases s, 1int,
{
    match s {
        Shape::Marker => vkey + " "@ + first_doc_line(vdoc) + "\n"@,
        Shape::Record(fields) => {
            let lead = if !spec_requires_input(s) {
                vkey + " "@ + first_doc_line(vdoc)
            } else {
                Seq::<char>::empty()
            };
            spec_help_fields(fields, 0, vkey, lead)
        },
        _ => spec_help_message(s, vkey, vdoc),
    }
}

/// The variants' help blocks, separated by `OR` marker lines.
pub open spec fn spec_help_variants(
    vars: Vec<Field>,
    i: int,
    prefix: Seq<char>,
    acc: Seq<char>,
) -> Seq<char>
    decreases vars, vars@.len() - i, 2int,
{
    if i < 0 || i >= vars@.len() {
        let trimmed = if acc.len() >= 5 {
            acc.take(acc.len() - 5)
        } else {
            Seq::<char>::empty()
        };
        trimmed + "\t\t"@
    } else {
        let vkey = spec_join_prefix(prefix, spec_variant_to_flag_name(vars@[i].name@));
        let block = spec_variant_help(vars@[i].shape, vkey, vars@[i].doc@);
        spec_help_variants(vars, i + 1, prefix, ensure_newline(acc + block) + "\tOR\t\n"@)
    }
}

/// Keeps all but the last `n` characters of a string.
fn drop_last_chars(s: &String, n: usize) -> (r: String)
    ensures
        r@ == if s@.len() >= n {
            s@.take(s@.len() - n as int)
        } else {
            Seq::<char>::empty()
        },
{
    let len = s.as_str().unicode_len();
    if len >= n {
        str_to_string(s.as_str().substring_char(0, len - n))
    } else {
        String::new()
    }
}

/// Appends a line break unless the text already ends with one.
fn ensure_newline_exec(s: String) -> (r: String)
    ensures
        r@ == ensure_newline(s@),
{
    let len = s.as_str().unicode_len();
    if len > 0 && s.as_str().get_char(len - 1) == '\n' {
        s
    } else {
        let mut r = s;
        r.append("\n");
        r
    }
}

/// The first non-blank line of a documentation text.
#[verifier::loop_isolation(false)]
pub fn first_doc_line_exec(doc: &str) -> (r: String)
    ensures
        r@ == first_doc_line(doc@),
    decreases doc@.len(),
{
    let n = doc.unicode_len();
    let mut i: usize = 0;
    let mut blank = true;
    while i < n && doc.get_char(i) != '\n'
        invariant
            i <= n,
            n == doc@.len(),
            forall|j: int| 0 <= j < i ==> doc@[j] != '\n',
            blank == is_blank_line(doc@.take(i as int)),
        decreases n - i,
    {
        let c = doc.get_char(i);
        if !(c == ' ' || c == '\t') {
            blank = false;
            assert(doc@.take(i + 1)[i as int] == c);
            assert(!is_blank_line(doc@.take(i + 1)));
        } else {
            proof {
                if blank {
                    assert forall|j: int|
                        0 <= j < i + 1 implies (#[trigger] doc@.take(i + 1)[j]) == ' ' || doc@.take(
                        i + 1,
                    )[j] == '\t' by {
                        if j < i {
                            assert(doc@.take(i as int)[j] == doc@[j]);
                        } else {
                            assert(doc@.take(i + 1)[j] == doc@[i as int]);
                        }
                    }
                } else {
                    assert(exists|j0: int|
                        0 <= j0 < i && !(doc@.take(i as int)[j0] == ' ' || doc@.take(i as int)[j0]
                            == '\t'));
                    let j0 = choose|j0: int|
                        0 <= j0 < i && !(doc@.take(i as int)[j0] == ' ' || doc@.take(i as int)[j0]
                            == '\t');
                    assert(doc@.take(i as int)[j0] == doc@[j0]);
                    assert(doc@.take(i + 1)[j0] == doc@[j0]);
                    assert(!is_blank_line(doc@.take(i + 1)));
                }
            }
        }
        i = i + 1;
    }
    proof {
        lemma_find_newline(doc@);
    }
    if i == n {
        proof {
            assert(doc@.take(n as int) =~= doc@);
        }
        if blank {
            String::new()
        } else {
            str_to_string(doc)
        }
    } else {
        proof {
            assert(doc@[i as int] == '\n');
            match find_newline(doc@) {
                Option::Some(k) => {
                    assert(!(k < i) && !(i < k));
                },
                Option::None => {
                    assert(false);
                },
            }
        }
        if blank {
            let rest = doc.substring_char(i + 1, n);
            proof {
                assert(rest@ =~= doc@.skip(i + 1));
            }
            first_doc_line_exec(rest)
        } else {
            str_to_string(doc.substring_char(0, i))
        }
    }
}

proof fn lemma_find_newline(s: Seq<char>)
    ensures
        match find_newline(s) {
            Option::Some(i) => 0 <= i < s.len() && s[i] == '\n' && forall|j: int|
                0 <= j < i ==> s[j] != '\n',
            Option::None => forall|j: int| 0 <= j < s.len() ==> s[j] != '\n',
        },
    decreases s.len(),
{
    if s.len() > 0 && s[0] != '\n' {
        lemma_find_newline(s.drop_first());
        match find_newline(s.drop_first()) {
            Option::Some(i2) => {
                assert(s[i2 + 1] == s.drop_first()[i2]);
                assert forall|j: int| 0 <= j < i2 + 1 implies s[j] != '\n' by {
                    if j > 0 {
                        assert(s[j] == s.drop_first()[j - 1]);
                    }
                }
            },
            Option::None => {
                assert forall|j: int| 0 <= j < s.len() implies s[j] != '\n' by {
                    if j > 0 {
                        assert(s[j] == s.drop_first()[j - 1]);
                    }
                }
            },
        }
    }
}

/// The compact one-line usage fragment of a shape at a flag name.
#[verifier::loop_isolation(false)]
pub fn tiny_help(s: &Shape, key: &str) -> (r: String)
    ensures
        r@ == spec_tiny_help(*s, key@),
    decreases *s, 0int,
{
    match s {
        Shape::Text => leaf_help(key, "STRING"),
        Shape::Path => leaf_help(key, "PATH"),
        Shape::Flag => leaf_help(key, "STRING"),
        Shape::Float => leaf_help(key, "FLOAT"),
        Shape::Int(k) => leaf_help(key, int_placeholder(*k)),
        Shape::Optional(inner) => {
            let mut r = str_to_string("[");
            r.append(tiny_help(inner, key).as_str());
            r.append("]");
            assert(r@ =~= spec_tiny_help(*s, key@));
            r
        },
        Shape::Repeated(inner) => {
            let mut r = tiny_help(inner, key);
            if key.unicode_len() == 0 {
                r.append("...");
            } else {
                r.append(" ...");
            }
            r
        },
        Shape::Marker => {
            let r = String::new();
            r
        },
        Shape::Wrapper(inner) => tiny_help(inner, key),
        Shape::Record(fields) => tiny_fields(fields, key, String::new()),
        Shape::Alternatives(vars) => tiny_variants(vars, key, str_to_string("( ")),
    }
}

fn int_placeholder(k: IntKind) -> (r: &'static str)
    ensures
        r@ == spec_int_placeholder(k),
{
    match k {
        IntKind::U8 => "u8",
        IntKind::U16 => "u16",
        IntKind::U32 => "u32",
        IntKind::U64 => "u64",
        IntKind::Usize => "usize",
        IntKind::I8 => "i8",
        IntKind::I16 => "i16",
        IntKind::I32 => "i32",
        IntKind::I64 => "i64",
        IntKind::Isize => "isize",
    }
}

fn leaf_help(key: &str, name: &str) -> (r: String)
    ensures
        r@ == spec_leaf_help(key@, name@),
{
    if key.unicode_len() == 0 {
        str_to_string(name)
    } else {
        let mut r = str_to_string(key);
        r.append(" ");
        r.append(name);
        assert(r@ =~= key@ + " "@ + name@);
        r
    }
}

#[verifier::loop_isolation(false)]
fn tiny_fields(fields: &Vec<Field>, prefix: &str, acc: String) -> (r: String)
    ensures
        r@ == spec_tiny_fields(*fields, 0, prefix@, acc@),
    decreases *fields, 0int,
{
    let n = fields.len();
    let mut out = acc;
    let mut i: usize = 0;
    while i < n
        invariant
            i <= n,
            n == fields@.len(),
            spec_tiny_fields(*fields, 0, prefix@, acc@) == spec_tiny_fields(
                *fields,
                i as int,
                prefix@,
                out@,
            ),
        decreases n - i,
    {
        let fname = to_flag_name(fields[i].name.as_str());
        let ckey = join_prefix(prefix, fname.as_str());
        out.append(" ");
        out.append(tiny_help(&fields[i].shape, ckey.as_str()).as_str());
        i = i + 1;
    }
    out
}

/// One variant's usage fragment.
#[verifier::loop_isolation(false)]
fn variant_tiny(s: &Shape, vkey: &str) -> (r: String)
    ensures
        r@ == spec_variant_tiny(*s, vkey@),
    decreases *s, 1int,
{
    match s {
        Shape::Marker => str_to_string(vkey),
        Shape::Record(fields) => {
            let lead = if !requires_input(s) {
                let mut l = str_to_string(vkey);
                l.append(" ");
                assert(l@ =~= vkey@ + " "@);
                l
            } else {
                String::new()
            };
            tiny_fields(fields, vkey, lead)
        },
        _ => tiny_help(s, vkey),
    }
}

#[verifier::loop_isolation(false)]
fn tiny_variants(vars: &Vec<Field>, prefix: &str, acc: String) -> (r: String)
    ensures
        r@ == spec_tiny_variants(*vars, 0, prefix@, acc@),
    decreases *vars, 0int,
{
    let n = vars.len();
    let mut out = acc;
    let mut i: usize = 0;
    while i < n
        invariant
            i <= n,
            n == vars@.len(),
            spec_tiny_variants(*vars, 0, prefix@, acc@) == spec_tiny_variants(
                *vars,
                i as int,
                prefix@,
                out@,
            ),
        decreases n - i,
    {
        let vname = variant_to_flag_name(vars[i].name.as_str());
        let vkey = join_prefix(prefix, vname.as_str());
        out.append(variant_tiny(&vars[i].shape, vkey.as_str()).as_str());
        out.append(" | ");
        i = i + 1;
    }
    let trimmed = drop_last_chars(&out, 3);
    let mut r = trimmed;
    r.append(" )");
    r
}

/// The multi-line help block of a shape at a flag name.
#[verifier::loop_isolation(false)]
pub fn help_message(s: &Shape, key: &str, doc: &str) -> (r: String)
    ensures
        r@ == spec_help_message(*s, key@, doc@),
    decreases *s, 0int,
{
    match s {
        Shape::Wrapper(inner) => help_message(inner, key, doc),
        Shape::Record(fields) => help_fields(fields, key, String::new()),
        Shape::Alternatives(vars) => help_variants(vars, key, str_to_string("\tEITHER\t\n")),
        _ => {
            let mut r = str_to_string("    ");
            r.append(tiny_help(s, key).as_str());
            r.append("  ");
            r.append(first_doc_line_exec(doc).as_str());
            assert(r@ =~= "    "@ + spec_tiny_help(*s, key@) + "  "@ + first_doc_line(doc@));
            r
        },
    }
}

#[verifier::loop_isolation(false)]
fn help_fields(fields: &Vec<Field>, prefix: &str, acc: String) -> (r: String)
    ensures
        r@ == spec_help_fields(*fields, 0, prefix@, acc@),
    decreases *fields, 0int,
{
    let n = fields.len();
    let mut out = acc;
    let mut i: usize = 0;
    while i < n
        invariant
            i <= n,
            n == fields@.len(),
            spec_help_fields(*fields, 0, prefix@, acc@) == spec_help_fields(
                *fields,
                i as int,
                prefix@,
                out@,
            ),
        decreases n - i,
    {
        let fname = to_flag_name(fields[i].name.as_str());
        let ckey = join_prefix(prefix, fname.as_str());
        out.append(help_message(&fields[i].shape, ckey.as_str(), fields[i].doc.as_str()).as_str());
        out = ensure_newline_exec(out);
        i = i + 1;
    }
    out
}

/// One variant's help block.
#[verifier::loop_isolation(false)]
fn variant_help(s: &Shape, vkey: &str, vdoc: &str) -> (r: String)
    ensures
        r@ == spec_variant_help(*s, vkey@, vdoc@),
    decreases *s, 1int,
{
    match s {
        Shape::Marker => {
            let mut r = str_to_string(vkey);
            r.append(" ");
            r.append(first_doc_line_exec(vdoc).as_str());
            r.append("\n");
            assert(r@ =~= vkey@ + " "@ + first_doc_line(vdoc@) + "\n"@);
            r
        },
        Shape::Record(fields) => {
            let lead = if !requires_input(s) {
                let mut l = str_to_string(vkey);
                l.append(" ");
                l.append(first_doc_line_exec(vdoc).as_str());
                assert(l@ =~= vkey@ + " "@ + first_doc_line(vdoc@));
                l
            } else {
                String::new()
            };
            help_fields(fields, vkey, lead)
        },
        _ => help_message(s, vkey, vdoc),
    }
}

#[verifier::loop_isolation(false)]
fn help_variants(vars: &Vec<Field>, prefix: &str, acc: String) -> (r: String)
    ensures
        r@ == spec_help_variants(*vars, 0, prefix@, acc@),
    decreases *vars, 0int,
{
    let n = vars.len();
    let mut out = acc;
    let mut i: usize = 0;
    while i < n
        invariant
            i <= n,
            n == vars@.len(),
            spec_help_variants(*vars, 0, prefix@, acc@) == spec_help_variants(
                *vars,
                i as int,
                prefix@,
                out@,
            ),
        decreases n - i,
    {
        let vname = variant_to_flag_name(vars[i].name.as_str());
        let vkey = join_prefix(prefix, vname.as_str());
        out.append(variant_help(&vars[i].shape, vkey.as_str(), vars[i].doc.as_str()).as_str());
        out = ensure_newline_exec(out);
        out.append("\tOR\t\n");
        i = i + 1;
    }
    let trimmed = drop_last_chars(&out, 5);
    let mut r = trimmed;
    r.append("\t\t");
    r
}

/// The one-line usage text for a whole command.
pub open spec fn spec_usage(s: Shape, program: Seq<char>) -> Seq<char> {
    "USAGE:\n    "@ + program + " "@ + spec_tiny_help(s, Seq::empty())
        + "\n\nFor more information try --help"@
}

/// The full help text for a whole command: the usage line, then the
/// recursively rendered documentation block.
pub open spec fn spec_help(s: Shape, program: Seq<char>) -> Seq<char> {
    "USAGE:\n    "@ + program + " "@ + spec_tiny_help(s, Seq::empty()) + "\n\n"@
        + spec_help_message(s, Seq::empty(), Seq::empty())
        + "\n\nFor more information try --help"@
}

/// Renders the usage text for a command named `program`.
pub fn usage(s: &Shape, program: &str) -> (r: String)
    ensures
        r@ == spec_usage(*s, program@),
{
    proof {
        reveal_strlit("");
        assert(""@ =~= Seq::<char>::empty());
    }
    let mut r = str_to_string("USAGE:\n    ");
    r.append(program);
    r.append(" ");
    r.append(tiny_help(s, "").as_str());
    r.append("\n\nFor more information try --help");
    assert(r@ =~= spec_usage(*s, program@));
    r
}

/// Renders the help text for a command named `program`.
pub fn help(s: &Shape, program: &str) -> (r: String)
    ensures
        r@ == spec_help(*s, program@),
{
    proof {
        reveal_strlit("");
        assert(""@ =~= Seq::<char>::empty());
    }
    let mut r = str_to_string("USAGE:\n    ");
    r.append(program);
    r.append(" ");
    r.append(tiny_help(s, "").as_str());
    r.append("\n\n");
    r.append(help_message(s, "", "").as_str());
    r.append("\n\nFor more information try --help");
    assert(r@ =~= spec_help(*s, program@));
    r
}

} // verus!
