//! The naming engine: pure conversions from identifier-style names to flag
//! tokens, and composition of a parent prefix with a child name.

use vstd::prelude::*;
use vstd::string::StrSliceExecFns;
use vstd::string::StringExecFns;
use crate::strutil::push_char;

verus! {

/// An ASCII capital letter.
pub open spec fn is_upper(c: char) -> bool {
    'A' <= c && c <= 'Z'
}

/// ASCII lowercasing of a single character; anything but a capital letter is
/// left alone.
pub open spec fn lower_char(c: char) -> char {
    if is_upper(c) {
        ((c as u32) + 32) as char
    } else {
        c
    }
}

/// Underscores become hyphens; other characters are kept.
pub open spec fn dash_char(c: char) -> char {
    if c == '_' {
        '-'
    } else {
        c
    }
}

/// The field-name rule: a leading underscore hides the name entirely, other
/// underscores become hyphens, and one trailing separator is stripped.
pub open spec fn spec_to_flag_name(name: Seq<char>) -> Seq<char> {
    if name.len() > 0 && name[0] == '_' {
        Seq::empty()
    } else {
        let m = name.map_values(|c: char| dash_char(c));
        if m.len() > 0 && m.last() == '-' {
            m.drop_last()
        } else {
            m
        }
    }
}

/// Capitalized-word style to hyphen-separated lowercase: a hyphen is inserted
/// before each capital that does not follow another capital.  `prev_cap`
/// says whether the character before `s` was a capital (true at the start of
/// a name, so no leading hyphen appears).
pub open spec fn camel_kebab(s: Seq<char>, prev_cap: bool) -> Seq<char>
    decreases s.len(),
{
    if s.len() == 0 {
        Seq::empty()
    } else {
        let c = s[0];
        let rest = camel_kebab(s.drop_first(), is_upper(c));
        if !prev_cap && is_upper(c) {
            seq!['-', lower_char(c)] + rest
        } else {
            seq![lower_char(c)] + rest
        }
    }
}

/// The variant-name rule: a leading underscore hides the name; a name with
/// an underscore follows the field-name rule; otherwise capitalized-word
/// style is converted to hyphen-separated lowercase.
pub open spec fn spec_variant_to_flag_name(name: Seq<char>) -> Seq<char> {
    if name.len() > 0 && name[0] == '_' {
        Seq::empty()
    } else if exists|i: int| 0 <= i < name.len() && name[i] == '_' {
        spec_to_flag_name(name)
    } else {
        camel_kebab(name, true)
    }
}

/// Removes every trailing separator from a prefix.
pub open spec fn strip_trailing_dashes(p: Seq<char>) -> Seq<char>
    decreases p.len(),
{
    if p.len() > 0 && p.last() == '-' {
        strip_trailing_dashes(p.drop_last())
    } else {
        p
    }
}

/// Prefix composition: an empty child name collapses into the parent prefix
/// (with any trailing flag marker removed); otherwise the child name is
/// appended, joined by a hyphen unless the prefix already ends in the flag
/// marker, with the `--` marker supplied when the prefix is empty.
pub open spec fn spec_join_prefix(prefix: Seq<char>, name: Seq<char>) -> Seq<char> {
    if name.len() == 0 {
        strip_trailing_dashes(prefix)
    } else if prefix.len() == 0 {
        seq!['-', '-'] + name
    } else if prefix.last() == '-' {
        prefix + name
    } else {
        prefix + seq!['-'] + name
    }
}

fn is_upper_exec(c: char) -> (r: bool)
    ensures
        r == is_upper(c),
{
    'A' <= c && c <= 'Z'
}

fn lower_char_exec(c: char) -> (r: char)
    ensures
        r == lower_char(c),
{
    match c {
        'A' => 'a',
        'B' => 'b',
        'C' => 'c',
        'D' => 'd',
        'E' => 'e',
        'F' => 'f',
        'G' => 'g',
        'H' => 'h',
        'I' => 'i',
        'J' => 'j',
        'K' => 'k',
        'L' => 'l',
        'M' => 'm',
        'N' => 'n',
        'O' => 'o',
        'P' => 'p',
        'Q' => 'q',
        'R' => 'r',
        'S' => 's',
        'T' => 't',
        'U' => 'u',
        'V' => 'v',
        'W' => 'w',
        'X' => 'x',
        'Y' => 'y',
        'Z' => 'z',
        _ => c,
    }
}

/// Converts a field identifier to its flag name: `min_T` becomes `min-T`,
/// a leading underscore hides the name, a trailing underscore is stripped.
pub fn to_flag_name(name: &str) -> (r: String)
    ensures
        r@ == spec_to_flag_name(name@),
{
    let n = name.unicode_len();
    if n > 0 && name.get_char(0) == '_' {
        return String::new();
    }
    let ghost m = name@.map_values(|c: char| dash_char(c));
    let keep: usize = if n > 0 && (name.get_char(n - 1) == '_' || name.get_char(n - 1) == '-') {
        proof {
            assert(m.last() == dash_char(name@.last()));
        }
        n - 1
    } else {
        assert(n > 0 ==> m.last() == dash_char(name@.last()));
        n
    };
    let mut out = String::new();
    let mut i: usize = 0;
    while i < keep
        invariant
            i <= keep <= n,
            n == name@.len(),
            m == name@.map_values(|c: char| dash_char(c)),
            out@ =~= m.take(i as int),
        decreases keep - i,
    {
        let c = name.get_char(i);
        push_char(&mut out, if c == '_' { '-' } else { c });
        assert(out@ =~= m.take(i + 1));
        i = i + 1;
    }
    proof {
        if keep < n {
            assert(m.drop_last() =~= m.take(keep as int));
        } else {
            assert(m =~= m.take(keep as int));
        }
    }
    out
}

/// Converts a variant identifier to its flag name: `CellWidth` becomes
/// `cell-width`; a name containing an underscore follows the field rule.
pub fn variant_to_flag_name(name: &str) -> (r: String)
    ensures
        r@ == spec_variant_to_flag_name(name@),
{
    let n = name.unicode_len();
    if n > 0 && name.get_char(0) == '_' {
        return String::new();
    }
    let mut has_underscore = false;
    let mut i: usize = 0;
    while i < n
        invariant
            i <= n,
            n == name@.len(),
            has_underscore == exists|j: int| 0 <= j < i && name@[j] == '_',
        decreases n - i,
    {
        if name.get_char(i) == '_' {
            has_underscore = true;
        }
        i = i + 1;
    }
    if has_underscore {
        return to_flag_name(name);
    }
    let mut out = String::new();
    let mut prev_cap = true;
    let mut i: usize = 0;
    assert(name@.skip(0) =~= name@);
    while i < n
        invariant
            i <= n,
            n == name@.len(),
            camel_kebab(name@, true) =~= out@ + camel_kebab(name@.skip(i as int), prev_cap),
        decreases n - i,
    {
        let c = name.get_char(i);
        proof {
            assert(name@.skip(i as int)[0] == name@[i as int]);
            assert(name@.skip(i as int).drop_first() =~= name@.skip(i + 1));
        }
        if !prev_cap && is_upper_exec(c) {
            push_char(&mut out, '-');
            push_char(&mut out, lower_char_exec(c));
        } else {
            push_char(&mut out, lower_char_exec(c));
        }
        prev_cap = is_upper_exec(c);
        i = i + 1;
    }
    assert(name@.skip(n as int) =~= Seq::<char>::empty());
    out
}

/// Composes a parent prefix with a child flag name.
pub fn join_prefix(prefix: &str, name: &str) -> (r: String)
    ensures
        r@ == spec_join_prefix(prefix@, name@),
{
    let pn = prefix.unicode_len();
    let nn = name.unicode_len();
    if nn == 0 {
        let mut cut: usize = pn;
        assert(prefix@.take(pn as int) =~= prefix@);
        while cut > 0 && prefix.get_char(cut - 1) == '-'
            invariant
                cut <= pn,
                pn == prefix@.len(),
                strip_trailing_dashes(prefix@) == strip_trailing_dashes(prefix@.take(cut as int)),
            decreases cut,
        {
            proof {
                assert(prefix@.take(cut as int).last() == prefix@[cut - 1]);
                assert(prefix@.take(cut as int).drop_last() =~= prefix@.take(cut - 1));
            }
            cut = cut - 1;
        }
        proof {
            assert(prefix@.take(pn as int) =~= prefix@);
            if cut > 0 {
                assert(prefix@.take(cut as int).last() == prefix@[cut - 1]);
            }
            assert(strip_trailing_dashes(prefix@.take(cut as int)) == prefix@.take(cut as int));
        }
        let s = prefix.substring_char(0, cut);
        let r = String::from_str(s);
        assert(r@ =~= spec_join_prefix(prefix@, name@));
        r
    } else if pn == 0 {
        let mut r = String::from_str("--");
        r.append(name);
        proof {
            reveal_strlit("--");
            assert(r@ =~= seq!['-', '-'] + name@);
        }
        r
    } else if prefix.get_char(pn - 1) == '-' {
        let mut r = String::from_str(prefix);
        r.append(name);
        assert(r@ =~= prefix@ + name@);
        r
    } else {
        let mut r = String::from_str(prefix);
        r.append("-");
        r.append(name);
        proof {
            reveal_strlit("-");
            assert(r@ =~= prefix@ + seq!['-'] + name@);
        }
        r
    }
}

} // verus!
