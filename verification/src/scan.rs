//! Scanning the argument list for flag tokens and extracting their values.

use vstd::prelude::*;
use vstd::string::StrSliceExecFns;
use crate::errors::Error;
use crate::errors::ErrorV;
use crate::strutil::concat_str;
use crate::strutil::is_prefix_of;
use crate::strutil::str_eq_str;
use crate::strutil::str_starts_with;
use crate::strutil::str_to_string;

verus! {

/// Whether a token selects the flag `key`: either exactly, or as the start
/// of a `key=value` token.
pub open spec fn matches_key(key: Seq<char>, t: Seq<char>) -> bool {
    t == key || is_prefix_of(key.push('='), t)
}

/// The position of the first token that selects `key`.
pub open spec fn find_flag(key: Seq<char>, args: Seq<Seq<char>>) -> Option<int>
    decreases args.len(),
{
    if args.len() == 0 {
        Option::None
    } else if matches_key(key, args[0]) {
        Option::Some(0)
    } else {
        match find_flag(key, args.drop_first()) {
            Option::Some(i) => Option::Some(i + 1),
            Option::None => Option::None,
        }
    }
}

/// The position of the first token equal to `key`.
pub open spec fn find_exact(key: Seq<char>, args: Seq<Seq<char>>) -> Option<int>
    decreases args.len(),
{
    if args.len() == 0 {
        Option::None
    } else if args[0] == key {
        Option::Some(0)
    } else {
        match find_exact(key, args.drop_first()) {
            Option::Some(i) => Option::Some(i + 1),
            Option::None => Option::None,
        }
    }
}

pub proof fn lemma_find_flag(key: Seq<char>, args: Seq<Seq<char>>)
    ensures
        match find_flag(key, args) {
            Option::Some(i) => 0 <= i < args.len() && matches_key(key, args[i]) && forall|j: int|
                0 <= j < i ==> !matches_key(key, args[j]),
            Option::None => forall|j: int| 0 <= j < args.len() ==> !matches_key(key, args[j]),
        },
    decreases args.len(),
{
    if args.len() > 0 && !matches_key(key, args[0]) {
        lemma_find_flag(key, args.drop_first());
        match find_flag(key, args.drop_first()) {
            Option::Some(i2) => {
                assert(args[i2 + 1] == args.drop_first()[i2]);
                assert forall|j: int| 0 <= j < i2 + 1 implies !matches_key(key, args[j]) by {
                    if j > 0 {
                        assert(args[j] == args.drop_first()[j - 1]);
                    }
                }
            },
            Option::None => {
                assert forall|j: int| 0 <= j < args.len() implies !matches_key(key, args[j]) by {
                    if j > 0 {
                        assert(args[j] == args.drop_first()[j - 1]);
                    }
                }
            },
        }
    }
}

pub proof fn lemma_find_exact(key: Seq<char>, args: Seq<Seq<char>>)
    ensures
        match find_exact(key, args) {
            Option::Some(i) => 0 <= i < args.len() && args[i] == key && forall|j: int|
                0 <= j < i ==> args[j] != key,
            Option::None => forall|j: int| 0 <= j < args.len() ==> args[j] != key,
        },
    decreases args.len(),
{
    if args.len() > 0 && args[0] != key {
        lemma_find_exact(key, args.drop_first());
        match find_exact(key, args.drop_first()) {
            Option::Some(i2) => {
                assert(args[i2 + 1] == args.drop_first()[i2]);
                assert forall|j: int| 0 <= j < i2 + 1 implies args[j] != key by {
                    if j > 0 {
                        assert(args[j] == args.drop_first()[j - 1]);
                    }
                }
            },
            Option::None => {
                assert forall|j: int| 0 <= j < args.len() implies args[j] != key by {
                    if j > 0 {
                        assert(args[j] == args.drop_first()[j - 1]);
                    }
                }
            },
        }
    }
}

/// Removing one token, seen through the deep view.
pub proof fn lemma_deep_remove(pre: Seq<String>, post: Seq<String>, deep: Seq<Seq<char>>, i: int)
    requires
        0 <= i < pre.len(),
        post == pre.remove(i),
        deep.len() == pre.len(),
        forall|j: int| 0 <= j < pre.len() ==> deep[j] == pre[j]@,
    ensures
        post.len() == pre.len() - 1,
        forall|j: int| 0 <= j < post.len() ==> post[j]@ == deep.remove(i)[j],
{
    assert forall|j: int| 0 <= j < post.len() implies post[j]@ == deep.remove(i)[j] by {
        if j < i {
            assert(post[j] == pre[j]);
        } else {
            assert(post[j] == pre[j + 1]);
        }
    }
}

/// The result of looking for the value token of one flag.
pub enum TokenOut {
    /// The value's text, and the tokens that remain after consuming it.
    Got(Seq<char>, Seq<Seq<char>>),
    /// No value could be taken; the argument list is unchanged.
    NoToken(ErrorV),
}

/// How a value-bearing leaf takes its text from the argument list.  With an
/// empty key the next positional token is consumed (a leading `--` escape
/// makes the token after it the value); otherwise the first token selecting
/// the key is consumed, together with the following token unless the value
/// is attached by `=`.
pub open spec fn take_string(key: Seq<char>, args: Seq<Seq<char>>) -> TokenOut {
    if key.len() == 0 {
        if args.len() == 0 {
            TokenOut::NoToken(ErrorV::OptionWithoutAValue(Seq::empty()))
        } else if args[0] == "--"@ {
            if args.len() > 1 {
                TokenOut::Got(args[1], args.remove(1))
            } else {
                TokenOut::NoToken(ErrorV::OptionWithoutAValue(Seq::empty()))
            }
        } else {
            TokenOut::Got(args[0], args.drop_first())
        }
    } else {
        match find_flag(key, args) {
            Option::None => TokenOut::NoToken(ErrorV::MissingOption(key)),
            Option::Some(i) => {
                if args[i] == key {
                    if args.len() > i + 1 {
                        TokenOut::Got(args[i + 1], args.remove(i + 1).remove(i))
                    } else {
                        TokenOut::NoToken(ErrorV::OptionWithoutAValue(key))
                    }
                } else {
                    TokenOut::Got(args[i].skip(key.len() + 1 as int), args.remove(i))
                }
            },
        }
    }
}

/// Whether a token selects the flag `key`.
pub fn matches_key_exec(key: &str, t: &str) -> (r: bool)
    ensures
        r == matches_key(key@, t@),
{
    if str_eq_str(t, key) {
        return true;
    }
    let eqkey = concat_str(key, "=");
    proof {
        reveal_strlit("=");
        assert(eqkey@ =~= key@.push('='));
    }
    str_starts_with(t, eqkey.as_str())
}

/// Takes the value text for `key` out of the argument list.  On failure the
/// argument list is unchanged.
#[verifier::loop_isolation(false)]
pub fn take_string_exec(key: &str, args: &mut Vec<String>) -> (r: Result<String, Error>)
    ensures
        match r {
            Result::Ok(t) => take_string(key@, old(args).deep_view()) == TokenOut::Got(
                t@,
                final(args).deep_view(),
            ) && final(args)@.len() < old(args)@.len(),
            Result::Err(e) => take_string(key@, old(args).deep_view()) == TokenOut::NoToken(e@)
                && final(args)@ == old(args)@ && final(args).deep_view() == old(args).deep_view(),
        },
{
    let ghost deep = args.deep_view();
    proof {
        assert(forall|j: int| 0 <= j < args@.len() ==> deep[j] == args@[j]@);
    }
    if key.unicode_len() == 0 {
        if args.len() == 0 {
            return Err(Error::OptionWithoutAValue(String::new()));
        }
        if str_eq_str(args[0].as_str(), "--") {
            proof {
                reveal_strlit("--");
            }
            if args.len() > 1 {
                let v = args.remove(1);
                proof {
                    lemma_deep_remove(old(args)@, args@, deep, 1);
                    assert(args.deep_view() =~= deep.remove(1));
                }
                return Ok(v);
            } else {
                return Err(Error::OptionWithoutAValue(String::new()));
            }
        }
        proof {
            reveal_strlit("--");
        }
        let v = args.remove(0);
        proof {
            lemma_deep_remove(old(args)@, args@, deep, 0);
            assert(args.deep_view() =~= deep.remove(0));
            assert(deep.remove(0) =~= deep.drop_first());
        }
        return Ok(v);
    }
    let n = args.len();
    let mut i: usize = 0;
    while i < n
        invariant
            i <= n,
            n == args@.len(),
            args@ == old(args)@,
            deep == args.deep_view(),
            forall|j: int| 0 <= j < args@.len() ==> deep[j] == args@[j]@,
            forall|j: int| 0 <= j < i ==> !matches_key(key@, deep[j]),
        decreases n - i,
    {
        if matches_key_exec(key, args[i].as_str()) {
            proof {
                assert(matches_key(key@, deep[i as int]));
                lemma_find_flag(key@, deep);
                match find_flag(key@, deep) {
                    Option::Some(i2) => {
                        assert(!(i2 < i) && !(i < i2));
                    },
                    Option::None => {
                        assert(false);
                    },
                }
                assert(find_flag(key@, deep) == Option::Some(i as int));
            }
            if str_eq_str(args[i].as_str(), key) {
                if i + 1 < args.len() {
                    let _flag = args.remove(i);
                    let v = args.remove(i);
                    proof {
                        lemma_deep_remove(old(args)@, old(args)@.remove(i as int), deep, i as int);
                        lemma_deep_remove(
                            old(args)@.remove(i as int),
                            args@,
                            deep.remove(i as int),
                            i as int,
                        );
                        assert(args.deep_view() =~= deep.remove(i as int).remove(i as int));
                        assert(deep.remove(i as int).remove(i as int) =~= deep.remove(
                            i + 1,
                        ).remove(i as int));
                    }
                    return Ok(v);
                } else {
                    return Err(Error::OptionWithoutAValue(str_to_string(key)));
                }
            } else {
                let t = args.remove(i);
                let klen = key.unicode_len();
                let tlen = t.as_str().unicode_len();
                proof {
                    assert(is_prefix_of(key@.push('='), t@));
                    assert(t@.len() >= key@.len() + 1);
                }
                let v = str_to_string(t.as_str().substring_char(klen + 1, tlen));
                proof {
                    assert(v@ =~= t@.skip(key@.len() + 1 as int));
                    lemma_deep_remove(old(args)@, args@, deep, i as int);
                    assert(args.deep_view() =~= deep.remove(i as int));
                }
                return Ok(v);
            }
        }
        i = i + 1;
    }
    proof {
        lemma_find_flag(key@, deep);
    }
    Err(Error::MissingOption(str_to_string(key)))
}

} // verus!
