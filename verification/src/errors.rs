//! The errors a parse can produce, and their rendering as messages.

use vstd::prelude::*;
use vstd::string::StringExecFns;
use crate::strutil::str_to_string;
use crate::strutil::string_eq;

verus! {

/// A list of possible parse failures.
#[derive(Debug)]
pub enum Error {
    /// A value token was found but could not be converted; carries the flag
    /// name and a detail message.
    OptionValueParsingFailed(String, String),
    /// A token could not be interpreted as valid text.
    InvalidUTF8(String),
    /// A flag is present but no value token follows it, or a positional
    /// value was expected and none remains.
    OptionWithoutAValue(String),
    /// A required flag is absent.
    MissingOption(String),
    /// Tokens remain after a structurally successful parse.
    UnexpectedOption(Vec<String>),
}

/// The mathematical counterpart of [`Error`].
pub enum ErrorV {
    OptionValueParsingFailed(Seq<char>, Seq<char>),
    InvalidUTF8(Seq<char>),
    OptionWithoutAValue(Seq<char>),
    MissingOption(Seq<char>),
    UnexpectedOption(Seq<Seq<char>>),
}

impl View for Error {
    type V = ErrorV;

    open spec fn view(&self) -> ErrorV {
        match self {
            Error::OptionValueParsingFailed(k, d) => ErrorV::OptionValueParsingFailed(k@, d@),
            Error::InvalidUTF8(d) => ErrorV::InvalidUTF8(d@),
            Error::OptionWithoutAValue(k) => ErrorV::OptionWithoutAValue(k@),
            Error::MissingOption(k) => ErrorV::MissingOption(k@),
            Error::UnexpectedOption(ts) => ErrorV::UnexpectedOption(ts.deep_view()),
        }
    }
}

fn tokens_eq(a: &Vec<String>, b: &Vec<String>) -> (r: bool)
    ensures
        r == (a.deep_view() == b.deep_view()),
{
    if a.len() != b.len() {
        assert(a.deep_view().len() != b.deep_view().len());
        return false;
    }
    let n = a.len();
    let mut i: usize = 0;
    while i < n
        invariant
            i <= n,
            n == a@.len() == b@.len(),
            forall|j: int| 0 <= j < i ==> a.deep_view()[j] == b.deep_view()[j],
        decreases n - i,
    {
        if !string_eq(&a[i], &b[i]) {
            assert(a.deep_view()[i as int] != b.deep_view()[i as int]);
            return false;
        }
        assert(a.deep_view()[i as int] == b.deep_view()[i as int]);
        i = i + 1;
    }
    proof {
        assert(a.deep_view() =~= b.deep_view());
    }
    true
}

impl PartialEq for Error {
    fn eq(&self, other: &Error) -> (r: bool)
        ensures
            r == (self@ == other@),
    {
        match (self, other) {
            (
                Error::OptionValueParsingFailed(k1, d1),
                Error::OptionValueParsingFailed(k2, d2),
            ) => string_eq(k1, k2) && string_eq(d1, d2),
            (Error::InvalidUTF8(d1), Error::InvalidUTF8(d2)) => string_eq(d1, d2),
            (Error::OptionWithoutAValue(k1), Error::OptionWithoutAValue(k2)) => string_eq(k1, k2),
            (Error::MissingOption(k1), Error::MissingOption(k2)) => string_eq(k1, k2),
            (Error::UnexpectedOption(t1), Error::UnexpectedOption(t2)) => tokens_eq(t1, t2),
            _ => false,
        }
    }
}

impl Eq for Error {

}

impl vstd::std_specs::cmp::PartialEqSpecImpl for Error {
    open spec fn obeys_eq_spec() -> bool {
        true
    }

    open spec fn eq_spec(&self, other: &Error) -> bool {
        self@ == other@
    }
}

/// The space-separated concatenation of a token list.
pub open spec fn spec_join_tokens(ts: Seq<Seq<char>>) -> Seq<char>
    decreases ts.len(),
{
    if ts.len() == 0 {
        Seq::empty()
    } else if ts.len() == 1 {
        ts[0]
    } else {
        ts[0] + seq![' '] + spec_join_tokens(ts.drop_first())
    }
}

/// The message that [`error_message`] renders for each error.
pub open spec fn spec_error_message(e: ErrorV) -> Seq<char> {
    match e {
        ErrorV::OptionValueParsingFailed(k, d) => "error parsing option '"@ + k + "': "@ + d,
        ErrorV::MissingOption(k) => "the required '"@ + k + "' option is missing"@,
        ErrorV::InvalidUTF8(d) => "invalid UTF-8: '"@ + d + "'"@,
        ErrorV::OptionWithoutAValue(k) => "the option '"@ + k + "' is missing a value"@,
        ErrorV::UnexpectedOption(ts) => "unexpected option: "@ + spec_join_tokens(ts),
    }
}

/// Renders an error as the user-facing message.
#[verifier::loop_isolation(false)]
pub fn error_message(e: &Error) -> (r: String)
    ensures
        r@ == spec_error_message(e@),
{
    match e {
        Error::OptionValueParsingFailed(k, d) => {
            let mut r = str_to_string("error parsing option '");
            r.append(k.as_str());
            r.append("': ");
            r.append(d.as_str());
            assert(r@ =~= spec_error_message(e@));
            r
        },
        Error::MissingOption(k) => {
            let mut r = str_to_string("the required '");
            r.append(k.as_str());
            r.append("' option is missing");
            assert(r@ =~= spec_error_message(e@));
            r
        },
        Error::InvalidUTF8(d) => {
            let mut r = str_to_string("invalid UTF-8: '");
            r.append(d.as_str());
            r.append("'");
            assert(r@ =~= spec_error_message(e@));
            r
        },
        Error::OptionWithoutAValue(k) => {
            let mut r = str_to_string("the option '");
            r.append(k.as_str());
            r.append("' is missing a value");
            assert(r@ =~= spec_error_message(e@));
            r
        },
        Error::UnexpectedOption(ts) => {
            let mut r = str_to_string("unexpected option: ");
            let n = ts.len();
            let mut i: usize = 0;
            while i < n
                invariant
                    i <= n,
                    n == ts@.len(),
                    r@ == "unexpected option: "@ + spec_join_tokens(ts.deep_view().take(i as int)),
                decreases n - i,
            {
                proof {
                    lemma_join_tokens_snoc(ts.deep_view(), i as int);
                    reveal_strlit(" ");
                }
                if i > 0 {
                    r.append(" ");
                }
                r.append(ts[i].as_str());
                assert(r@ =~= "unexpected option: "@ + spec_join_tokens(
                    ts.deep_view().take(i + 1),
                ));
                i = i + 1;
            }
            proof {
                assert(ts.deep_view().take(n as int) =~= ts.deep_view());
            }
            r
        },
    }
}

/// Joining one more token appends a separator and that token.
pub proof fn lemma_join_tokens_snoc(ts: Seq<Seq<char>>, i: int)
    requires
        0 <= i < ts.len(),
    ensures
        spec_join_tokens(ts.take(i + 1)) == if i == 0 {
            ts[0]
        } else {
            spec_join_tokens(ts.take(i)) + seq![' '] + ts[i]
        },
    decreases i,
{
    if i == 0 {
        assert(ts.take(1) =~= seq![ts[0]]);
    } else {
        lemma_join_tokens_snoc(ts.drop_first(), i - 1);
        assert(ts.take(i + 1).drop_first() =~= ts.drop_first().take(i));
        assert(ts.take(i + 1)[0] == ts[0]);
        assert(ts.drop_first()[i - 1] == ts[i]);
        if i == 1 {
            assert(ts.drop_first().take(1) =~= seq![ts[1]]);
            assert(spec_join_tokens(ts.take(2)) == ts[0] + seq![' '] + ts[1]);
            assert(ts.take(1) =~= seq![ts[0]]);
            assert(spec_join_tokens(ts.take(1)) + seq![' '] + ts[1] =~= ts[0] + seq![' '] + ts[1]);
        } else {
            assert(ts.take(i).drop_first() =~= ts.drop_first().take(i - 1));
            assert(ts.take(i)[0] == ts[0]);
            assert(spec_join_tokens(ts.take(i + 1)) =~= (spec_join_tokens(ts.take(i)) + seq![' ']
                + ts[i]));
        }
    }
}

} // verus!
