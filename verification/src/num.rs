//! Numeric conversions: decimal integer parsing, arithmetic-expression
//! evaluation, and exact decoding of a double's bits into an integer.

use vstd::prelude::*;
use vstd::arithmetic::power2::pow2;
use vstd::arithmetic::power2::lemma_pow2_adds;
use vstd::arithmetic::power2::lemma_pow2_strictly_increases;
use vstd::arithmetic::power2::lemma2_to64;
use vstd::arithmetic::power2::lemma2_to64_rest;
use vstd::arithmetic::div_mod::lemma_fundamental_div_mod;
use vstd::arithmetic::mul::lemma_mul_inequality;
use vstd::bits::lemma_u64_shl_is_mul;
use vstd::bits::lemma_u64_shr_is_div;
use vstd::bits::lemma_u64_pow2_no_overflow;
use vstd::string::StrSliceExecFns;
use crate::shape::IntKind;
use crate::shape::Value;
use crate::shape::ValueV;
use crate::strutil::str_to_string;

verus! {

/// The outcome that [`eval_float`] names: the bit pattern of the double an
/// arithmetic expression evaluates to, or the evaluator's error message.
pub uninterp spec fn float_eval(expr: Seq<char>) -> Result<u64, Seq<char>>;

/// A character the expression tokenizer treats as whitespace.
pub open spec fn is_expr_space(c: char) -> bool {
    c == ' ' || c == '\t' || c == '\r' || c == '\n'
}

/// Whether a token holds nothing but whitespace.
pub open spec fn all_space(s: Seq<char>) -> bool {
    forall|i: int| 0 <= i < s.len() ==> is_expr_space(s[i])
}

/// Relies on `meval::eval_str`: evaluates an arithmetic expression (a plain
/// numeral, or e.g. `2^10`, `sqrt(2)`) to a double-precision float.  Its
/// tokenizer aborts on input made of whitespace alone, so the contract
/// demands a token with at least one other character; on such tokens the
/// outcome is a function of the expression text alone (the transcendental
/// built-ins come from the platform's math library, so it is pinned per
/// platform and build).
#[verifier::external_body]
pub(crate) fn eval_float(expr: &str) -> (r: Result<u64, String>)
    requires
        !all_space(expr@),
    ensures
        float_eval(expr@) == match r {
            Ok(b) => Result::<u64, Seq<char>>::Ok(b),
            Err(m) => Result::<u64, Seq<char>>::Err(m@),
        },
{
    match meval::eval_str(expr) {
        Ok(v) => Ok(v.to_bits()),
        Err(e) => Err(e.to_string()),
    }
}

/// Whether a token has a character besides whitespace in it.
#[verifier::loop_isolation(false)]
fn has_nonspace(s: &str) -> (r: bool)
    ensures
        r == !all_space(s@),
{
    let n = s.unicode_len();
    let mut i: usize = 0;
    while i < n
        invariant
            i <= n,
            n == s@.len(),
            forall|j: int| 0 <= j < i ==> is_expr_space(s@[j]),
        decreases n - i,
    {
        let c = s.get_char(i);
        if !(c == ' ' || c == '\t' || c == '\r' || c == '\n') {
            return true;
        }
        i = i + 1;
    }
    false
}

/// How a floating-point leaf reads its token: a token of nothing but
/// whitespace is rejected outright; anything else goes to the expression
/// evaluator.
pub open spec fn float_token_value(tok: Seq<char>) -> Result<u64, Seq<char>> {
    if all_space(tok) {
        Result::Err("expected a value"@)
    } else {
        float_eval(tok)
    }
}

/// Converts a token to a float's bit pattern by evaluating it as an
/// arithmetic expression.
pub fn convert_float(tok: &str) -> (r: Result<u64, String>)
    ensures
        float_token_value(tok@) == match r {
            Ok(b) => Result::<u64, Seq<char>>::Ok(b),
            Err(m) => Result::<u64, Seq<char>>::Err(m@),
        },
{
    if has_nonspace(tok) {
        eval_float(tok)
    } else {
        Err(str_to_string("expected a value"))
    }
}

/// An ASCII decimal digit.
pub open spec fn is_digit(c: char) -> bool {
    '0' <= c && c <= '9'
}

pub open spec fn digit_val(c: char) -> int {
    c as int - '0' as int
}

/// The value of a digit string read in base ten.
pub open spec fn dec_val(s: Seq<char>) -> int
    decreases s.len(),
{
    if s.len() == 0 {
        0
    } else {
        dec_val(s.drop_last()) * 10 + digit_val(s.last())
    }
}

pub open spec fn all_digits(s: Seq<char>) -> bool {
    s.len() > 0 && forall|i: int| 0 <= i < s.len() ==> is_digit(s[i])
}

/// The integer a token denotes in plain decimal notation: an optional sign
/// followed by digits, as the standard integer conversions accept.
pub open spec fn parse_decimal(s: Seq<char>) -> Option<int> {
    if s.len() == 0 {
        Option::None
    } else if s[0] == '-' {
        if all_digits(s.drop_first()) {
            Option::Some(-dec_val(s.drop_first()))
        } else {
            Option::None
        }
    } else if s[0] == '+' {
        if all_digits(s.drop_first()) {
            Option::Some(dec_val(s.drop_first()))
        } else {
            Option::None
        }
    } else if all_digits(s) {
        Option::Some(dec_val(s))
    } else {
        Option::None
    }
}

proof fn lemma_dec_val_nonneg(s: Seq<char>)
    requires
        forall|i: int| 0 <= i < s.len() ==> is_digit(s[i]),
    ensures
        dec_val(s) >= 0,
    decreases s.len(),
{
    if s.len() > 0 {
        lemma_dec_val_nonneg(s.drop_last());
        assert(dec_val(s.drop_last()) * 10 >= 0) by (nonlinear_arith)
            requires
                dec_val(s.drop_last()) >= 0,
        ;
    }
}

/// Reads a token as an optional sign and decimal digits.  `Some((neg, mag))`
/// gives the sign and magnitude; `None` means the token is not plain decimal
/// or its magnitude exceeds `u64::MAX`.
#[verifier::loop_isolation(false)]
fn parse_decimal_token(s: &str) -> (r: Option<(bool, u64)>)
    ensures
        match r {
            Option::Some(p) => parse_decimal(s@) == Option::Some(
                if p.0 {
                    -(p.1 as int)
                } else {
                    p.1 as int
                },
            ),
            Option::None => match parse_decimal(s@) {
                Option::Some(n) => n > u64::MAX || n < -(u64::MAX as int),
                Option::None => true,
            },
        },
{
    let n = s.unicode_len();
    if n == 0 {
        return None;
    }
    let first = s.get_char(0);
    let neg = first == '-';
    let start: usize = if first == '-' || first == '+' {
        1
    } else {
        0
    };
    if start >= n {
        assert(s@.drop_first().len() == 0);
        return None;
    }
    let ghost digits = if start == 1 {
        s@.drop_first()
    } else {
        s@
    };
    assert(digits =~= s@.subrange(start as int, n as int));
    let mut acc: u64 = 0;
    let mut over = false;
    let mut i: usize = start;
    while i < n
        invariant
            start <= i <= n,
            forall|j: int| start <= j < i ==> is_digit(s@[j]),
            !over ==> acc == dec_val(s@.subrange(start as int, i as int)),
            over ==> dec_val(s@.subrange(start as int, i as int)) > u64::MAX,
        decreases n - i,
    {
        let c = s.get_char(i);
        if !(c >= '0' && c <= '9') {
            assert(digits[i - start] == s@[i as int]);
            assert(!all_digits(digits));
            return None;
        }
        let d: u64 = ((c as u32) - ('0' as u32)) as u64;
        assert(d == digit_val(c));
        proof {
            assert(s@.subrange(start as int, i + 1).drop_last() =~= s@.subrange(
                start as int,
                i as int,
            ));
            assert(s@.subrange(start as int, i + 1).last() == s@[i as int]);
            lemma_dec_val_nonneg(s@.subrange(start as int, i as int));
        }
        let ghost old_val = dec_val(s@.subrange(start as int, i as int));
        assert(dec_val(s@.subrange(start as int, i + 1)) == old_val * 10 + digit_val(c));
        if over {
            assert(old_val * 10 + d > u64::MAX) by (nonlinear_arith)
                requires
                    old_val > u64::MAX,
                    d >= 0,
            ;
        } else {
            let limit = (u64::MAX - d) / 10;
            proof {
                lemma_fundamental_div_mod((u64::MAX - d) as int, 10);
            }
            if acc > limit {
                over = true;
                assert(acc * 10 >= (limit + 1) * 10) by (nonlinear_arith)
                    requires
                        acc >= limit + 1,
                ;
                assert(old_val * 10 + d > u64::MAX);
            } else {
                assert(acc * 10 <= limit * 10) by (nonlinear_arith)
                    requires
                        acc <= limit,
                ;
                assert(acc * 10 + d <= u64::MAX);
                acc = acc * 10 + d;
            }
        }
        i = i + 1;
    }
    proof {
        assert(s@.subrange(start as int, n as int) =~= digits);
        assert(all_digits(digits));
        if start == 1 {
            assert(parse_decimal(s@) == Option::Some(
                if neg {
                    -dec_val(digits)
                } else {
                    dec_val(digits)
                },
            ));
        } else {
            assert(s@[0] != '-' && s@[0] != '+');
            assert(parse_decimal(s@) == Option::Some(dec_val(digits)));
        }
    }
    if over {
        return None;
    }
    Some((neg, acc))
}

pub open spec fn is_signed_kind(k: IntKind) -> bool {
    match k {
        IntKind::I8 | IntKind::I16 | IntKind::I32 | IntKind::I64 | IntKind::Isize => true,
        _ => false,
    }
}

pub open spec fn kind_min(k: IntKind) -> int {
    match k {
        IntKind::U8 | IntKind::U16 | IntKind::U32 | IntKind::U64 | IntKind::Usize => 0,
        IntKind::I8 => -0x80,
        IntKind::I16 => -0x8000,
        IntKind::I32 => -0x8000_0000,
        IntKind::I64 => -0x8000_0000_0000_0000,
        IntKind::Isize => isize::MIN as int,
    }
}

pub open spec fn kind_max(k: IntKind) -> int {
    match k {
        IntKind::U8 => 0xff,
        IntKind::U16 => 0xffff,
        IntKind::U32 => 0xffff_ffff,
        IntKind::U64 => 0xffff_ffff_ffff_ffff,
        IntKind::Usize => usize::MAX as int,
        IntKind::I8 => 0x7f,
        IntKind::I16 => 0x7fff,
        IntKind::I32 => 0x7fff_ffff,
        IntKind::I64 => 0x7fff_ffff_ffff_ffff,
        IntKind::Isize => isize::MAX as int,
    }
}

/// Whether `n` lies within the range of the integer kind.
pub open spec fn in_range(k: IntKind, n: int) -> bool {
    kind_min(k) <= n <= kind_max(k)
}

/// The value an in-range integer is stored as: signed kinds keep the sign.
pub open spec fn int_value(k: IntKind, n: int) -> ValueV {
    if is_signed_kind(k) {
        ValueV::Signed(n as i64)
    } else {
        ValueV::Unsigned(n as u64)
    }
}

/// Builds the stored value for an integer given as sign and magnitude,
/// when it fits the kind's range.
fn int_from_parts(k: IntKind, neg: bool, mag: u64) -> (r: Option<Value>)
    ensures
        ({
            let n = if neg {
                -(mag as int)
            } else {
                mag as int
            };
            match r {
                Option::Some(v) => in_range(k, n) && v@ == int_value(k, n),
                Option::None => !in_range(k, n),
            }
        }),
{
    let pos_ok = !neg || mag == 0;
    match k {
        IntKind::U8 => if pos_ok && mag <= 0xff {
            Some(Value::Unsigned(mag))
        } else {
            None
        },
        IntKind::U16 => if pos_ok && mag <= 0xffff {
            Some(Value::Unsigned(mag))
        } else {
            None
        },
        IntKind::U32 => if pos_ok && mag <= 0xffff_ffff {
            Some(Value::Unsigned(mag))
        } else {
            None
        },
        IntKind::U64 => if pos_ok {
            Some(Value::Unsigned(mag))
        } else {
            None
        },
        IntKind::Usize => if pos_ok && mag <= (usize::MAX as u64) {
            Some(Value::Unsigned(mag))
        } else {
            None
        },
        IntKind::I8 => if neg {
            if mag <= 0x80 {
                Some(Value::Signed(-(mag as i64)))
            } else {
                None
            }
        } else {
            if mag <= 0x7f {
                Some(Value::Signed(mag as i64))
            } else {
                None
            }
        },
        IntKind::I16 => if neg {
            if mag <= 0x8000 {
                Some(Value::Signed(-(mag as i64)))
            } else {
                None
            }
        } else {
            if mag <= 0x7fff {
                Some(Value::Signed(mag as i64))
            } else {
                None
            }
        },
        IntKind::I32 => if neg {
            if mag <= 0x8000_0000 {
                Some(Value::Signed(-(mag as i64)))
            } else {
                None
            }
        } else {
            if mag <= 0x7fff_ffff {
                Some(Value::Signed(mag as i64))
            } else {
                None
            }
        },
        IntKind::I64 => if neg {
            if mag <= 0x8000_0000_0000_0000 {
                if mag == 0x8000_0000_0000_0000 {
                    Some(Value::Signed(i64::MIN))
                } else {
                    Some(Value::Signed(-(mag as i64)))
                }
            } else {
                None
            }
        } else {
            if mag <= 0x7fff_ffff_ffff_ffff {
                Some(Value::Signed(mag as i64))
            } else {
                None
            }
        },
        IntKind::Isize => {
            let pos_max = isize::MAX as u64;
            if neg {
                if mag <= pos_max + 1 {
                    if mag == pos_max + 1 {
                        Some(Value::Signed(isize::MIN as i64))
                    } else {
                        Some(Value::Signed(-(mag as i64)))
                    }
                } else {
                    None
                }
            } else {
                if mag <= pos_max {
                    Some(Value::Signed(mag as i64))
                } else {
                    None
                }
            }
        },
    }
}

pub open spec fn float_sign(bits: u64) -> bool {
    (bits >> 63) == 1
}

pub open spec fn float_exp(bits: u64) -> u64 {
    (bits >> 52) & 0x7ff
}

pub open spec fn float_mantissa(bits: u64) -> u64 {
    bits & 0xf_ffff_ffff_ffff
}

/// The exact integer a double's bits denote, when the double is finite,
/// integral, and of magnitude at most `u64::MAX`; `None` otherwise.
pub open spec fn bits_to_int(bits: u64) -> Option<int> {
    let neg = float_sign(bits);
    let e = float_exp(bits);
    let m = float_mantissa(bits);
    if e == 0x7ff {
        Option::None
    } else if e == 0 {
        if m == 0 {
            Option::Some(0)
        } else {
            Option::None
        }
    } else if e < 1023 {
        Option::None
    } else if e >= 1087 {
        Option::None
    } else if e >= 1075 {
        let mag = (0x10_0000_0000_0000 + m) * pow2((e - 1075) as nat);
        Option::Some(
            if neg {
                -(mag as int)
            } else {
                mag as int
            },
        )
    } else {
        let sh = (1075 - e) as nat;
        if (m as nat) % pow2(sh) == 0 {
            let mag = ((0x10_0000_0000_0000 + m) as nat) / pow2(sh);
            Option::Some(
                if neg {
                    -(mag as int)
                } else {
                    mag as int
                },
            )
        } else {
            Option::None
        }
    }
}

/// Decodes a double's bits to sign and integer magnitude, when integral.
fn float_bits_to_int(bits: u64) -> (r: Option<(bool, u64)>)
    ensures
        match r {
            Option::Some(p) => bits_to_int(bits) == Option::Some(
                if p.0 {
                    -(p.1 as int)
                } else {
                    p.1 as int
                },
            ),
            Option::None => bits_to_int(bits) is None,
        },
{
    let neg = (bits >> 63) == 1;
    let e = (bits >> 52) & 0x7ff;
    let m = bits & 0xf_ffff_ffff_ffff;
    assert(m <= 0xf_ffff_ffff_ffff) by (bit_vector)
        requires
            m == bits & 0xf_ffff_ffff_ffff,
    ;
    if e == 0x7ff {
        None
    } else if e == 0 {
        if m == 0 {
            Some((neg, 0))
        } else {
            None
        }
    } else if e < 1023 {
        None
    } else if e >= 1087 {
        None
    } else if e >= 1075 {
        let sh = e - 1075;
        let base = 0x10_0000_0000_0000 + m;
        proof {
            lemma2_to64();
            lemma2_to64_rest();
            if sh < 11 {
                lemma_pow2_strictly_increases(sh as nat, 11);
            }
            lemma_mul_inequality(pow2(sh as nat) as int, pow2(11) as int, base as int);
            assert(base * pow2(sh as nat) <= base * pow2(11)) by (nonlinear_arith)
                requires
                    pow2(sh as nat) <= pow2(11),
                    base >= 0,
            ;
            assert(base * pow2(11) <= 0x1f_ffff_ffff_ffff * 2048) by (nonlinear_arith)
                requires
                    base <= 0x1f_ffff_ffff_ffff,
                    pow2(11) == 2048,
            ;
            lemma_u64_shl_is_mul(base, sh);
        }
        let mag = base << sh;
        Some((neg, mag))
    } else {
        let sh = 1075 - e;
        proof {
            lemma_u64_pow2_no_overflow(sh as nat);
            lemma_u64_shl_is_mul(1u64, sh);
        }
        let pw = 1u64 << sh;
        assert(pw == pow2(sh as nat));
        if m % pw == 0 {
            let base = 0x10_0000_0000_0000 + m;
            proof {
                lemma_u64_shr_is_div(base, sh);
            }
            let mag = base >> sh;
            Some((neg, mag))
        } else {
            None
        }
    }
}

/// How an integer leaf reads a token: plain decimal when the token is one
/// and fits; otherwise the token is evaluated as an arithmetic expression,
/// whose value must be an exact integer in the kind's range.
pub open spec fn int_token_value(k: IntKind, tok: Seq<char>) -> Result<ValueV, Seq<char>> {
    match parse_decimal(tok) {
        Option::Some(n) => if in_range(k, n) {
            Result::Ok(int_value(k, n))
        } else {
            int_token_fallback(k, tok)
        },
        Option::None => int_token_fallback(k, tok),
    }
}

pub open spec fn int_token_fallback(k: IntKind, tok: Seq<char>) -> Result<ValueV, Seq<char>> {
    match float_token_value(tok) {
        Result::Err(m) => Result::Err(m),
        Result::Ok(bits) => match bits_to_int(bits) {
            Option::Some(n) => if in_range(k, n) {
                Result::Ok(int_value(k, n))
            } else {
                Result::Err("expected an integer"@)
            },
            Option::None => Result::Err("expected an integer"@),
        },
    }
}

proof fn lemma_huge_out_of_range(k: IntKind, n: int)
    requires
        n > u64::MAX || n < -(u64::MAX as int),
    ensures
        !in_range(k, n),
{
}

/// Converts a token to an integer of the given kind.
pub fn convert_int(k: IntKind, tok: &str) -> (r: Result<Value, String>)
    ensures
        match r {
            Result::Ok(v) => int_token_value(k, tok@) == Result::<ValueV, Seq<char>>::Ok(v@),
            Result::Err(m) => int_token_value(k, tok@) == Result::<ValueV, Seq<char>>::Err(m@),
        },
{
    match parse_decimal_token(tok) {
        Some(p) => {
            let (neg, mag) = p;
            match int_from_parts(k, neg, mag) {
                Some(v) => {
                    return Ok(v);
                },
                None => {
                    return convert_int_fallback(k, tok);
                },
            }
        },
        None => {
            proof {
                match parse_decimal(tok@) {
                    Option::Some(n) => lemma_huge_out_of_range(k, n),
                    Option::None => (),
                }
            }
            return convert_int_fallback(k, tok);
        },
    }
}

fn convert_int_fallback(k: IntKind, tok: &str) -> (r: Result<Value, String>)
    ensures
        match r {
            Result::Ok(v) => int_token_fallback(k, tok@) == Result::<ValueV, Seq<char>>::Ok(v@),
            Result::Err(m) => int_token_fallback(k, tok@) == Result::<ValueV, Seq<char>>::Err(m@),
        },
{
    match convert_float(tok) {
        Err(m) => Err(m),
        Ok(bits) => match float_bits_to_int(bits) {
            Some(p) => {
                let (neg, mag) = p;
                match int_from_parts(k, neg, mag) {
                    Some(v) => Ok(v),
                    None => Err(str_to_string("expected an integer")),
                }
            },
            None => Err(str_to_string("expected an integer")),
        },
    }
}

} // verus!
