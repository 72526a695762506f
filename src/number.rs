//! Numeric filter arguments: integers through num-bigint's `BigInt`, and the
//! syntax of decimal floating-point literals.

use vstd::prelude::*;
use vstd::string::*;
use num_bigint::{BigInt, ParseBigIntError};
use crate::variable_lex::{find_byte, is_digit, DOT, LOWER_E};

verus! {

/// num-bigint's `BigInt`, carried as an opaque value.
#[verifier::external_type_specification]
#[verifier::external_body]
pub struct ExBigInt(BigInt);

/// num-bigint's `ParseBigIntError`, the error of `BigInt`'s `FromStr`.
#[verifier::external_type_specification]
#[verifier::external_body]
pub struct ExParseBigIntError(ParseBigIntError);

/// The integer that `BigInt`'s `FromStr` reads from the characters `s`.
pub uninterp spec fn bigint_of(s: Seq<char>) -> BigInt;

pub open spec fn is_digit_char(c: char) -> bool {
    '0' <= c <= '9'
}

/// Decimal digits, with `_` allowed anywhere but first.
pub open spec fn digit_run(s: Seq<char>) -> bool {
    &&& s.len() > 0
    &&& s[0] != '_'
    &&& forall|i: int| 0 <= i < s.len() ==> is_digit_char(#[trigger] s[i]) || s[i] == '_'
}

/// The strings that `BigInt`'s `FromStr` accepts: an optional sign, then a
/// run of decimal digits.
pub open spec fn int_syntax(s: Seq<char>) -> bool {
    digit_run(s) || (s.len() > 0 && (s[0] == '+' || s[0] == '-') && digit_run(s.skip(1)))
}

/// Relies on `<BigInt as FromStr>::from_str` (num-bigint): it accepts exactly
/// the strings of `int_syntax` and reads the integer they denote.
#[verifier::external_body]
fn parse_bigint(s: &str) -> (r: Result<BigInt, ParseBigIntError>)
    ensures
        r is Ok <==> int_syntax(s@),
        r matches Ok(n) ==> n == bigint_of(s@),
{
    s.parse::<BigInt>()
}

/// The integer that `s` denotes, if it has the syntax of one.
pub fn parse_integer(s: &str) -> (r: Option<BigInt>)
    ensures
        r is Some <==> int_syntax(s@),
        r matches Some(n) ==> n == bigint_of(s@),
{
    match parse_bigint(s) {
        Ok(n) => Some(n),
        Err(_) => None,
    }
}

/// Whether the bytes `a..c` are all decimal digits.
pub open spec fn all_digits(b: Seq<u8>, a: int, c: int) -> bool {
    forall|i: int| a <= i < c ==> is_digit(#[trigger] b[i])
}

/// The mantissa `b[0..e]`: digits with at most one `.`, and at least one
/// digit.
pub open spec fn mantissa_ok(b: Seq<u8>, e: int) -> bool {
    let d = find_byte(b, 0, e, DOT);
    &&& all_digits(b, 0, d)
    &&& (d == e || all_digits(b, d + 1, e))
    &&& (d > 0 || e - d > 1)
}

/// The syntax of a decimal floating-point literal, as `f64`'s `FromStr`
/// documents it, for strings made of digits, `.` and `e`: digits with at most
/// one `.` and at least one digit, then optionally `e` and one or more digits.
pub open spec fn decimal_float(b: Seq<u8>) -> bool {
    let e = find_byte(b, 0, b.len() as int, LOWER_E);
    &&& mantissa_ok(b, e)
    &&& (e == b.len() || (e + 1 < b.len() && all_digits(b, e + 1, b.len() as int)))
}

fn all_digits_in(b: &[u8], a: usize, c: usize) -> (r: bool)
    requires
        a <= c <= b@.len(),
    ensures
        r == all_digits(b@, a as int, c as int),
{
    let mut i = a;
    while i < c
        invariant
            a <= i <= c <= b@.len(),
            all_digits(b@, a as int, i as int),
        decreases c - i,
    {
        if !(b[i] >= 0x30 && b[i] <= 0x39) {
            return false;
        }
        i = i + 1;
    }
    true
}

fn find_byte_from_start(b: &[u8], to: usize, x: u8) -> (r: usize)
    requires
        to <= b@.len(),
    ensures
        r == find_byte(b@, 0, to as int, x),
{
    let mut i: usize = 0;
    while i < to
        invariant
            i <= to <= b@.len(),
            find_byte(b@, i as int, to as int, x) == find_byte(b@, 0, to as int, x),
        decreases to - i,
    {
        if b[i] == x {
            return i;
        }
        i = i + 1;
    }
    to
}

/// Whether `s` is a decimal floating-point literal (see `decimal_float`).
pub fn is_decimal_float(s: &str) -> (r: bool)
    ensures
        r == decimal_float(s.spec_bytes()),
{
    let b = s.as_bytes();
    let n = b.len();
    let e = find_byte_from_start(b, n, LOWER_E);
    proof {
        crate::variable_lex::lemma_find_byte(b@, 0, n as int, LOWER_E);
        crate::variable_lex::lemma_find_byte(b@, 0, e as int, DOT);
    }
    let d = find_byte_from_start(b, e, DOT);
    let mantissa = all_digits_in(b, 0, d) && (d == e || all_digits_in(b, d + 1, e)) && (d > 0
        || e - d > 1);
    let exponent = e == n || (e + 1 < n && all_digits_in(b, e + 1, n));
    mantissa && exponent
}

} // verus!
