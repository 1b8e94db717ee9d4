//! JSON numbers: integers as integers, floating-point numbers carried as `serde_json` holds them.

use vstd::prelude::*;
use vstd::utf8::is_ascii_chars;
use crate::text::decimal;

verus! {

/// A number of the `serde_json` crate. Nothing inside it is visible to the proofs.
#[verifier::external_type_specification]
#[verifier::external_body]
pub struct ExternalNumber(serde_json::Number);

/// What a JSON number stands for: an integer, or a finite floating-point number by its
/// IEEE 754 bit pattern.
pub enum Numeral {
    Integer(int),
    Float(u64),
}

/// What a `serde_json::Number` holds.
pub uninterp spec fn numeral(number: serde_json::Number) -> Numeral;

/// The shortest decimal text that `serde_json` writes for the floating-point number of the
/// given bit pattern.
pub uninterp spec fn float_text(bits: u64) -> Seq<char>;

/// The decimal digits of an integer, behind a minus sign if it is negative.
pub open spec fn integer_text(integer: int) -> Seq<char> {
    if integer < 0 {
        seq!['-'] + decimal((-integer) as nat)
    } else {
        decimal(integer as nat)
    }
}

/// The text of a number.
pub open spec fn numeral_text(value: Numeral) -> Seq<char> {
    match value {
        Numeral::Integer(integer) => integer_text(integer),
        Numeral::Float(bits) => float_text(bits),
    }
}

/// `serde_json::Number::as_u64`: the number, if it is an integer that is not negative. Such an
/// integer always fits.
#[verifier::external_body]
fn number_as_u64(number: &serde_json::Number) -> (value: Option<u64>)
    ensures
        match value {
            Some(unsigned) => numeral(*number) == Numeral::Integer(unsigned as int),
            None => !(numeral(*number) matches Numeral::Integer(integer) && integer >= 0),
        },
{
    number.as_u64()
}

/// `serde_json::Number::as_i64`: the number, if it is an integer of at most `i64::MAX`. Such an
/// integer always fits.
#[verifier::external_body]
fn number_as_i64(number: &serde_json::Number) -> (value: Option<i64>)
    ensures
        match value {
            Some(signed) => numeral(*number) == Numeral::Integer(signed as int),
            None => !(numeral(*number) matches Numeral::Integer(integer) && integer <= i64::MAX),
        },
{
    number.as_i64()
}

/// `serde_json::Number::from`, on a `u64`: the number holds that integer.
#[verifier::external_body]
fn number_from_u64(value: u64) -> (number: serde_json::Number)
    ensures
        numeral(number) == Numeral::Integer(value as int),
{
    serde_json::Number::from(value)
}

/// `serde_json::Number::from`, on an `i64`: the number holds that integer.
#[verifier::external_body]
fn number_from_i64(value: i64) -> (number: serde_json::Number)
    ensures
        numeral(number) == Numeral::Integer(value as int),
{
    serde_json::Number::from(value)
}

/// `serde_json::Number::clone`: the copy holds the same number.
#[verifier::external_body]
fn number_clone(number: &serde_json::Number) -> (copy: serde_json::Number)
    ensures
        numeral(copy) == numeral(*number),
{
    number.clone()
}

/// `serde_json::Number::to_string`: decimal digits for an integer; for a floating-point number
/// the crate's own shortest text, which is not spelled out here beyond being ASCII.
#[verifier::external_body]
fn number_to_string(number: &serde_json::Number) -> (text: String)
    ensures
        numeral(*number) matches Numeral::Integer(integer) ==> text@ == integer_text(integer),
        numeral(*number) matches Numeral::Float(bits) ==> text@ == float_text(bits),
        is_ascii_chars(text@),
{
    number.to_string()
}

/// A floating-point JSON number.
#[derive(Debug, PartialEq)]
pub struct JsonFloat {
    number: serde_json::Number,
}

impl JsonFloat {
    #[verifier::type_invariant]
    spec fn holds_float(self) -> bool {
        numeral(self.number) is Float
    }

    /// The number that this holds.
    pub closed spec fn view(self) -> Numeral {
        numeral(self.number)
    }
}

/// A JSON number.
#[derive(Debug, PartialEq)]
pub enum JsonNumber {
    Unsigned(u64),
    Signed(i64),
    Float(JsonFloat),
}

impl JsonNumber {
    /// The number that this stands for.
    pub open spec fn view(self) -> Numeral {
        match self {
            JsonNumber::Unsigned(value) => Numeral::Integer(value as int),
            JsonNumber::Signed(value) => Numeral::Integer(value as int),
            JsonNumber::Float(value) => value@,
        }
    }

    /// Takes a number over from `serde_json`.
    pub fn from_number(number: serde_json::Number) -> (value: JsonNumber)
        ensures
            value@ == numeral(number),
    {
        if let Some(unsigned) = number_as_u64(&number) {
            return JsonNumber::Unsigned(unsigned);
        }
        if let Some(signed) = number_as_i64(&number) {
            return JsonNumber::Signed(signed);
        }
        JsonNumber::Float(JsonFloat { number })
    }

    /// Hands the number to `serde_json`.
    pub fn to_number(&self) -> (number: serde_json::Number)
        ensures
            numeral(number) == self@,
    {
        match self {
            JsonNumber::Unsigned(value) => number_from_u64(*value),
            JsonNumber::Signed(value) => number_from_i64(*value),
            JsonNumber::Float(value) => number_clone(&value.number),
        }
    }

    /// The number as a `u64`, if it is an integer that is not negative.
    pub fn as_u64(&self) -> (value: Option<u64>)
        ensures
            match value {
                Some(unsigned) => self@ == Numeral::Integer(unsigned as int),
                None => !(self@ matches Numeral::Integer(integer) && integer >= 0),
            },
    {
        match self {
            JsonNumber::Unsigned(value) => Some(*value),
            JsonNumber::Signed(value) => if *value >= 0 {
                Some(*value as u64)
            } else {
                None
            },
            JsonNumber::Float(value) => {
                proof {
                    use_type_invariant(value);
                }
                None
            },
        }
    }

    /// The text of the number. An integer fits 64 bits, with a sign or without.
    pub fn to_text(&self) -> (text: String)
        ensures
            text@ == numeral_text(self@),
            is_ascii_chars(text@),
            self@ matches Numeral::Integer(integer) ==> i64::MIN <= integer <= u64::MAX,
    {
        proof {
            if let JsonNumber::Float(value) = self {
                use_type_invariant(value);
            }
        }
        let number = self.to_number();
        number_to_string(&number)
    }

    /// A copy of the number.
    pub fn copy(&self) -> (number: JsonNumber)
        ensures
            number@ == self@,
    {
        JsonNumber::from_number(self.to_number())
    }
}

} // verus!
