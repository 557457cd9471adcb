use vstd::prelude::*;
use vstd::string::{StrSliceExecFns, StringExecFns};

use crate::config::Base64ConfigError;
use crate::padding::Base64Error;

verus! {

/// The decimal digits, in order.
pub open spec fn digit(d: nat) -> char {
    "0123456789"@[d as int]
}

/// The decimal writing of `n`, without leading zeros.
pub open spec fn decimal(n: nat) -> Seq<char>
    decreases n,
{
    if n < 10 {
        seq![digit(n)]
    } else {
        decimal(n / 10).push(digit(n % 10))
    }
}

/// The character that stands for byte `b` in a message (the code point of the same
/// number).
pub open spec fn byte_char(b: u8) -> char {
    b as char
}

/// The text of a configuration error.
pub open spec fn config_error_message(e: Base64ConfigError) -> Seq<char> {
    match e {
        Base64ConfigError::OverlappingRanges(a, b) => "Overlapping ranges "@ + seq![
            byte_char(a@.start),
        ] + "..="@ + seq![byte_char(a@.end)] + " and "@ + seq![byte_char(b@.start)] + "..="@
            + seq![byte_char(b@.end)],
        Base64ConfigError::PaddingCharInRange(c, a) => "Padding character '"@ + seq![byte_char(c)]
            + "' found in range "@ + seq![byte_char(a@.start)] + "..="@ + seq![byte_char(a@.end)],
        Base64ConfigError::RangeLengthsDoNotSumTo64(n) => "Range lengths sum to "@ + decimal(
            n as nat,
        ) + ", not 64"@,
    }
}

/// The text of a decoding error.
pub open spec fn decode_error_message(e: Base64Error) -> Seq<char> {
    match e {
        Base64Error::InvalidCharacter(c) => "Invalid character '"@ + seq![byte_char(c)] + "'"@,
        Base64Error::InvalidLength(n, c) => "Length "@ + decimal(n as nat)
            + " not a multiple of 4. Padding with character '"@ + seq![byte_char(c)]
            + "' required"@,
        Base64Error::HasPaddingAndLengthNotMultipleOf4(n) => "Padding characters detected and length "@
            + decimal(n as nat) + " not a multiple of 4"@,
        Base64Error::TooManyPaddingCharacters(n) => "Too many padding characters: "@ + decimal(
            n as nat,
        ),
    }
}

/// Relies on `String::push`, which appends one character to the string.
#[verifier::external_body]
fn push_char(s: &mut String, c: char)
    ensures
        final(s)@ == old(s)@.push(c),
{
    s.push(c)
}

/// Appends the decimal writing of `n`.
fn push_decimal(s: &mut String, n: usize)
    ensures
        final(s)@ == old(s)@ + decimal(n as nat),
    decreases n,
{
    proof {
        reveal_strlit("0123456789");
    }
    let digits = "0123456789";
    if n >= 10 {
        push_decimal(s, n / 10);
    }
    let d = digits.get_char(n % 10);
    push_char(s, d);
    assert(s@ =~= old(s)@ + decimal(n as nat));
}

/// Appends the character that stands for byte `b`.
fn push_byte(s: &mut String, b: u8)
    ensures
        final(s)@ == old(s)@.push(byte_char(b)),
{
    push_char(s, b as char);
}

impl Base64ConfigError {
    /// Describes the error in words.
    pub fn to_string(&self) -> (res: String)
        ensures
            res@ == config_error_message(*self),
    {
        match self {
            Base64ConfigError::OverlappingRanges(a, b) => {
                let mut s = String::from_str("Overlapping ranges ");
                push_byte(&mut s, *a.start());
                s.append("..=");
                push_byte(&mut s, *a.end());
                s.append(" and ");
                push_byte(&mut s, *b.start());
                s.append("..=");
                push_byte(&mut s, *b.end());
                assert(s@ =~= config_error_message(*self));
                s
            },
            Base64ConfigError::PaddingCharInRange(c, a) => {
                let mut s = String::from_str("Padding character '");
                push_byte(&mut s, *c);
                s.append("' found in range ");
                push_byte(&mut s, *a.start());
                s.append("..=");
                push_byte(&mut s, *a.end());
                assert(s@ =~= config_error_message(*self));
                s
            },
            Base64ConfigError::RangeLengthsDoNotSumTo64(n) => {
                let mut s = String::from_str("Range lengths sum to ");
                push_decimal(&mut s, *n);
                s.append(", not 64");
                assert(s@ =~= config_error_message(*self));
                s
            },
        }
    }
}

impl Base64Error {
    /// Describes the error in words.
    pub fn to_string(&self) -> (res: String)
        ensures
            res@ == decode_error_message(*self),
    {
        match self {
            Base64Error::InvalidCharacter(c) => {
                let mut s = String::from_str("Invalid character '");
                push_byte(&mut s, *c);
                s.append("'");
                assert(s@ =~= decode_error_message(*self));
                s
            },
            Base64Error::InvalidLength(n, c) => {
                let mut s = String::from_str("Length ");
                push_decimal(&mut s, *n);
                s.append(" not a multiple of 4. Padding with character '");
                push_byte(&mut s, *c);
                s.append("' required");
                assert(s@ =~= decode_error_message(*self));
                s
            },
            Base64Error::HasPaddingAndLengthNotMultipleOf4(n) => {
                let mut s = String::from_str("Padding characters detected and length ");
                push_decimal(&mut s, *n);
                s.append(" not a multiple of 4");
                assert(s@ =~= decode_error_message(*self));
                s
            },
            Base64Error::TooManyPaddingCharacters(n) => {
                let mut s = String::from_str("Too many padding characters: ");
                push_decimal(&mut s, *n);
                assert(s@ =~= decode_error_message(*self));
                s
            },
        }
    }
}

} // verus!
