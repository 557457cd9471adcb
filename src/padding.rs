use vstd::prelude::*;

use crate::alphabet::{in_alphabet, is_member};
use crate::config::{pad_char, Base64Config, Padding};

verus! {

/// Why an encoded buffer cannot be decoded.
#[derive(Debug)]
pub enum Base64Error {
    /// A byte that is neither in the alphabet nor part of the trailing padding.
    InvalidCharacter(u8),
    /// Padding is required and the length is not a multiple of 4; carries the
    /// length and the padding byte.
    InvalidLength(usize, u8),
    /// Padding is optional, present, and the length is not a multiple of 4.
    HasPaddingAndLengthNotMultipleOf4(usize),
    /// Three or more padding bytes end the buffer.
    TooManyPaddingCharacters(usize),
}

/// Number of consecutive bytes equal to `c` at the end of `s`.
pub open spec fn trailing_run(s: Seq<u8>, c: u8) -> nat
    decreases s.len(),
{
    if s.len() > 0 && s.last() == c {
        1 + trailing_run(s.drop_last(), c)
    } else {
        0
    }
}

/// Number of trailing padding bytes, counted up to 3; always 0 without a padding byte.
pub open spec fn pad_count(p: Padding, s: Seq<u8>) -> nat {
    match pad_char(p) {
        Some(c) => if trailing_run(s, c) < 3 {
            trailing_run(s, c)
        } else {
            3
        },
        None => 0,
    }
}

/// The last byte of `s` that lies outside the alphabet, if any.
pub open spec fn last_invalid(rs: Seq<(u8, u8)>, s: Seq<u8>) -> Option<u8>
    decreases s.len(),
{
    if s.len() == 0 {
        None
    } else if !is_member(rs, s.last() as int) {
        Some(s.last())
    } else {
        last_invalid(rs, s.drop_last())
    }
}

/// The outcome of checking an encoded buffer `s` against an alphabet and a padding
/// policy: the number of symbols before the padding, or the first failing check among
/// padding count, symbol membership (scanning from the end), required length and
/// optional padding consistency.
pub open spec fn validation(rs: Seq<(u8, u8)>, p: Padding, s: Seq<u8>) -> Result<usize, Base64Error> {
    let t = pad_count(p, s);
    if t >= 3 {
        Err(Base64Error::TooManyPaddingCharacters(t as usize))
    } else if last_invalid(rs, s.take(s.len() - t)) is Some {
        Err(Base64Error::InvalidCharacter(last_invalid(rs, s.take(s.len() - t))->Some_0))
    } else {
        match p {
            Padding::Required(c) => if s.len() % 4 != 0 {
                Err(Base64Error::InvalidLength(s.len() as usize, c))
            } else {
                Ok((s.len() - t) as usize)
            },
            Padding::Optional(_) => if t != 0 && s.len() % 4 != 0 {
                Err(Base64Error::HasPaddingAndLengthNotMultipleOf4(s.len() as usize))
            } else {
                Ok((s.len() - t) as usize)
            },
            Padding::NoPadding => Ok((s.len() - t) as usize),
        }
    }
}

/// A run of `i` bytes equal to `c` ends `s`; it is the whole trailing run when the
/// byte before it differs or `s` has no more bytes.
proof fn lemma_trailing_run(s: Seq<u8>, c: u8, i: int)
    requires
        0 <= i <= s.len(),
        forall|k: int| s.len() - i <= k < s.len() ==> s[k] == c,
    ensures
        trailing_run(s, c) >= i,
        (i == s.len() || s[s.len() - 1 - i] != c) ==> trailing_run(s, c) == i,
    decreases i,
{
    if i > 0 {
        let d = s.drop_last();
        assert forall|k: int| d.len() - (i - 1) <= k < d.len() implies d[k] == c by {
            assert(d[k] == s[k]);
        }
        lemma_trailing_run(d, c, i - 1);
        if i < s.len() {
            assert(d[d.len() - 1 - (i - 1)] == s[s.len() - 1 - i]);
        }
    }
}

/// Counts the bytes equal to `p` at the end of `bytes`, looking at no more than the
/// last three.
fn count_from_back(bytes: &[u8], p: u8) -> (res: usize)
    ensures
        res == if trailing_run(bytes@, p) < 3 {
            trailing_run(bytes@, p)
        } else {
            3
        },
        res <= bytes@.len(),
{
    let n = bytes.len();
    let mut i: usize = 0;
    while i < 3 && i < n && bytes[n - 1 - i] == p
        invariant
            i <= 3,
            i <= n,
            n == bytes@.len(),
            forall|k: int| n - i <= k < n ==> bytes@[k] == p,
        decreases 3 - i,
    {
        i += 1;
    }
    proof {
        lemma_trailing_run(bytes@, p, i as int);
    }
    i
}

/// Counts the padding bytes that end an encoded buffer, up to 3; 0 when the policy
/// has no padding byte.
pub fn count_trailing_pad_characters(config: &Base64Config, base64_encoded_bytes: &[u8]) -> (res:
    usize)
    ensures
        res == pad_count(config.policy(), base64_encoded_bytes@),
        res <= base64_encoded_bytes@.len(),
{
    match config.padding() {
        Padding::Required(p) | Padding::Optional(p) => count_from_back(base64_encoded_bytes, p),
        Padding::NoPadding => 0,
    }
}

/// Checks an encoded buffer before decoding: no more than two padding bytes, every
/// other byte in the alphabet, and a length that fits the padding policy. Returns the
/// number of symbols before the padding.
pub fn validate_base64(config: &Base64Config, base64_encoded_bytes: &[u8]) -> (res: Result<
    usize,
    Base64Error,
>)
    ensures
        res == validation(config.alphabet(), config.policy(), base64_encoded_bytes@),
{
    let ghost rs = config.alphabet();
    let ghost s = base64_encoded_bytes@;
    let trailing_pad_count = count_trailing_pad_characters(config, base64_encoded_bytes);
    if trailing_pad_count >= 3 {
        return Err(Base64Error::TooManyPaddingCharacters(trailing_pad_count));
    }
    let length = base64_encoded_bytes.len();
    let ghost body = s.take(length - trailing_pad_count);
    let mut j: usize = length - trailing_pad_count;
    assert(body.take(j as int) =~= body);
    while j > 0
        invariant
            j <= length - trailing_pad_count,
            length == s.len(),
            s == base64_encoded_bytes@,
            body == s.take(length - trailing_pad_count),
            rs == config.alphabet(),
            trailing_pad_count == pad_count(config.policy(), s),
            trailing_pad_count < 3,
            last_invalid(rs, body) == last_invalid(rs, body.take(j as int)),
        decreases j,
    {
        let c = base64_encoded_bytes[j - 1];
        assert(body.take(j as int).drop_last() =~= body.take(j - 1));
        assert(body.take(j as int).last() == c);
        if !in_alphabet(config, c) {
            return Err(Base64Error::InvalidCharacter(c));
        }
        j -= 1;
    }
    assert(body.take(0) =~= Seq::<u8>::empty());
    match config.padding() {
        Padding::Required(c) => {
            if length % 4 != 0 {
                return Err(Base64Error::InvalidLength(length, c));
            }
        },
        Padding::Optional(_) => {
            if trailing_pad_count != 0 && length % 4 != 0 {
                return Err(Base64Error::HasPaddingAndLengthNotMultipleOf4(length));
            }
        },
        Padding::NoPadding => {},
    }
    Ok(length - trailing_pad_count)
}

} // verus!
