use std::ops::RangeInclusive;
use vstd::prelude::*;

use crate::ranges::{
    bounds, bounds_of, in_range, lemma_total_len_bound, lemma_total_len_split,
    lemma_total_len_take, no_overlaps, overlap, range_len, ranges_overlap, total_len,
};

verus! {

/// How an encoded buffer is padded to a whole number of four-symbol groups.
#[derive(Clone, Copy, Debug)]
pub enum Padding {
    /// Encoded buffers must have a length that is a multiple of 4, padded with this byte.
    Required(u8),
    /// Padding with this byte may be present or left out.
    Optional(u8),
    /// No padding byte exists.
    NoPadding,
}

/// The padding byte of a policy, if it has one.
pub open spec fn pad_char(p: Padding) -> Option<u8> {
    match p {
        Padding::Required(c) => Some(c),
        Padding::Optional(c) => Some(c),
        Padding::NoPadding => None,
    }
}

/// The padding byte, if any, lies in none of the ranges.
pub open spec fn pad_outside(rs: Seq<(u8, u8)>, p: Padding) -> bool {
    match pad_char(p) {
        Some(c) => forall|k: int| 0 <= k < rs.len() ==> !in_range(#[trigger] rs[k], c as int),
        None => true,
    }
}

/// An alphabet made of these ranges, with this padding policy, is usable: the ranges
/// are disjoint, the padding byte is outside them, and they hold exactly 64 values.
pub open spec fn valid_config(rs: Seq<(u8, u8)>, p: Padding) -> bool {
    &&& no_overlaps(rs)
    &&& pad_outside(rs, p)
    &&& total_len(rs) == 64
}

/// `(i, j)` is the first overlapping pair when pairs are enumerated with `i` outer
/// and `j > i` inner.
pub open spec fn first_overlap(rs: Seq<(u8, u8)>, i: int, j: int) -> bool {
    &&& 0 <= i < j < rs.len()
    &&& overlap(rs[i], rs[j])
    &&& forall|a: int, b: int|
        0 <= a < b < rs.len() && (a < i || (a == i && b < j)) ==> !overlap(
            #[trigger] rs[a],
            #[trigger] rs[b],
        )
}

/// `k` is the first range that holds the byte `c`.
pub open spec fn first_range_holding(rs: Seq<(u8, u8)>, c: u8, k: int) -> bool {
    &&& 0 <= k < rs.len()
    &&& in_range(rs[k], c as int)
    &&& forall|a: int| 0 <= a < k ==> !in_range(#[trigger] rs[a], c as int)
}

/// `e` is the error that validation reports for these ranges and this policy: the
/// first failing check among overlap, padding membership and coverage.
pub open spec fn config_error(rs: Seq<(u8, u8)>, p: Padding, e: Base64ConfigError) -> bool {
    match e {
        Base64ConfigError::OverlappingRanges(a, b) => exists|i: int, j: int|
            first_overlap(rs, i, j) && bounds(a) == rs[i] && bounds(b) == rs[j],
        Base64ConfigError::PaddingCharInRange(c, a) => {
            &&& no_overlaps(rs)
            &&& pad_char(p) == Some(c)
            &&& exists|k: int| first_range_holding(rs, c, k) && bounds(a) == rs[k]
        },
        Base64ConfigError::RangeLengthsDoNotSumTo64(n) => {
            &&& no_overlaps(rs)
            &&& pad_outside(rs, p)
            &&& n == total_len(rs)
            &&& n != 64
        },
    }
}

/// Bounds of the usual alphabet: `A-Z`, `a-z`, `0-9`, `+`, `/`.
pub open spec fn standard_alphabet() -> Seq<(u8, u8)> {
    seq![(65u8, 90u8), (97u8, 122u8), (48u8, 57u8), (43u8, 43u8), (47u8, 47u8)]
}

/// Bounds of the URL-safe alphabet: `A-Z`, `a-z`, `0-9`, `-`, `_`.
pub open spec fn url_alphabet() -> Seq<(u8, u8)> {
    seq![(65u8, 90u8), (97u8, 122u8), (48u8, 57u8), (45u8, 45u8), (95u8, 95u8)]
}

/// The preset alphabets with `=` padding, or none, are valid.
pub proof fn lemma_preset_valid(rs: Seq<(u8, u8)>, p: Padding)
    requires
        rs == standard_alphabet() || rs == url_alphabet(),
        pad_char(p) == Some(61u8) || pad_char(p) is None,
    ensures
        valid_config(rs, p),
{
    let r1 = rs.drop_first();
    let r2 = r1.drop_first();
    let r3 = r2.drop_first();
    let r4 = r3.drop_first();
    let r5 = r4.drop_first();
    assert(r5.len() == 0);
    assert(total_len(r4) == range_len(r4[0]) + total_len(r5));
    assert(total_len(r3) == range_len(r3[0]) + total_len(r4));
    assert(total_len(r2) == range_len(r2[0]) + total_len(r3));
    assert(total_len(r1) == range_len(r1[0]) + total_len(r2));
    assert(total_len(rs) == range_len(rs[0]) + total_len(r1));
}

/// An alphabet of 64 symbols given as byte ranges, with a padding policy.
/// The first range holds the values from 0 on, the next one continues where it ends.
pub struct Base64Config {
    ranges: Vec<RangeInclusive<u8>>,
    padding: Padding,
}

/// Why a set of ranges and a padding policy make no alphabet.
#[derive(Debug)]
pub enum Base64ConfigError {
    /// Two ranges share a byte: the first such pair in order of enumeration.
    OverlappingRanges(RangeInclusive<u8>, RangeInclusive<u8>),
    /// The padding byte lies in this range, the first one that holds it.
    PaddingCharInRange(u8, RangeInclusive<u8>),
    /// The range lengths add up to this sum instead of 64.
    RangeLengthsDoNotSumTo64(usize),
}

impl Base64Config {
    #[verifier::type_invariant]
    spec fn is_valid(&self) -> bool {
        valid_config(bounds_of(self.ranges@), self.padding)
    }

    /// The bounds of the alphabet's ranges, in order.
    pub closed spec fn alphabet(&self) -> Seq<(u8, u8)> {
        bounds_of(self.ranges@)
    }

    /// The padding policy.
    pub closed spec fn policy(&self) -> Padding {
        self.padding
    }

    /// Builds a config after checking it; fails with the error that `validate_config`
    /// reports.
    pub fn new(ranges: Vec<RangeInclusive<u8>>, padding: Padding) -> (res: Result<
        Self,
        Base64ConfigError,
    >)
        ensures
            res is Ok <==> valid_config(bounds_of(ranges@), padding),
            res matches Ok(c) ==> c.alphabet() == bounds_of(ranges@) && c.policy() == padding,
            res matches Err(e) ==> config_error(bounds_of(ranges@), padding, e),
    {
        match validate_config(ranges.as_slice(), &padding) {
            Ok(()) => Ok(Base64Config { ranges, padding }),
            Err(e) => Err(e),
        }
    }

    /// Builds a config from ranges and a policy that are known to be valid.
    fn from_valid(ranges: Vec<RangeInclusive<u8>>, padding: Padding) -> (res: Self)
        requires
            valid_config(bounds_of(ranges@), padding),
        ensures
            res.alphabet() == bounds_of(ranges@),
            res.policy() == padding,
    {
        match Base64Config::new(ranges, padding) {
            Ok(c) => c,
            Err(_) => unreached(),
        }
    }

    /// The usual alphabet `A-Z a-z 0-9 + /`, with optional `=` padding.
    pub fn standard() -> (res: Self)
        ensures
            res.alphabet() == standard_alphabet(),
            res.policy() == Padding::Optional(61u8),
    {
        let ranges = vec![
            RangeInclusive::new('A' as u8, 'Z' as u8),
            RangeInclusive::new('a' as u8, 'z' as u8),
            RangeInclusive::new('0' as u8, '9' as u8),
            RangeInclusive::new('+' as u8, '+' as u8),
            RangeInclusive::new('/' as u8, '/' as u8),
        ];
        assert(bounds_of(ranges@) =~= standard_alphabet());
        proof {
            lemma_preset_valid(standard_alphabet(), Padding::Optional(61u8));
        }
        Base64Config::from_valid(ranges, Padding::Optional('=' as u8))
    }

    /// The URL-safe alphabet `A-Z a-z 0-9 - _`, with optional `=` padding.
    pub fn url() -> (res: Self)
        ensures
            res.alphabet() == url_alphabet(),
            res.policy() == Padding::Optional(61u8),
    {
        let ranges = vec![
            RangeInclusive::new('A' as u8, 'Z' as u8),
            RangeInclusive::new('a' as u8, 'z' as u8),
            RangeInclusive::new('0' as u8, '9' as u8),
            RangeInclusive::new('-' as u8, '-' as u8),
            RangeInclusive::new('_' as u8, '_' as u8),
        ];
        assert(bounds_of(ranges@) =~= url_alphabet());
        proof {
            lemma_preset_valid(url_alphabet(), Padding::Optional(61u8));
        }
        Base64Config::from_valid(ranges, Padding::Optional('=' as u8))
    }

    /// The MIME alphabet, the usual one, with required `=` padding.
    pub fn mime() -> (res: Self)
        ensures
            res.alphabet() == standard_alphabet(),
            res.policy() == Padding::Required(61u8),
    {
        let ranges = vec![
            RangeInclusive::new('A' as u8, 'Z' as u8),
            RangeInclusive::new('a' as u8, 'z' as u8),
            RangeInclusive::new('0' as u8, '9' as u8),
            RangeInclusive::new('+' as u8, '+' as u8),
            RangeInclusive::new('/' as u8, '/' as u8),
        ];
        assert(bounds_of(ranges@) =~= standard_alphabet());
        proof {
            lemma_preset_valid(standard_alphabet(), Padding::Required(61u8));
        }
        Base64Config::from_valid(ranges, Padding::Required('=' as u8))
    }

    /// Fetches the ranges of the config, which the config keeps valid.
    pub(crate) fn ranges_slice(&self) -> (res: &[RangeInclusive<u8>])
        ensures
            bounds_of(res@) == self.alphabet(),
            valid_config(self.alphabet(), self.policy()),
    {
        proof {
            use_type_invariant(self);
        }
        self.ranges.as_slice()
    }

    /// Fetches the padding policy.
    pub(crate) fn padding(&self) -> (res: Padding)
        ensures
            res == self.policy(),
    {
        self.padding
    }
}

/// Finds the first pair of overlapping ranges, enumerating `i` and then `j > i`.
fn find_overlap(ranges: &[RangeInclusive<u8>]) -> (res: Option<(usize, usize)>)
    ensures
        res matches Some((i, j)) ==> first_overlap(bounds_of(ranges@), i as int, j as int),
        res is None ==> no_overlaps(bounds_of(ranges@)),
{
    let ghost rs = bounds_of(ranges@);
    let n = ranges.len();
    let mut i: usize = 0;
    while i < n
        invariant
            i <= n,
            n == rs.len(),
            rs == bounds_of(ranges@),
            forall|a: int, b: int| 0 <= a < b < n && a < i ==> !overlap(#[trigger] rs[a], #[trigger] rs[b]),
        decreases n - i,
    {
        let mut j: usize = i + 1;
        while j < n
            invariant
                i < n,
                i + 1 <= j <= n,
                n == rs.len(),
                rs == bounds_of(ranges@),
                forall|a: int, b: int| 0 <= a < b < n && a < i ==> !overlap(#[trigger] rs[a], #[trigger] rs[b]),
                forall|b: int| i < b < j ==> !overlap(rs[i as int], #[trigger] rs[b]),
            decreases n - j,
        {
            if ranges_overlap(&ranges[i], &ranges[j]) {
                return Some((i, j));
            }
            j += 1;
        }
        i += 1;
    }
    None
}

/// Checks that ranges and a padding policy make an alphabet: no two ranges overlap,
/// the padding byte lies in no range, and the range lengths add up to 64. The first
/// failing check, in that order, gives the error.
pub fn validate_config(ranges: &[RangeInclusive<u8>], padding: &Padding) -> (res: Result<
    (),
    Base64ConfigError,
>)
    ensures
        res is Ok <==> valid_config(bounds_of(ranges@), *padding),
        res matches Err(e) ==> config_error(bounds_of(ranges@), *padding, e),
{
    let ghost rs = bounds_of(ranges@);
    if let Some((i, j)) = find_overlap(ranges) {
        let a = RangeInclusive::new(*ranges[i].start(), *ranges[i].end());
        let b = RangeInclusive::new(*ranges[j].start(), *ranges[j].end());
        return Err(Base64ConfigError::OverlappingRanges(a, b));
    }
    let n = ranges.len();
    match *padding {
        Padding::Required(c) | Padding::Optional(c) => {
            let mut k: usize = 0;
            while k < n
                invariant
                    k <= n,
                    n == rs.len(),
                    rs == bounds_of(ranges@),
                    pad_char(*padding) == Some(c),
                    no_overlaps(rs),
                    forall|a: int| 0 <= a < k ==> !in_range(#[trigger] rs[a], c as int),
                decreases n - k,
            {
                let r = &ranges[k];
                if *r.start() <= c && c <= *r.end() {
                    let a = RangeInclusive::new(*r.start(), *r.end());
                    assert(rs[k as int] == bounds(ranges@[k as int]));
                    assert(bounds(a) == rs[k as int]);
                    assert(first_range_holding(rs, c, k as int));
                    return Err(Base64ConfigError::PaddingCharInRange(c, a));
                }
                k += 1;
            }
        },
        Padding::NoPadding => {},
    }
    proof {
        lemma_total_len_bound(rs);
    }
    let mut sum: usize = 0;
    let mut k: usize = 0;
    while k < n
        invariant
            k <= n,
            n == rs.len(),
            rs == bounds_of(ranges@),
            total_len(rs) <= 256,
            sum == total_len(rs.take(k as int)),
        decreases n - k,
    {
        proof {
            lemma_total_len_take(rs, k as int);
            lemma_total_len_split(rs, k as int + 1);
        }
        let r = &ranges[k];
        if *r.start() <= *r.end() {
            sum = sum + (*r.end() - *r.start()) as usize + 1;
        }
        k += 1;
    }
    assert(rs.take(n as int) =~= rs);
    if sum != 64 {
        return Err(Base64ConfigError::RangeLengthsDoNotSumTo64(sum));
    }
    Ok(())
}

} // verus!
