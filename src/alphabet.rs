use vstd::prelude::*;

use crate::config::{valid_config, Base64Config};
use crate::ranges::{bounds_of, in_range, no_overlaps, overlap, range_len, total_len};

verus! {

/// `o` with `d` added to the value it holds, if any.
pub open spec fn shifted(o: Option<int>, d: int) -> Option<int> {
    match o {
        Some(v) => Some(v + d),
        None => None,
    }
}

/// The 6-bit value of byte `b`: its place in the first range that holds it, counted
/// from the start of the alphabet; `None` if no range holds it.
pub open spec fn value_of(rs: Seq<(u8, u8)>, b: int) -> Option<int>
    decreases rs.len(),
{
    if rs.len() == 0 {
        None
    } else if in_range(rs[0], b) {
        Some(b - rs[0].0)
    } else {
        shifted(value_of(rs.drop_first(), b), range_len(rs[0]) as int)
    }
}

/// The byte that stands for value `v`: the `v`-th byte of the alphabet when its
/// ranges are laid end to end; `None` if `v` is past the end.
pub open spec fn symbol_of(rs: Seq<(u8, u8)>, v: int) -> Option<int>
    decreases rs.len(),
{
    if rs.len() == 0 {
        None
    } else if 0 <= v < range_len(rs[0]) {
        Some(rs[0].0 + v)
    } else {
        symbol_of(rs.drop_first(), v - range_len(rs[0]))
    }
}

/// Some range holds byte `b`.
pub open spec fn is_member(rs: Seq<(u8, u8)>, b: int) -> bool {
    exists|k: int| 0 <= k < rs.len() && in_range(#[trigger] rs[k], b)
}

/// What `decode_byte` returns: the value of `b`, or 0 for a byte outside the alphabet.
pub open spec fn decoded_value(rs: Seq<(u8, u8)>, b: u8) -> u8 {
    match value_of(rs, b as int) {
        Some(v) => v as u8,
        None => 0,
    }
}

/// What `encode_byte` returns: the byte for `v`, or 0 for a value past the alphabet.
pub open spec fn encoded_symbol(rs: Seq<(u8, u8)>, v: u8) -> u8 {
    match symbol_of(rs, v as int) {
        Some(c) => c as u8,
        None => 0,
    }
}

/// Dropping the first `i + 1` ranges is dropping the first `i`, then one more.
proof fn lemma_skip_step<A>(s: Seq<A>, i: int)
    requires
        0 <= i < s.len(),
    ensures
        s.skip(i).drop_first() == s.skip(i + 1),
        s.skip(i)[0] == s[i],
        s.skip(i).len() > 0,
{
    assert(s.skip(i).drop_first() =~= s.skip(i + 1));
}

/// A value, when there is one, lies below the alphabet's length.
pub proof fn lemma_value_bound(rs: Seq<(u8, u8)>, b: int)
    ensures
        value_of(rs, b) matches Some(v) ==> 0 <= v < total_len(rs),
        value_of(rs, b) is Some <==> is_member(rs, b),
    decreases rs.len(),
{
    if rs.len() > 0 {
        lemma_value_bound(rs.drop_first(), b);
        if is_member(rs, b) && !in_range(rs[0], b) {
            let k = choose|k: int| 0 <= k < rs.len() && in_range(#[trigger] rs[k], b);
            assert(in_range(rs.drop_first()[k - 1], b));
        }
        if is_member(rs.drop_first(), b) {
            let k = choose|k: int| 0 <= k < rs.drop_first().len() && in_range(#[trigger] rs.drop_first()[k], b);
            assert(in_range(rs[k + 1], b));
        }
    }
}

/// In an alphabet of disjoint ranges, each value below its length has a byte, that
/// byte belongs to the alphabet, and its value is the one it came from.
pub proof fn lemma_symbol_value(rs: Seq<(u8, u8)>, v: int)
    requires
        no_overlaps(rs),
        0 <= v < total_len(rs),
    ensures
        symbol_of(rs, v) is Some,
        is_member(rs, symbol_of(rs, v)->Some_0),
        value_of(rs, symbol_of(rs, v)->Some_0) == Some(v),
        0 <= symbol_of(rs, v)->Some_0 < 256,
    decreases rs.len(),
{
    let rest = rs.drop_first();
    if v < range_len(rs[0]) {
        assert(in_range(rs[0], rs[0].0 + v));
    } else {
        assert(no_overlaps(rest)) by {
            assert forall|i: int, j: int| 0 <= i < j < rest.len() implies !overlap(
                #[trigger] rest[i],
                #[trigger] rest[j],
            ) by {
                assert(rest[i] == rs[i + 1] && rest[j] == rs[j + 1]);
            }
        }
        lemma_symbol_value(rest, v - range_len(rs[0]));
        let c = symbol_of(rest, v - range_len(rs[0]))->Some_0;
        let k = choose|k: int| 0 <= k < rest.len() && in_range(#[trigger] rest[k], c);
        assert(rest[k] == rs[k + 1]);
        assert(!overlap(rs[0], rs[k + 1]));
        assert(in_range(rs[k + 1], c));
    }
}

/// Tells whether some range of the alphabet holds byte `b`.
pub fn in_alphabet(config: &Base64Config, b: u8) -> (res: bool)
    ensures
        res == is_member(config.alphabet(), b as int),
{
    let ranges = config.ranges_slice();
    let ghost rs = config.alphabet();
    let n = ranges.len();
    let mut i: usize = 0;
    while i < n
        invariant
            i <= n,
            n == rs.len(),
            rs == bounds_of(ranges@),
            rs == config.alphabet(),
            forall|k: int| 0 <= k < i ==> !in_range(#[trigger] rs[k], b as int),
        decreases n - i,
    {
        let r = &ranges[i];
        assert(rs[i as int] == (r@.start, r@.end));
        if *r.start() <= b && b <= *r.end() {
            return true;
        }
        i += 1;
    }
    false
}

/// Maps an encoded byte to its 6-bit value: its place in the first range that holds
/// it, after the lengths of the ranges before. A byte outside the alphabet gives 0,
/// so callers check membership first.
pub fn decode_byte(config: &Base64Config, b: u8) -> (res: u8)
    ensures
        res == decoded_value(config.alphabet(), b),
{
    let ranges = config.ranges_slice();
    let ghost rs = config.alphabet();
    let n = ranges.len();
    let mut offset: u8 = 0;
    let mut i: usize = 0;
    assert(rs.skip(0) =~= rs);
    proof {
        lemma_value_bound(rs, b as int);
    }
    while i < n
        invariant
            i <= n,
            n == rs.len(),
            rs == bounds_of(ranges@),
            rs == config.alphabet(),
            valid_config(rs, config.policy()),
            offset + total_len(rs.skip(i as int)) == 64,
            value_of(rs, b as int) matches Some(v) ==> 0 <= v < 64,
            value_of(rs, b as int) == shifted(value_of(rs.skip(i as int), b as int), offset as int),
        decreases n - i,
    {
        proof {
            lemma_skip_step(rs, i as int);
        }
        let r = &ranges[i];
        assert(rs[i as int] == (r@.start, r@.end));
        if *r.start() <= b && b <= *r.end() {
            assert(value_of(rs.skip(i as int), b as int) == Some(b - r@.start));
            return b - *r.start() + offset;
        }
        if *r.start() <= *r.end() {
            offset = offset + (*r.end() - *r.start()) + 1;
        }
        i += 1;
    }
    0
}

/// Maps a 6-bit value to its encoded byte: the byte at that place when the ranges
/// are laid end to end. A value past the alphabet gives 0.
pub fn encode_byte(config: &Base64Config, v: u8) -> (res: u8)
    ensures
        res == encoded_symbol(config.alphabet(), v),
{
    let ranges = config.ranges_slice();
    let ghost rs = config.alphabet();
    let n = ranges.len();
    let mut offset: u8 = 0;
    let mut i: usize = 0;
    assert(rs.skip(0) =~= rs);
    while i < n
        invariant
            i <= n,
            n == rs.len(),
            rs == bounds_of(ranges@),
            rs == config.alphabet(),
            valid_config(rs, config.policy()),
            offset + total_len(rs.skip(i as int)) == 64,
            offset <= v,
            symbol_of(rs, v as int) == symbol_of(rs.skip(i as int), v - offset),
        decreases n - i,
    {
        proof {
            lemma_skip_step(rs, i as int);
        }
        let r = &ranges[i];
        assert(rs[i as int] == (r@.start, r@.end));
        if *r.start() <= *r.end() {
            if v - offset <= *r.end() - *r.start() {
                assert(symbol_of(rs.skip(i as int), v - offset) == Some(r@.start + v - offset));
                return *r.start() + (v - offset);
            }
            offset = offset + (*r.end() - *r.start()) + 1;
        }
        i += 1;
    }
    0
}

} // verus!
