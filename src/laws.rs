use vstd::prelude::*;

use crate::alphabet::{
    decoded_value, encoded_symbol, is_member, lemma_symbol_value, lemma_value_bound, symbol_of,
};
use crate::config::{pad_char, valid_config, Padding};
use crate::padding::{last_invalid, pad_count, trailing_run, validation, Base64Error};
use crate::ranges::in_range;
use crate::transcode::{
    decoded_bytes, decoding, encoding, octet_stream, octets, padding_count, padding_of,
    sextet_stream, sextets, symbol_count, zero_pad,
};

verus! {

/// Splitting three bytes into 6-bit values and joining them again gives the bytes
/// back; the values are below 64, and those made only of zero padding are 0.
pub proof fn lemma_triplet_bits(a: u8, b: u8, c: u8)
    ensures
        ({
            let s = sextets(a, b, c);
            octets(s[0], s[1], s[2], s[3]) == seq![a, b, c]
        }),
        forall|j: int| 0 <= j < 4 ==> #[trigger] sextets(a, b, c)[j] < 64,
        b == 0 && c == 0 ==> sextets(a, b, c)[2] == 0 && sextets(a, b, c)[3] == 0,
        c == 0 ==> sextets(a, b, c)[3] == 0,
{
    let w: u32 = (a as u32) << 16u32 | (b as u32) << 8u32 | (c as u32);
    let s0: u8 = ((w >> 18u32) & 63u32) as u8;
    let s1: u8 = ((w >> 12u32) & 63u32) as u8;
    let s2: u8 = ((w >> 6u32) & 63u32) as u8;
    let s3: u8 = (w & 63u32) as u8;
    let v: u32 = (s0 as u32) << 18u32 | (s1 as u32) << 12u32 | (s2 as u32) << 6u32 | (s3 as u32);
    assert(((v >> 16u32) & 255u32) as u8 == a && ((v >> 8u32) & 255u32) as u8 == b && (v
        & 255u32) as u8 == c && s0 < 64 && s1 < 64 && s2 < 64 && s3 < 64 && (b == 0 && c == 0
        ==> s2 == 0 && s3 == 0) && (c == 0 ==> s3 == 0)) by (bit_vector)
        requires
            w == (a as u32) << 16u32 | (b as u32) << 8u32 | (c as u32),
            s0 == ((w >> 18u32) & 63u32) as u8,
            s1 == ((w >> 12u32) & 63u32) as u8,
            s2 == ((w >> 6u32) & 63u32) as u8,
            s3 == (w & 63u32) as u8,
            v == (s0 as u32) << 18u32 | (s1 as u32) << 12u32 | (s2 as u32) << 6u32 | (s3 as u32),
    ;
    assert(sextets(a, b, c) =~= seq![s0, s1, s2, s3]);
    assert(octets(s0, s1, s2, s3) =~= seq![a, b, c]);
}

/// A run of `k` bytes `c` after a sequence that does not end in `c` is the whole
/// trailing run.
proof fn lemma_trailing_run_of_padding(x: Seq<u8>, c: u8, k: nat)
    requires
        x.len() == 0 || x.last() != c,
    ensures
        trailing_run(x + Seq::new(k, |i: int| c), c) == k,
    decreases k,
{
    let y = x + Seq::new(k, |i: int| c);
    if k == 0 {
        assert(y =~= x);
    } else {
        assert(y.drop_last() =~= x + Seq::new((k - 1) as nat, |i: int| c));
        lemma_trailing_run_of_padding(x, c, (k - 1) as nat);
    }
}

/// A sequence made only of alphabet bytes has no invalid byte.
proof fn lemma_no_invalid(rs: Seq<(u8, u8)>, s: Seq<u8>)
    requires
        forall|i: int| 0 <= i < s.len() ==> is_member(rs, #[trigger] s[i] as int),
    ensures
        last_invalid(rs, s) is None,
    decreases s.len(),
{
    if s.len() > 0 {
        assert(is_member(rs, s[s.len() - 1] as int));
        lemma_no_invalid(rs, s.drop_last());
    }
}

/// Counts of the encoding of `n` bytes: the data symbols and the padding fill whole
/// groups of four, and the data symbols decode to exactly `n` bytes.
proof fn lemma_counts(n: nat)
    ensures
        symbol_count(n) + padding_count(n) == (n + 2) / 3 * 4,
        padding_count(n) < 3,
        n % 3 != 0 ==> padding_count(n) > 0,
        symbol_count(n) * 6 / 8 == n,
        symbol_count(n) + 3 >= (n + 2) / 3 * 4,
        (symbol_count(n) + 3) / 4 * 4 == (n + 2) / 3 * 4,
        (n + 2) / 3 * 4 - symbol_count(n) <= 2,
        n % 3 == 1 ==> symbol_count(n) == (n + 2) / 3 * 4 - 2,
        n % 3 == 2 ==> symbol_count(n) == (n + 2) / 3 * 4 - 1,
        n % 3 == 0 ==> symbol_count(n) == (n + 2) / 3 * 4,
{
}

/// The 6-bit values of the encoding of `b` are below 64, and those past the data
/// symbols come from zero padding only.
proof fn lemma_stream_values(b: Seq<u8>)
    ensures
        forall|k: int|
            0 <= k < sextet_stream(b).len() ==> #[trigger] sextet_stream(b)[k] < 64 && (k
                >= symbol_count(b.len()) ==> sextet_stream(b)[k] == 0),
{
    let n = b.len();
    let q = (n + 2) / 3;
    let padded = zero_pad(b, 3);
    let stream = sextet_stream(b);
    let m = symbol_count(n);
    lemma_counts(n);
    assert forall|k: int| 0 <= k < stream.len() implies #[trigger] stream[k] < 64 && (k >= m
        ==> stream[k] == 0) by {
        let g = k / 4;
        lemma_triplet_bits(padded[g * 3], padded[g * 3 + 1], padded[g * 3 + 2]);
        assert(stream[k] == sextets(padded[g * 3], padded[g * 3 + 1], padded[g * 3 + 2])[k % 4]);
        if k >= m {
            assert(g == q - 1);
            assert(g * 3 + 2 >= n);
            if n % 3 == 1 {
                assert(g * 3 + 1 >= n);
            }
        }
    }
}

/// The data symbols of an encoding under a valid alphabet are alphabet bytes, each
/// decodes to the value it came from, and none is the padding byte.
proof fn lemma_data_symbols(rs: Seq<(u8, u8)>, p: Padding, b: Seq<u8>)
    requires
        valid_config(rs, p),
    ensures
        ({
            let syms = sextet_stream(b).map_values(|v: u8| encoded_symbol(rs, v)).take(
                symbol_count(b.len()) as int,
            );
            forall|k: int|
                0 <= k < syms.len() ==> is_member(rs, #[trigger] syms[k] as int) && decoded_value(
                    rs,
                    syms[k],
                ) == sextet_stream(b)[k] && pad_char(p) != Some(syms[k])
        }),
{
    let stream = sextet_stream(b);
    let syms = stream.map_values(|v: u8| encoded_symbol(rs, v)).take(symbol_count(b.len()) as int);
    lemma_counts(b.len());
    lemma_stream_values(b);
    assert forall|k: int| 0 <= k < syms.len() implies is_member(rs, #[trigger] syms[k] as int)
        && decoded_value(rs, syms[k]) == stream[k] && pad_char(p) != Some(syms[k]) by {
        lemma_symbol_value(rs, stream[k] as int);
        let c = symbol_of(rs, stream[k] as int)->Some_0;
        assert(syms[k] == c as u8);
        lemma_value_bound(rs, c);
        if pad_char(p) == Some(syms[k]) {
            let j = choose|j: int| 0 <= j < rs.len() && in_range(#[trigger] rs[j], c);
            assert(!in_range(rs[j], pad_char(p)->Some_0 as int));
        }
    }
}

/// An encoding under a valid alphabet passes validation, which counts its data symbols.
proof fn lemma_encoding_validates(rs: Seq<(u8, u8)>, p: Padding, b: Seq<u8>)
    requires
        valid_config(rs, p),
        encoding(rs, p, b).len() <= usize::MAX,
    ensures
        validation(rs, p, encoding(rs, p, b)) == Ok::<usize, Base64Error>(
            symbol_count(b.len()) as usize,
        ),
{
    let n = b.len();
    let m = symbol_count(n);
    let syms = sextet_stream(b).map_values(|v: u8| encoded_symbol(rs, v)).take(m as int);
    let pads = padding_of(p, n);
    let e = encoding(rs, p, b);
    lemma_counts(n);
    lemma_stream_values(b);
    lemma_data_symbols(rs, p, b);
    assert(e == syms + pads);
    assert(pad_count(p, e) == pads.len()) by {
        match pad_char(p) {
            Some(c) => {
                if syms.len() > 0 {
                    assert(pad_char(p) != Some(syms[syms.len() - 1]));
                }
                lemma_trailing_run_of_padding(syms, c, padding_count(n));
            },
            None => {},
        }
    }
    assert(e.take(e.len() - pads.len()) =~= syms);
    lemma_no_invalid(rs, syms);
}

/// Packing the 6-bit values of `b`, cut to its data symbols, gives `b` back.
proof fn lemma_stream_packs_back(b: Seq<u8>)
    ensures
        octet_stream(sextet_stream(b).take(symbol_count(b.len()) as int)).take(
            (symbol_count(b.len()) * 6 / 8) as int,
        ) == b,
{
    let n = b.len();
    let q = (n + 2) / 3;
    let padded = zero_pad(b, 3);
    let stream = sextet_stream(b);
    let m = symbol_count(n);
    lemma_counts(n);
    lemma_stream_values(b);
    let vals = stream.take(m as int);
    assert(zero_pad(vals, 4) =~= stream);
    let out = octet_stream(vals);
    assert(out.len() == 3 * q);
    assert forall|k: int| 0 <= k < out.len() implies #[trigger] out[k] == padded[k] by {
        let g = k / 3;
        let s = sextets(padded[g * 3], padded[g * 3 + 1], padded[g * 3 + 2]);
        lemma_triplet_bits(padded[g * 3], padded[g * 3 + 1], padded[g * 3 + 2]);
        assert(stream[g * 4] == s[0]);
        assert(stream[g * 4 + 1] == s[1]);
        assert(stream[g * 4 + 2] == s[2]);
        assert(stream[g * 4 + 3] == s[3]);
        assert(out[k] == octets(s[0], s[1], s[2], s[3])[k % 3]);
    }
    assert(out.take(n as int) =~= b);
}

/// For every alphabet that validation accepts and every byte sequence whose encoding
/// fits in memory, decoding the encoding gives the bytes back.
pub proof fn lemma_round_trip(rs: Seq<(u8, u8)>, p: Padding, b: Seq<u8>)
    requires
        valid_config(rs, p),
        encoding(rs, p, b).len() <= usize::MAX,
    ensures
        decoding(rs, p, encoding(rs, p, b)) == Ok::<Seq<u8>, Base64Error>(b),
{
    let m = symbol_count(b.len());
    let stream = sextet_stream(b);
    let syms = stream.map_values(|v: u8| encoded_symbol(rs, v)).take(m as int);
    let e = encoding(rs, p, b);
    lemma_counts(b.len());
    lemma_encoding_validates(rs, p, b);
    lemma_data_symbols(rs, p, b);
    assert(e.take(m as int) =~= syms);
    assert(syms.map_values(|c: u8| decoded_value(rs, c)) =~= stream.take(m as int));
    lemma_stream_packs_back(b);
}

} // verus!
