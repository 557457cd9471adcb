use vstd::prelude::*;

use crate::alphabet::{decode_byte, decoded_value, encode_byte, encoded_symbol};
use crate::config::{pad_char, Base64Config, Padding};
use crate::padding::{validate_base64, validation, Base64Error};

verus! {

/// Three bytes read as one 24-bit word, the first byte highest.
pub open spec fn triplet_word(a: u8, b: u8, c: u8) -> u32 {
    (a as u32) << 16u32 | (b as u32) << 8u32 | (c as u32)
}

/// The four 6-bit values of a 24-bit word, highest first.
pub open spec fn sextets(a: u8, b: u8, c: u8) -> Seq<u8> {
    let w = triplet_word(a, b, c);
    seq![
        ((w >> 18u32) & 63u32) as u8,
        ((w >> 12u32) & 63u32) as u8,
        ((w >> 6u32) & 63u32) as u8,
        (w & 63u32) as u8,
    ]
}

/// Four 6-bit values read as one 24-bit word, the first value highest.
pub open spec fn quad_word(a: u8, b: u8, c: u8, d: u8) -> u32 {
    (a as u32) << 18u32 | (b as u32) << 12u32 | (c as u32) << 6u32 | (d as u32)
}

/// The three bytes of the word made of four 6-bit values, highest first.
pub open spec fn octets(a: u8, b: u8, c: u8, d: u8) -> Seq<u8> {
    let w = quad_word(a, b, c, d);
    seq![((w >> 16u32) & 255u32) as u8, ((w >> 8u32) & 255u32) as u8, (w & 255u32) as u8]
}

/// `s` followed by zero bytes up to the next multiple of `k`.
pub open spec fn zero_pad(s: Seq<u8>, k: nat) -> Seq<u8>
    recommends
        k > 0,
{
    Seq::new(
        (((s.len() + k - 1) / k as int) * k) as nat,
        |i: int|
            if i < s.len() {
                s[i]
            } else {
                0u8
            },
    )
}

/// The 6-bit values of `b` after padding it with zero bytes to whole groups of three:
/// four values for each group.
pub open spec fn sextet_stream(b: Seq<u8>) -> Seq<u8> {
    let p = zero_pad(b, 3);
    Seq::new(
        (p.len() / 3 * 4) as nat,
        |k: int| sextets(p[(k / 4) * 3], p[(k / 4) * 3 + 1], p[(k / 4) * 3 + 2])[k % 4],
    )
}

/// The bytes of the 6-bit values `v` after padding them with zeros to whole groups of
/// four: three bytes for each group.
pub open spec fn octet_stream(v: Seq<u8>) -> Seq<u8> {
    let p = zero_pad(v, 4);
    Seq::new(
        (p.len() / 4 * 3) as nat,
        |k: int|
            octets(p[(k / 3) * 4], p[(k / 3) * 4 + 1], p[(k / 3) * 4 + 2], p[(k / 3) * 4 + 3])[k
                % 3],
    )
}

/// Number of symbols that carry the data of `n` bytes: `ceil(8n / 6)`.
pub open spec fn symbol_count(n: nat) -> nat {
    (n * 8 + 5) / 6
}

/// Number of padding symbols after the symbols of `n` bytes.
pub open spec fn padding_count(n: nat) -> nat {
    (((3 - n % 3) % 3) * 8 / 6) as nat
}

/// The padding that ends the encoding of `n` bytes under policy `p`.
pub open spec fn padding_of(p: Padding, n: nat) -> Seq<u8> {
    match pad_char(p) {
        Some(c) => Seq::new(padding_count(n), |i: int| c),
        None => Seq::empty(),
    }
}

/// The encoding of `b`: the symbols of its 6-bit values, cut to the ones that carry
/// data, then the padding.
pub open spec fn encoding(rs: Seq<(u8, u8)>, p: Padding, b: Seq<u8>) -> Seq<u8> {
    sextet_stream(b).map_values(|v: u8| encoded_symbol(rs, v)).take(symbol_count(b.len()) as int)
        + padding_of(p, b.len())
}

/// The bytes that the symbols `s` (padding removed) stand for: their values, packed
/// eight bits to a byte, cut to `floor(6 * len / 8)` bytes.
pub open spec fn decoded_bytes(rs: Seq<(u8, u8)>, s: Seq<u8>) -> Seq<u8> {
    octet_stream(s.map_values(|c: u8| decoded_value(rs, c))).take((s.len() * 6 / 8) as int)
}

/// The outcome of decoding `e`: the error of its validation, or the bytes that the
/// symbols before its padding stand for.
pub open spec fn decoding(rs: Seq<(u8, u8)>, p: Padding, e: Seq<u8>) -> Result<Seq<u8>, Base64Error> {
    match validation(rs, p, e) {
        Ok(m) => Ok(decoded_bytes(rs, e.take(m as int))),
        Err(x) => Err(x),
    }
}

/// Splits three bytes into four 6-bit values, highest bits first.
pub fn unpack_triplet(raw_triplet: &[u8]) -> (res: [u8; 4])
    requires
        raw_triplet@.len() >= 3,
    ensures
        res@ == sextets(raw_triplet@[0], raw_triplet@[1], raw_triplet@[2]),
{
    let number: u32 = (raw_triplet[0] as u32) << 16u32 | (raw_triplet[1] as u32) << 8u32
        | (raw_triplet[2] as u32);
    let element_mask: u32 = 63;
    let res = [
        ((number >> 18u32) & element_mask) as u8,
        ((number >> 12u32) & element_mask) as u8,
        ((number >> 6u32) & element_mask) as u8,
        (number & element_mask) as u8,
    ];
    assert(res@ =~= sextets(raw_triplet@[0], raw_triplet@[1], raw_triplet@[2]));
    res
}

/// Joins four 6-bit values into three bytes, highest bits first.
pub fn pack_triplet(encoded_triplet: &[u8]) -> (res: [u8; 3])
    requires
        encoded_triplet@.len() >= 4,
    ensures
        res@ == octets(
            encoded_triplet@[0],
            encoded_triplet@[1],
            encoded_triplet@[2],
            encoded_triplet@[3],
        ),
{
    let number: u32 = (encoded_triplet[0] as u32) << 18u32 | (encoded_triplet[1] as u32) << 12u32
        | (encoded_triplet[2] as u32) << 6u32 | (encoded_triplet[3] as u32);
    let byte_mask: u32 = 255;
    let res = [
        ((number >> 16u32) & byte_mask) as u8,
        ((number >> 8u32) & byte_mask) as u8,
        (number & byte_mask) as u8,
    ];
    assert(res@ =~= octets(
        encoded_triplet@[0],
        encoded_triplet@[1],
        encoded_triplet@[2],
        encoded_triplet@[3],
    ));
    res
}

/// Groups `items` into consecutive chunks of `CHUNK_SIZE`; an incomplete last group
/// is left out.
pub fn chunk_iter<T: Copy, const CHUNK_SIZE: usize>(items: &[T]) -> (res: Vec<[T; CHUNK_SIZE]>)
    requires
        CHUNK_SIZE > 0,
    ensures
        res@.len() == items@.len() as int / (CHUNK_SIZE as int),
        forall|g: int, k: int|
            0 <= g < res@.len() && 0 <= k < CHUNK_SIZE ==> #[trigger] res@[g]@[k] == items@[g
                * CHUNK_SIZE + k],
{
    let n = items.len();
    let mut res: Vec<[T; CHUNK_SIZE]> = Vec::new();
    let mut start: usize = 0;
    assert(res@.len() * CHUNK_SIZE == 0) by (nonlinear_arith)
        requires
            res@.len() == 0,
    ;
    while n - start >= CHUNK_SIZE
        invariant
            CHUNK_SIZE > 0,
            start <= n,
            n == items@.len(),
            start == res@.len() * CHUNK_SIZE,
            forall|g: int, k: int|
                0 <= g < res@.len() && 0 <= k < CHUNK_SIZE ==> #[trigger] res@[g]@[k] == items@[g
                    * CHUNK_SIZE + k],
        decreases n - start,
    {
        let mut chunk: [T; CHUNK_SIZE] = [items[start]; CHUNK_SIZE];
        let mut k: usize = 0;
        while k < CHUNK_SIZE
            invariant
                k <= CHUNK_SIZE,
                start + CHUNK_SIZE <= n,
                n == items@.len(),
                forall|j: int| 0 <= j < k ==> chunk@[j] == items@[start + j],
            decreases CHUNK_SIZE - k,
        {
            chunk[k] = items[start + k];
            k += 1;
        }
        let ghost before = res@;
        res.push(chunk);
        proof {
            assert forall|g: int, k: int|
                0 <= g < res@.len() && 0 <= k < CHUNK_SIZE implies #[trigger] res@[g]@[k]
                == items@[g * CHUNK_SIZE + k] by {
                if g < before.len() {
                    assert(res@[g] == before[g]);
                } else {
                    assert(g * CHUNK_SIZE == start) by (nonlinear_arith)
                        requires
                            g == before.len(),
                            start == before.len() * CHUNK_SIZE,
                    ;
                }
            }
            assert((res@.len() - 1) * CHUNK_SIZE + CHUNK_SIZE == res@.len() * CHUNK_SIZE)
                by (nonlinear_arith);
        }
        start += CHUNK_SIZE;
    }
    assert(res@.len() == n as int / (CHUNK_SIZE as int)) by (nonlinear_arith)
        requires
            start == res@.len() * CHUNK_SIZE,
            n - start < CHUNK_SIZE,
            start <= n,
            CHUNK_SIZE > 0,
    ;
    res
}

/// Encodes bytes: pads them with zero bytes to whole groups of three, splits each
/// group into four 6-bit values, maps each value to its symbol, keeps the symbols that
/// carry data and appends the padding that the policy asks for. Never fails.
pub fn encode(config: &Base64Config, bytes: &[u8]) -> (res: Vec<u8>)
    ensures
        res@ == encoding(config.alphabet(), config.policy(), bytes@),
{
    let ghost rs = config.alphabet();
    let ghost b = bytes@;
    let n = bytes.len();
    let pad_length: usize = (3 - n % 3) % 3;
    let mut padded: Vec<u8> = Vec::new();
    let mut i: usize = 0;
    while i < n
        invariant
            i <= n,
            n == b.len(),
            b == bytes@,
            padded@ == b.take(i as int),
        decreases n - i,
    {
        padded.push(bytes[i]);
        i += 1;
        assert(padded@ =~= b.take(i as int));
    }
    let mut i: usize = 0;
    while i < pad_length
        invariant
            i <= pad_length,
            pad_length < 3,
            padded@.len() == n + i,
            n == b.len(),
            forall|j: int| 0 <= j < n ==> padded@[j] == b[j],
            forall|j: int| n <= j < padded@.len() ==> padded@[j] == 0,
        decreases pad_length - i,
    {
        padded.push(0);
        i += 1;
    }
    let ghost p = zero_pad(b, 3);
    assert(padded@ =~= p);
    let chunks = chunk_iter::<u8, 3>(padded.as_slice());
    let ghost stream = sextet_stream(b);
    let mut out: Vec<u8> = Vec::new();
    let mut g: usize = 0;
    while g < chunks.len()
        invariant
            g <= chunks@.len(),
            chunks@.len() == p.len() / 3,
            p == zero_pad(b, 3),
            stream == sextet_stream(b),
            rs == config.alphabet(),
            forall|h: int, k: int|
                0 <= h < chunks@.len() && 0 <= k < 3 ==> #[trigger] chunks@[h]@[k] == p[h * 3 + k],
            out@.len() == 4 * g,
            forall|j: int| 0 <= j < out@.len() ==> out@[j] == encoded_symbol(rs, #[trigger] stream[j]),
        decreases chunks@.len() - g,
    {
        let segments = unpack_triplet(chunks[g].as_slice());
        assert(chunks@[g as int]@[0] == p[g * 3]);
        assert(chunks@[g as int]@[1] == p[g * 3 + 1]);
        assert(chunks@[g as int]@[2] == p[g * 3 + 2]);
        let mut k: usize = 0;
        while k < 4
            invariant
                k <= 4,
                g < chunks@.len(),
                chunks@.len() == p.len() / 3,
                stream == sextet_stream(b),
                p == zero_pad(b, 3),
                rs == config.alphabet(),
                segments@ == sextets(p[g * 3], p[g * 3 + 1], p[g * 3 + 2]),
                out@.len() == 4 * g + k,
                forall|j: int| 0 <= j < out@.len() ==> out@[j] == encoded_symbol(rs, #[trigger] stream[j]),
            decreases 4 - k,
        {
            let ghost j = 4 * g + k;
            assert(j / 4 == g && j % 4 == k);
            assert(stream[j] == segments@[k as int]);
            out.push(encode_byte(config, segments[k]));
            k += 1;
        }
        g += 1;
    }
    let produced = out.len();
    assert(p.len() == (n + 2) / 3 * 3);
    assert(n / 3 * 4 + (n % 3 * 8 + 5) / 6 <= produced);
    let num_segments_unpadded: usize = n / 3 * 4 + (n % 3 * 8 + 5) / 6;
    assert(num_segments_unpadded == symbol_count(n as nat));
    out.truncate(num_segments_unpadded);
    assert(out@ =~= stream.map_values(|v: u8| encoded_symbol(rs, v)).take(symbol_count(n as nat) as int));
    let num_pad_segments: usize = pad_length * 8 / 6;
    match config.padding() {
        Padding::Required(c) | Padding::Optional(c) => {
            let ghost data = out@;
            let mut i: usize = 0;
            while i < num_pad_segments
                invariant
                    i <= num_pad_segments,
                    out@ == data + Seq::new(i as nat, |j: int| c),
                decreases num_pad_segments - i,
            {
                out.push(c);
                i += 1;
                assert(out@ =~= data + Seq::new(i as nat, |j: int| c));
            }
        },
        Padding::NoPadding => {
            assert(out@ =~= out@ + Seq::<u8>::empty());
        },
    }
    out
}

/// Gathers the encoding of `bytes` in a vector.
pub fn encode_to_vec(config: &Base64Config, bytes: &[u8]) -> (res: Vec<u8>)
    ensures
        res@ == encoding(config.alphabet(), config.policy(), bytes@),
{
    encode(config, bytes)
}

/// Decodes an encoded buffer: validates it, maps each symbol before the padding to its
/// 6-bit value, pads the values with zeros to whole groups of four, joins each group
/// into three bytes and keeps the bytes that carry data.
pub fn decode(config: &Base64Config, base64_encoded_bytes: &[u8]) -> (res: Result<
    Vec<u8>,
    Base64Error,
>)
    ensures
        res is Ok <==> decoding(config.alphabet(), config.policy(), base64_encoded_bytes@) is Ok,
        res matches Ok(v) ==> decoding(config.alphabet(), config.policy(), base64_encoded_bytes@)
            == Ok::<Seq<u8>, Base64Error>(v@),
        res matches Err(x) ==> decoding(config.alphabet(), config.policy(), base64_encoded_bytes@)
            == Err::<Seq<u8>, Base64Error>(x),
{
    let ghost rs = config.alphabet();
    let ghost e = base64_encoded_bytes@;
    let unpadded_length = match validate_base64(config, base64_encoded_bytes) {
        Ok(m) => m,
        Err(x) => {
            return Err(x);
        },
    };
    assert(unpadded_length <= e.len());
    let ghost s = e.take(unpadded_length as int);
    let ghost vals = s.map_values(|c: u8| decoded_value(rs, c));
    let pad_length: usize = (4 - unpadded_length % 4) % 4;
    let mut values: Vec<u8> = Vec::new();
    let mut i: usize = 0;
    while i < unpadded_length
        invariant
            i <= unpadded_length,
            unpadded_length <= e.len(),
            e == base64_encoded_bytes@,
            s == e.take(unpadded_length as int),
            vals == s.map_values(|c: u8| decoded_value(rs, c)),
            rs == config.alphabet(),
            values@ == vals.take(i as int),
        decreases unpadded_length - i,
    {
        values.push(decode_byte(config, base64_encoded_bytes[i]));
        i += 1;
        assert(values@ =~= vals.take(i as int));
    }
    let mut i: usize = 0;
    while i < pad_length
        invariant
            i <= pad_length,
            pad_length < 4,
            values@.len() == unpadded_length + i,
            vals.len() == unpadded_length,
            forall|j: int| 0 <= j < unpadded_length ==> values@[j] == vals[j],
            forall|j: int| unpadded_length <= j < values@.len() ==> values@[j] == 0,
        decreases pad_length - i,
    {
        values.push(0);
        i += 1;
    }
    let ghost p = zero_pad(vals, 4);
    assert(values@ =~= p);
    let chunks = chunk_iter::<u8, 4>(values.as_slice());
    let ghost stream = octet_stream(vals);
    let mut out: Vec<u8> = Vec::new();
    let mut g: usize = 0;
    while g < chunks.len()
        invariant
            g <= chunks@.len(),
            chunks@.len() == p.len() / 4,
            p == zero_pad(vals, 4),
            stream == octet_stream(vals),
            forall|h: int, k: int|
                0 <= h < chunks@.len() && 0 <= k < 4 ==> #[trigger] chunks@[h]@[k] == p[h * 4 + k],
            out@.len() == 3 * g,
            forall|j: int| 0 <= j < out@.len() ==> out@[j] == #[trigger] stream[j],
        decreases chunks@.len() - g,
    {
        let bytes = pack_triplet(chunks[g].as_slice());
        assert(chunks@[g as int]@[0] == p[g * 4]);
        assert(chunks@[g as int]@[1] == p[g * 4 + 1]);
        assert(chunks@[g as int]@[2] == p[g * 4 + 2]);
        assert(chunks@[g as int]@[3] == p[g * 4 + 3]);
        let mut k: usize = 0;
        while k < 3
            invariant
                k <= 3,
                g < chunks@.len(),
                chunks@.len() == p.len() / 4,
                stream == octet_stream(vals),
                p == zero_pad(vals, 4),
                bytes@ == octets(p[g * 4], p[g * 4 + 1], p[g * 4 + 2], p[g * 4 + 3]),
                out@.len() == 3 * g + k,
                forall|j: int| 0 <= j < out@.len() ==> out@[j] == #[trigger] stream[j],
            decreases 3 - k,
        {
            let ghost j = 3 * g + k;
            assert(j / 3 == g && j % 3 == k);
            assert(stream[j] == bytes@[k as int]);
            out.push(bytes[k]);
            k += 1;
        }
        g += 1;
    }
    let produced = out.len();
    assert(p.len() == (unpadded_length + 3) / 4 * 4);
    assert(unpadded_length / 4 * 3 + unpadded_length % 4 * 6 / 8 <= produced);
    let num_bytes_unpadded: usize = unpadded_length / 4 * 3 + unpadded_length % 4 * 6 / 8;
    assert(num_bytes_unpadded == unpadded_length * 6 / 8);
    out.truncate(num_bytes_unpadded);
    assert(out@ =~= stream.take((unpadded_length * 6 / 8) as int));
    Ok(out)
}

/// Gathers the decoding of an encoded buffer in a vector.
pub fn decode_to_vec(config: &Base64Config, base64_encoded_bytes: &[u8]) -> (res: Result<
    Vec<u8>,
    Base64Error,
>)
    ensures
        res is Ok <==> decoding(config.alphabet(), config.policy(), base64_encoded_bytes@) is Ok,
        res matches Ok(v) ==> decoding(config.alphabet(), config.policy(), base64_encoded_bytes@)
            == Ok::<Seq<u8>, Base64Error>(v@),
        res matches Err(x) ==> decoding(config.alphabet(), config.policy(), base64_encoded_bytes@)
            == Err::<Seq<u8>, Base64Error>(x),
{
    decode(config, base64_encoded_bytes)
}

} // verus!
