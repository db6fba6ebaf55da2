//! Base64 encoding and decoding over the standard 64-character alphabet,
//! with `=` padding.
//!
//! Encoding packs each group of 3 input bytes into four 6-bit values and
//! maps them through the alphabet; a short final group is zero-padded to a
//! whole number of 6-bit values and the output padded with `=` to a
//! multiple of 4 characters. Decoding strips the padding, maps every
//! character back to its 6-bit value (failing on a character outside the
//! alphabet), reassembles the bytes by 4-character quanta, and fails when
//! the bytes are not valid UTF-8.
use vstd::prelude::*;
use vstd::slice::slice_subrange;
use vstd::utf8::decode_utf8;
use vstd::utf8::encode_utf8;
use vstd::utf8::partial_valid_utf8;
use vstd::utf8::partial_valid_utf8_extend_ascii_block;
use vstd::utf8::valid_utf8;

use crate::errors::CodecError;
use crate::text::string_from_utf8;

verus! {

/// The Base64 alphabet: the character byte at index `v`, for `v < 64`.
pub open spec fn b64_char(v: u8) -> u8 {
    if v < 26 {
        (v + 0x41) as u8  // 'A'..='Z'
    } else if v < 52 {
        (v - 26 + 0x61) as u8  // 'a'..='z'
    } else if v < 62 {
        (v - 52 + 0x30) as u8  // '0'..='9'
    } else if v == 62 {
        0x2b  // '+'
    } else {
        0x2f  // '/'
    }
}

/// The inverse alphabet: the 6-bit value of a character byte, if it has one.
pub open spec fn b64_val(b: u8) -> Option<u8> {
    if 0x41 <= b <= 0x5a {  // 'A'..='Z'
        Some((b - 0x41) as u8)
    } else if 0x61 <= b <= 0x7a {  // 'a'..='z'
        Some((b - 0x61 + 26) as u8)
    } else if 0x30 <= b <= 0x39 {  // '0'..='9'
        Some((b - 0x30 + 52) as u8)
    } else if b == 0x2b {  // '+'
        Some(62)
    } else if b == 0x2f {  // '/'
        Some(63)
    } else {
        None
    }
}

/// The 6-bit values of one input group of 1 to 3 bytes, the last value
/// zero-padded on the right to 6 bits.
pub open spec fn six_bit_groups(g: Seq<u8>) -> Seq<u8> {
    if g.len() >= 3 {
        seq![
            g[0] >> 2,
            ((g[0] & 0x3) << 4) | (g[1] >> 4),
            ((g[1] & 0xf) << 2) | (g[2] >> 6),
            g[2] & 0x3f,
        ]
    } else if g.len() == 2 {
        seq![g[0] >> 2, ((g[0] & 0x3) << 4) | (g[1] >> 4), (g[1] & 0xf) << 2]
    } else if g.len() == 1 {
        seq![g[0] >> 2, (g[0] & 0x3) << 4]
    } else {
        seq![]
    }
}

/// The four output characters of one input group of 1 to 3 bytes,
/// `=`-padded when the group is short.
pub open spec fn encoded_group(g: Seq<u8>) -> Seq<u8> {
    let v = six_bit_groups(g);
    if g.len() >= 3 {
        seq![b64_char(v[0]), b64_char(v[1]), b64_char(v[2]), b64_char(v[3])]
    } else if g.len() == 2 {
        seq![b64_char(v[0]), b64_char(v[1]), b64_char(v[2]), 0x3du8]
    } else if g.len() == 1 {
        seq![b64_char(v[0]), b64_char(v[1]), 0x3du8, 0x3du8]
    } else {
        seq![]
    }
}

/// The Base64 encoding of a byte sequence, by groups of 3 bytes.
pub open spec fn base64_encoded(bs: Seq<u8>) -> Seq<u8>
    decreases bs.len(),
{
    if bs.len() == 0 {
        seq![]
    } else if bs.len() >= 3 {
        encoded_group(bs.take(3)) + base64_encoded(bs.skip(3))
    } else {
        encoded_group(bs)
    }
}

/// The sequence with its trailing `=` bytes removed.
pub open spec fn strip_padding(s: Seq<u8>) -> Seq<u8>
    decreases s.len(),
{
    if s.len() > 0 && s.last() == 0x3d {
        strip_padding(s.drop_last())
    } else {
        s
    }
}

/// True when every byte of the sequence is a Base64 alphabet character.
pub open spec fn all_base64(s: Seq<u8>) -> bool {
    forall|i: int| 0 <= i < s.len() ==> b64_val(#[trigger] s[i]) is Some
}

/// The 6-bit values of a sequence of alphabet characters.
pub open spec fn b64_values(s: Seq<u8>) -> Seq<u8>
    recommends
        all_base64(s),
{
    s.map_values(|b: u8| b64_val(b).unwrap())
}

/// The bytes reassembled from a sequence of 6-bit values, by 4-value
/// quanta; a final quantum of 2 or 3 values yields 1 or 2 bytes, and a
/// lone value yields none.
pub open spec fn reassembled(vals: Seq<u8>) -> Seq<u8>
    decreases vals.len(),
{
    if vals.len() >= 4 {
        seq![
            (vals[0] << 2) | (vals[1] >> 4),
            ((vals[1] & 0xf) << 4) | (vals[2] >> 2),
            ((vals[2] & 0x3) << 6) | vals[3],
        ] + reassembled(vals.skip(4))
    } else if vals.len() == 3 {
        seq![(vals[0] << 2) | (vals[1] >> 4), ((vals[1] & 0xf) << 4) | (vals[2] >> 2)]
    } else if vals.len() == 2 {
        seq![(vals[0] << 2) | (vals[1] >> 4)]
    } else {
        seq![]
    }
}

/// The bytes a Base64 text decodes to: strip the padding, map the
/// characters to their values, reassemble.
pub open spec fn base64_decoded(s: Seq<u8>) -> Seq<u8>
    recommends
        all_base64(strip_padding(s)),
{
    reassembled(b64_values(strip_padding(s)))
}

/// Maps a 6-bit value to its alphabet character byte.
pub fn matchingb64(inp: u8) -> (r: u8)
    requires
        inp < 64,
    ensures
        r == b64_char(inp),
{
    if inp < 26 {
        0x41 + inp
    } else if inp < 52 {
        0x61 + (inp - 26)
    } else if inp < 62 {
        0x30 + (inp - 52)
    } else if inp == 62 {
        0x2b
    } else {
        0x2f
    }
}

/// Maps an alphabet character byte back to its 6-bit value.
pub fn matchingb642(inp: u8) -> (r: Option<u8>)
    ensures
        r == b64_val(inp),
{
    if 0x41 <= inp && inp <= 0x5a {
        Some(inp - 0x41)
    } else if 0x61 <= inp && inp <= 0x7a {
        Some(inp - 0x61 + 26)
    } else if 0x30 <= inp && inp <= 0x39 {
        Some(inp - 0x30 + 52)
    } else if inp == 0x2b {
        Some(62)
    } else if inp == 0x2f {
        Some(63)
    } else {
        None
    }
}

/// The 6-bit values of a group are values: each is below 64.
proof fn lemma_six_bit_groups_bounded(g: Seq<u8>)
    ensures
        forall|j: int|
            0 <= j < six_bit_groups(g).len() ==> #[trigger] six_bit_groups(g)[j] < 64,
{
    if g.len() >= 3 {
        let a = g[0];
        let b = g[1];
        let c = g[2];
        assert((a >> 2) < 64 && (((a & 0x3) << 4) | (b >> 4)) < 64 && (((b & 0xf) << 2) | (c >> 6))
            < 64 && (c & 0x3f) < 64) by (bit_vector);
    } else if g.len() == 2 {
        let a = g[0];
        let b = g[1];
        assert((a >> 2) < 64 && (((a & 0x3) << 4) | (b >> 4)) < 64 && ((b & 0xf) << 2) < 64)
            by (bit_vector);
    } else if g.len() == 1 {
        let a = g[0];
        assert((a >> 2) < 64 && ((a & 0x3) << 4) < 64) by (bit_vector);
    }
}

/// Every alphabet character is ASCII and is not the padding byte `=`.
proof fn lemma_b64_char_ascii(v: u8)
    ensures
        b64_char(v) <= 0x7f,
        b64_char(v) != 0x3d,
{
}

/// The alphabet and its inverse are inverses on values below 64.
proof fn lemma_b64_val_char(v: u8)
    requires
        v < 64,
    ensures
        b64_val(b64_char(v)) == Some(v),
{
}

/// Splitting 3 bytes into four 6-bit values and reassembling them gives
/// the bytes back.
proof fn lemma_group3_round_trip(a: u8, b: u8, c: u8)
    by (bit_vector)
    ensures
        (((a >> 2) << 2) | ((((a & 0x3) << 4) | (b >> 4)) >> 4)) == a,
        ((((((a & 0x3) << 4) | (b >> 4)) & 0xf) << 4) | ((((b & 0xf) << 2) | (c >> 6)) >> 2)) == b,
        ((((((b & 0xf) << 2) | (c >> 6)) & 0x3) << 6) | (c & 0x3f)) == c,
{
}

/// Splitting 2 bytes into three 6-bit values and reassembling them gives
/// the bytes back.
proof fn lemma_group2_round_trip(a: u8, b: u8)
    by (bit_vector)
    ensures
        (((a >> 2) << 2) | ((((a & 0x3) << 4) | (b >> 4)) >> 4)) == a,
        ((((((a & 0x3) << 4) | (b >> 4)) & 0xf) << 4) | (((b & 0xf) << 2) >> 2)) == b,
{
}

/// Splitting 1 byte into two 6-bit values and reassembling them gives the
/// byte back.
proof fn lemma_group1_round_trip(a: u8)
    by (bit_vector)
    ensures
        (((a >> 2) << 2) | (((a & 0x3) << 4) >> 4)) == a,
{
}

/// Computes the 6-bit values of one input group of 1 to 3 bytes; any
/// other group length is invalid.
pub fn binoperate3(inp: &[u8]) -> (r: Result<Vec<u8>, CodecError>)
    ensures
        r is Ok <==> 1 <= inp@.len() <= 3,
        r is Ok ==> r->Ok_0@ == six_bit_groups(inp@),
        r is Err ==> r->Err_0 == CodecError::InvalidEncoding,
{
    if inp.len() == 3 {
        let a = inp[0];
        let b = inp[1];
        let c = inp[2];
        let mut v: Vec<u8> = Vec::new();
        v.push(a >> 2);
        v.push(((a & 0x3) << 4) | (b >> 4));
        v.push(((b & 0xf) << 2) | (c >> 6));
        v.push(c & 0x3f);
        proof {
            assert(v@ =~= six_bit_groups(inp@));
        }
        Ok(v)
    } else if inp.len() == 2 {
        let a = inp[0];
        let b = inp[1];
        let mut v: Vec<u8> = Vec::new();
        v.push(a >> 2);
        v.push(((a & 0x3) << 4) | (b >> 4));
        v.push((b & 0xf) << 2);
        proof {
            assert(v@ =~= six_bit_groups(inp@));
        }
        Ok(v)
    } else if inp.len() == 1 {
        let a = inp[0];
        let mut v: Vec<u8> = Vec::new();
        v.push(a >> 2);
        v.push((a & 0x3) << 4);
        proof {
            assert(v@ =~= six_bit_groups(inp@));
        }
        Ok(v)
    } else {
        Err(CodecError::InvalidEncoding)
    }
}

/// Base64-encodes the UTF-8 bytes of `inp`. Every byte sequence has an
/// encoding, so this never fails.
pub fn tobase64(inp: &str) -> (r: String)
    ensures
        encode_utf8(r@) == base64_encoded(encode_utf8(inp@)),
{
    let bytes = inp.as_bytes();
    let ghost s = bytes@;
    let mut result: Vec<u8> = Vec::new();
    proof {
        assert(s.skip(0) =~= s);
        assert(result@ + base64_encoded(s) =~= base64_encoded(s));
    }
    let mut i: usize = 0;
    while i < bytes.len()
        invariant
            i <= s.len(),
            s == bytes@,
            result@ + base64_encoded(s.skip(i as int)) == base64_encoded(s),
            forall|j: int| 0 <= j < result@.len() ==> result@[j] <= 0x7f,
        decreases s.len() - i,
    {
        let rem = bytes.len() - i;
        let glen: usize = if rem >= 3 {
            3
        } else {
            rem
        };
        let group = slice_subrange(bytes, i, i + glen);
        let ghost g = s.subrange(i as int, i as int + glen as int);
        proof {
            lemma_six_bit_groups_bounded(g);
        }
        let vals = match binoperate3(group) {
            Ok(v) => v,
            Err(_) => {
                return String::new();  // cannot happen: the group has 1 to 3 bytes
            },
        };
        let ghost prev = result@;
        result.push(matchingb64(vals[0]));
        result.push(matchingb64(vals[1]));
        if glen >= 2 {
            result.push(matchingb64(vals[2]));
            if glen == 3 {
                result.push(matchingb64(vals[3]));
            } else {
                result.push(0x3d);
            }
        } else {
            result.push(0x3d);
            result.push(0x3d);
        }
        proof {
            lemma_b64_char_ascii(six_bit_groups(g)[0]);
            lemma_b64_char_ascii(six_bit_groups(g)[1]);
            if g.len() >= 2 {
                lemma_b64_char_ascii(six_bit_groups(g)[2]);
            }
            if g.len() >= 3 {
                lemma_b64_char_ascii(six_bit_groups(g)[3]);
            }
            assert(result@ =~= prev + encoded_group(g));
            if glen == 3 {
                assert(s.skip(i as int).take(3) =~= g);
                assert(s.skip(i as int).skip(3) =~= s.skip(i as int + 3));
            } else {
                assert(s.skip(i as int) =~= g);
                assert(s.skip(s.len() as int) =~= Seq::<u8>::empty());
            }
            assert(result@ + base64_encoded(s.skip(i as int + glen as int)) =~= prev
                + base64_encoded(s.skip(i as int)));
        }
        i = i + glen;
    }
    proof {
        assert(s.skip(s.len() as int) =~= Seq::<u8>::empty());
        assert(result@ + base64_encoded(s.skip(s.len() as int)) =~= result@);
        assert(partial_valid_utf8(result@, 0)) by {
            assert(result@.subrange(0, 0) =~= Seq::<u8>::empty());
        }
        partial_valid_utf8_extend_ascii_block(result@, 0, result@.len() as int);
        assert(result@.subrange(0, result@.len() as int) =~= result@);
    }
    match string_from_utf8(result) {
        Some(st) => st,
        None => String::new(),  // cannot happen: the buffer is all ASCII
    }
}

/// Base64-decodes the UTF-8 bytes of `inp`. Fails exactly when a byte
/// outside the alphabet remains after stripping the `=` padding, or when
/// the reassembled bytes are not valid UTF-8.
#[verifier::rlimit(60)]
pub fn frombase64(inp: &str) -> (r: Result<String, CodecError>)
    ensures
        r is Ok <==> all_base64(strip_padding(encode_utf8(inp@))) && valid_utf8(
            base64_decoded(encode_utf8(inp@)),
        ),
        r is Ok ==> encode_utf8(r->Ok_0@) == base64_decoded(encode_utf8(inp@)),
        r is Err ==> r->Err_0 == CodecError::InvalidEncoding,
{
    let bytes = inp.as_bytes();
    let ghost s = bytes@;
    // strip the trailing '=' padding
    let mut end: usize = bytes.len();
    proof {
        assert(s.subrange(0, s.len() as int) =~= s);
    }
    while end > 0 && bytes[end - 1] == 0x3d
        invariant
            end <= s.len(),
            s == bytes@,
            strip_padding(s.subrange(0, end as int)) == strip_padding(s),
        decreases end,
    {
        proof {
            let t = s.subrange(0, end as int);
            assert(t.last() == s[end as int - 1]);
            assert(t.drop_last() =~= s.subrange(0, end as int - 1));
        }
        end = end - 1;
    }
    let ghost stripped = s.subrange(0, end as int);
    proof {
        if end == 0 {
            assert(stripped =~= Seq::<u8>::empty());
        }
        assert(strip_padding(stripped) == stripped);
        assert(stripped == strip_padding(s));
    }
    // map every remaining character through the inverse alphabet
    let mut buffer: Vec<u8> = Vec::new();
    let mut i: usize = 0;
    while i < end
        invariant
            i <= end <= s.len(),
            s == bytes@,
            s == encode_utf8(inp@),
            stripped == s.subrange(0, end as int),
            stripped == strip_padding(s),
            buffer@.len() == i,
            forall|j: int|
                0 <= j < i ==> b64_val(#[trigger] stripped[j]) is Some && buffer@[j] == b64_val(
                    stripped[j],
                ).unwrap(),
        decreases end - i,
    {
        match matchingb642(bytes[i]) {
            Some(v) => {
                proof {
                    assert(stripped[i as int] == s[i as int]);
                }
                buffer.push(v);
            },
            None => {
                proof {
                    assert(stripped[i as int] == s[i as int]);
                    assert(!all_base64(stripped));
                }
                return Err(CodecError::InvalidEncoding);
            },
        }
        i = i + 1;
    }
    proof {
        assert(all_base64(stripped));
        assert(buffer@ =~= b64_values(stripped));
    }
    // reassemble the bytes, quantum by quantum
    let ghost vals = buffer@;
    proof {
        assert forall|j: int| 0 <= j < vals.len() implies vals[j] < 64 by {
            assert(b64_val(stripped[j]) is Some);
        }
        assert(vals.skip(0) =~= vals);
    }
    let n = buffer.len();
    let mut out: Vec<u8> = Vec::new();
    proof {
        assert(out@ + reassembled(vals) =~= reassembled(vals));
    }
    let mut k: usize = 0;
    while n - k >= 4
        invariant
            k <= n,
            n == buffer@.len(),
            vals == buffer@,
            out@ + reassembled(vals.skip(k as int)) == reassembled(vals),
        decreases n - k,
    {
        let w = buffer[k];
        let x = buffer[k + 1];
        let y = buffer[k + 2];
        let z = buffer[k + 3];
        let ghost prev = out@;
        out.push((w << 2) | (x >> 4));
        out.push(((x & 0xf) << 4) | (y >> 2));
        out.push(((y & 0x3) << 6) | z);
        proof {
            let t = vals.skip(k as int);
            assert(t[0] == w && t[1] == x && t[2] == y && t[3] == z);
            assert(t.skip(4) =~= vals.skip(k as int + 4));
            assert(out@ =~= prev + seq![
                (w << 2) | (x >> 4),
                ((x & 0xf) << 4) | (y >> 2),
                ((y & 0x3) << 6) | z,
            ]);
            assert(out@ + reassembled(vals.skip(k as int + 4)) =~= prev + reassembled(
                vals.skip(k as int),
            ));
        }
        k = k + 4;
    }
    let ghost tail = vals.skip(k as int);
    let ghost prev = out@;
    if n - k == 3 {
        let w = buffer[k];
        let x = buffer[k + 1];
        let y = buffer[k + 2];
        out.push((w << 2) | (x >> 4));
        out.push(((x & 0xf) << 4) | (y >> 2));
        proof {
            assert(tail[0] == w && tail[1] == x && tail[2] == y);
            assert(out@ =~= prev + reassembled(tail));
        }
    } else if n - k == 2 {
        let w = buffer[k];
        let x = buffer[k + 1];
        out.push((w << 2) | (x >> 4));
        proof {
            assert(tail[0] == w && tail[1] == x);
            assert(out@ =~= prev + reassembled(tail));
        }
    } else {
        proof {
            assert(reassembled(tail) =~= Seq::<u8>::empty());
            assert(out@ =~= prev + reassembled(tail));
        }
    }
    proof {
        assert(out@ =~= reassembled(vals));
        assert(out@ == base64_decoded(s));
    }
    match string_from_utf8(out) {
        Some(st) => Ok(st),
        None => Err(CodecError::InvalidEncoding),
    }
}

/// The Base64 encoding of a byte sequence holds four characters for every
/// started group of 3 input bytes; in particular its length is always a
/// multiple of 4.
pub proof fn lemma_base64_encoded_length(bs: Seq<u8>)
    ensures
        base64_encoded(bs).len() == 4 * ((bs.len() + 2) / 3),
        base64_encoded(bs).len() % 4 == 0,
    decreases bs.len(),
{
    if bs.len() >= 3 {
        lemma_base64_encoded_length(bs.skip(3));
    }
}

/// The Base64 encoding of any byte sequence is pure ASCII.
pub proof fn lemma_base64_encoded_ascii(bs: Seq<u8>)
    ensures
        forall|i: int| 0 <= i < base64_encoded(bs).len() ==> #[trigger] base64_encoded(bs)[i]
            <= 0x7f,
    decreases bs.len(),
{
    assert forall|v: u8| b64_char(v) <= 0x7f by {
        lemma_b64_char_ascii(v);
    }
    if bs.len() >= 3 {
        lemma_base64_encoded_ascii(bs.skip(3));
        assert forall|i: int| 0 <= i < base64_encoded(bs).len() implies #[trigger] base64_encoded(
            bs,
        )[i] <= 0x7f by {
            let head = encoded_group(bs.take(3));
            lemma_b64_char_ascii(six_bit_groups(bs.take(3))[0]);
            lemma_b64_char_ascii(six_bit_groups(bs.take(3))[1]);
            lemma_b64_char_ascii(six_bit_groups(bs.take(3))[2]);
            lemma_b64_char_ascii(six_bit_groups(bs.take(3))[3]);
            if i >= head.len() {
                assert(base64_encoded(bs)[i] == base64_encoded(bs.skip(3))[i - head.len()]);
            }
        }
    } else if bs.len() >= 1 {
        lemma_b64_char_ascii(six_bit_groups(bs)[0]);
        lemma_b64_char_ascii(six_bit_groups(bs)[1]);
        if bs.len() == 2 {
            lemma_b64_char_ascii(six_bit_groups(bs)[2]);
        }
    }
}

/// Stripping trailing padding from a concatenation whose first part holds
/// no padding byte strips only within the second part.
proof fn lemma_strip_concat(a: Seq<u8>, b: Seq<u8>)
    requires
        forall|i: int| 0 <= i < a.len() ==> #[trigger] a[i] != 0x3d,
    ensures
        strip_padding(a + b) == a + strip_padding(b),
    decreases b.len(),
{
    if b.len() == 0 {
        assert(a + b =~= a);
        if a.len() > 0 {
            assert(a.last() != 0x3d);
        }
        assert(a + strip_padding(b) =~= a);
    } else if b.last() == 0x3d {
        assert((a + b).last() == b.last());
        assert((a + b).drop_last() =~= a + b.drop_last());
        lemma_strip_concat(a, b.drop_last());
    } else {
        assert((a + b).last() == b.last());
        assert((a + b).last() != 0x3d);
    }
}

/// Decoding the Base64 encoding of any byte sequence gives it back, and
/// the stripped encoding lies wholly in the alphabet.
pub proof fn lemma_base64_round_trip_bytes(bs: Seq<u8>)
    ensures
        all_base64(strip_padding(base64_encoded(bs))),
        base64_decoded(base64_encoded(bs)) == bs,
    decreases bs.len(),
{
    lemma_six_bit_groups_bounded(bs.take(3));
    lemma_six_bit_groups_bounded(bs);
    if bs.len() == 0 {
        let enc = base64_encoded(bs);
        assert(enc =~= Seq::<u8>::empty());
        assert(strip_padding(enc) =~= Seq::<u8>::empty());
        assert(b64_values(strip_padding(enc)) =~= Seq::<u8>::empty());
        assert(base64_decoded(enc) =~= bs);
    } else if bs.len() == 1 {
        let a = bs[0];
        let w = a >> 2;
        let x = (a & 0x3) << 4;
        assert((a >> 2) < 64 && ((a & 0x3) << 4) < 64) by (bit_vector);
        lemma_b64_val_char(w);
        lemma_b64_val_char(x);
        lemma_b64_char_ascii(w);
        lemma_b64_char_ascii(x);
        let chars = seq![b64_char(w), b64_char(x)];
        let enc = base64_encoded(bs);
        assert(enc =~= chars + seq![0x3du8, 0x3du8]);
        lemma_strip_concat(chars, seq![0x3du8, 0x3du8]);
        assert(seq![0x3du8, 0x3du8].drop_last() =~= seq![0x3du8]);
        assert(seq![0x3du8].drop_last() =~= Seq::<u8>::empty());
        assert(strip_padding(Seq::<u8>::empty()) =~= Seq::<u8>::empty());
        assert(strip_padding(seq![0x3du8]) =~= Seq::<u8>::empty());
        assert(strip_padding(seq![0x3du8, 0x3du8]) =~= Seq::<u8>::empty());
        assert(strip_padding(enc) =~= chars);
        assert(b64_values(chars) =~= seq![w, x]);
        lemma_group1_round_trip(a);
        assert(reassembled(seq![w, x]) =~= seq![a]);
        assert(seq![a] =~= bs);
    } else if bs.len() == 2 {
        let a = bs[0];
        let b = bs[1];
        let w = a >> 2;
        let x = ((a & 0x3) << 4) | (b >> 4);
        let y = (b & 0xf) << 2;
        assert((a >> 2) < 64 && (((a & 0x3) << 4) | (b >> 4)) < 64 && ((b & 0xf) << 2) < 64)
            by (bit_vector);
        lemma_b64_val_char(w);
        lemma_b64_val_char(x);
        lemma_b64_val_char(y);
        lemma_b64_char_ascii(w);
        lemma_b64_char_ascii(x);
        lemma_b64_char_ascii(y);
        let chars = seq![b64_char(w), b64_char(x), b64_char(y)];
        let enc = base64_encoded(bs);
        assert(enc =~= chars + seq![0x3du8]);
        lemma_strip_concat(chars, seq![0x3du8]);
        assert(seq![0x3du8].drop_last() =~= Seq::<u8>::empty());
        assert(strip_padding(Seq::<u8>::empty()) =~= Seq::<u8>::empty());
        assert(strip_padding(seq![0x3du8]) =~= Seq::<u8>::empty());
        assert(strip_padding(enc) =~= chars);
        assert(b64_values(chars) =~= seq![w, x, y]);
        lemma_group2_round_trip(a, b);
        assert(reassembled(seq![w, x, y]) =~= seq![a, b]);
        assert(seq![a, b] =~= bs);
    } else {
        let g = bs.take(3);
        let a = g[0];
        let b = g[1];
        let c = g[2];
        let w = a >> 2;
        let x = ((a & 0x3) << 4) | (b >> 4);
        let y = ((b & 0xf) << 2) | (c >> 6);
        let z = c & 0x3f;
        assert((a >> 2) < 64 && (((a & 0x3) << 4) | (b >> 4)) < 64 && (((b & 0xf) << 2) | (c >> 6))
            < 64 && (c & 0x3f) < 64) by (bit_vector);
        lemma_b64_val_char(w);
        lemma_b64_val_char(x);
        lemma_b64_val_char(y);
        lemma_b64_val_char(z);
        lemma_b64_char_ascii(w);
        lemma_b64_char_ascii(x);
        lemma_b64_char_ascii(y);
        lemma_b64_char_ascii(z);
        let chars = seq![b64_char(w), b64_char(x), b64_char(y), b64_char(z)];
        assert(encoded_group(g) =~= chars);
        let rest = base64_encoded(bs.skip(3));
        let enc = base64_encoded(bs);
        assert(enc == chars + rest);
        lemma_base64_round_trip_bytes(bs.skip(3));
        lemma_strip_concat(chars, rest);
        let srest = strip_padding(rest);
        assert(strip_padding(enc) == chars + srest);
        assert(all_base64(chars + srest)) by {
            assert forall|i: int| 0 <= i < (chars + srest).len() implies b64_val(
                #[trigger] (chars + srest)[i],
            ) is Some by {
                if i >= chars.len() {
                    assert((chars + srest)[i] == srest[i - chars.len()]);
                }
            }
        }
        let vs = b64_values(chars + srest);
        assert(vs =~= seq![w, x, y, z] + b64_values(srest));
        assert(vs.skip(4) =~= b64_values(srest));
        lemma_group3_round_trip(a, b, c);
        assert(reassembled(vs) =~= seq![a, b, c] + reassembled(b64_values(srest)));
        assert(seq![a, b, c] + bs.skip(3) =~= bs);
    }
}

/// Decoding the Base64 encoding of any string gives back that string.
pub proof fn lemma_base64_round_trip(s: Seq<char>)
    ensures
        all_base64(strip_padding(base64_encoded(encode_utf8(s)))),
        valid_utf8(base64_decoded(base64_encoded(encode_utf8(s)))),
        decode_utf8(base64_decoded(base64_encoded(encode_utf8(s)))) == s,
{
    broadcast use vstd::utf8::encode_utf8_valid_utf8;
    broadcast use vstd::utf8::encode_utf8_decode_utf8;

    lemma_base64_round_trip_bytes(encode_utf8(s));
}

} // verus!
