//! Percent-encoding (URL component escaping) and its inverse.
//!
//! Encoding keeps bytes of the unreserved set as they are and writes every
//! other byte as `%` followed by two uppercase hex digits. Decoding reads
//! `%XX` escapes back into bytes, passing malformed escapes through
//! unchanged, and fails only when the decoded bytes are not valid UTF-8.
use vstd::prelude::*;
use vstd::utf8::decode_utf8;
use vstd::utf8::encode_utf8;
use vstd::utf8::partial_valid_utf8;
use vstd::utf8::partial_valid_utf8_extend_ascii_block;
use vstd::utf8::valid_utf8;

use crate::errors::CodecError;
use crate::text::string_from_utf8;

verus! {

/// The bytes that percent-encoding passes through unchanged:
/// `A-Z a-z 0-9 $ - _ . + ! * ( )`.
pub open spec fn is_unreserved(b: u8) -> bool {
    ||| 0x41 <= b <= 0x5a  // 'A'..='Z'
    ||| 0x61 <= b <= 0x7a  // 'a'..='z'
    ||| 0x30 <= b <= 0x39  // '0'..='9'
    ||| b == 0x24  // '$'
    ||| b == 0x2d  // '-'
    ||| b == 0x5f  // '_'
    ||| b == 0x2e  // '.'
    ||| b == 0x2b  // '+'
    ||| b == 0x21  // '!'
    ||| b == 0x2a  // '*'
    ||| b == 0x28  // '('
    ||| b == 0x29  // ')'
}

/// The value of `n` as an uppercase hexadecimal digit byte, for `n < 16`.
pub open spec fn hex_digit(n: u8) -> u8 {
    if n < 10 {
        (n + 0x30) as u8  // '0' + n
    } else {
        (n + 0x37) as u8  // 'A' + (n - 10)
    }
}

/// The value of the hex digit byte `b`, upper or lower case, if it is one.
pub open spec fn hex_val(b: u8) -> Option<u8> {
    if 0x30 <= b <= 0x39 {  // '0'..='9'
        Some((b - 0x30) as u8)
    } else if 0x41 <= b <= 0x46 {  // 'A'..='F'
        Some((b - 0x41 + 10) as u8)
    } else if 0x61 <= b <= 0x66 {  // 'a'..='f'
        Some((b - 0x61 + 10) as u8)
    } else {
        None
    }
}

/// The percent-encoding of one byte: itself if unreserved, otherwise
/// `%` and the two hex digits of its high and low nibble.
pub open spec fn encoded_byte(b: u8) -> Seq<u8> {
    if is_unreserved(b) {
        seq![b]
    } else {
        seq![0x25u8, hex_digit(b >> 4), hex_digit(b & 0xf)]
    }
}

/// The percent-encoding of a byte sequence, byte by byte.
pub open spec fn percent_encoded(bs: Seq<u8>) -> Seq<u8>
    decreases bs.len(),
{
    if bs.len() == 0 {
        seq![]
    } else {
        encoded_byte(bs[0]) + percent_encoded(bs.skip(1))
    }
}

/// The percent-decoding of a byte sequence. A `%` followed by two hex
/// digits becomes the byte they spell; a `%` followed by anything else,
/// or standing within two bytes of the end, passes through unchanged,
/// as do all other bytes.
pub open spec fn percent_decoded(s: Seq<u8>) -> Seq<u8>
    decreases s.len(),
{
    if s.len() == 0 {
        seq![]
    } else if s[0] == 0x25 {
        if s.len() >= 3 {
            if hex_val(s[1]) is Some && hex_val(s[2]) is Some {
                seq![(hex_val(s[1]).unwrap() << 4) | hex_val(s[2]).unwrap()] + percent_decoded(
                    s.skip(3),
                )
            } else {
                seq![s[0], s[1], s[2]] + percent_decoded(s.skip(3))
            }
        } else {
            s
        }
    } else {
        seq![s[0]] + percent_decoded(s.skip(1))
    }
}

/// Every byte of the percent-encoding of one byte is ASCII.
proof fn lemma_encoded_byte_ascii(b: u8)
    ensures
        forall|j: int| 0 <= j < encoded_byte(b).len() ==> encoded_byte(b)[j] <= 0x7f,
        encoded_byte(b)[0] <= 0x7f,
{
    if !is_unreserved(b) {
        assert(b >> 4 < 16 && b & 0xf < 16) by (bit_vector);
    }
}

/// Maps a nibble value (0..=15) to the byte of its uppercase hex digit.
pub fn binoperate1(digit: u8) -> (r: u8)
    requires
        digit < 16,
    ensures
        r == hex_digit(digit),
{
    if digit < 10 {
        0x30 + digit
    } else {
        0x37 + digit
    }
}

/// Maps a hex digit byte, upper or lower case, to its value.
pub fn binoperate2(inp: u8) -> (r: Option<u8>)
    ensures
        r == hex_val(inp),
{
    if 0x30 <= inp && inp <= 0x39 {
        Some(inp - 0x30)
    } else if 0x41 <= inp && inp <= 0x46 {
        Some(inp - 0x41 + 10)
    } else if 0x61 <= inp && inp <= 0x66 {
        Some(inp - 0x61 + 10)
    } else {
        None
    }
}

fn unreserved(b: u8) -> (r: bool)
    ensures
        r == is_unreserved(b),
{
    (0x41 <= b && b <= 0x5a) || (0x61 <= b && b <= 0x7a) || (0x30 <= b && b <= 0x39) || b == 0x24
        || b == 0x2d || b == 0x5f || b == 0x2e || b == 0x2b || b == 0x21 || b == 0x2a || b == 0x28
        || b == 0x29
}

/// Percent-encodes the UTF-8 bytes of `inp`. Every byte has an encoding,
/// so this never fails.
pub fn encoding_percent_component(inp: &str) -> (r: String)
    ensures
        encode_utf8(r@) == percent_encoded(encode_utf8(inp@)),
{
    let bytes = inp.as_bytes();
    let ghost s = bytes@;
    let mut buffer: Vec<u8> = Vec::new();
    proof {
        assert(s.skip(0) =~= s);
        assert(buffer@ + percent_encoded(s) =~= percent_encoded(s));
    }
    let mut i: usize = 0;
    while i < bytes.len()
        invariant
            i <= s.len(),
            s == bytes@,
            buffer@ + percent_encoded(s.skip(i as int)) == percent_encoded(s),
            forall|j: int| 0 <= j < buffer@.len() ==> buffer@[j] <= 0x7f,
        decreases s.len() - i,
    {
        let b = bytes[i];
        let ghost prev = buffer@;
        proof {
            lemma_encoded_byte_ascii(b);
            assert(s.skip(i as int)[0] == b);
            assert(s.skip(i as int).skip(1) =~= s.skip(i as int + 1));
        }
        if unreserved(b) {
            buffer.push(b);
            proof {
                assert(buffer@ =~= prev + encoded_byte(b));
            }
        } else {
            buffer.push(0x25);
            proof {
                assert(b >> 4 < 16 && b & 0xf < 16) by (bit_vector);
            }
            let hi = binoperate1(b >> 4);
            let lo = binoperate1(b & 0xf);
            buffer.push(hi);
            buffer.push(lo);
            proof {
                assert(buffer@ =~= prev + encoded_byte(b));
            }
        }
        proof {
            assert(buffer@ + percent_encoded(s.skip(i as int + 1)) =~= prev + percent_encoded(
                s.skip(i as int),
            ));
        }
        i = i + 1;
    }
    proof {
        assert(s.skip(s.len() as int) =~= Seq::<u8>::empty());
        assert(buffer@ + percent_encoded(s.skip(s.len() as int)) =~= buffer@);
        assert(partial_valid_utf8(buffer@, 0)) by {
            assert(buffer@.subrange(0, 0) =~= Seq::<u8>::empty());
        }
        partial_valid_utf8_extend_ascii_block(buffer@, 0, buffer@.len() as int);
        assert(buffer@.subrange(0, buffer@.len() as int) =~= buffer@);
    }
    match string_from_utf8(buffer) {
        Some(st) => st,
        None => String::new(),  // cannot happen: the buffer is all ASCII
    }
}

/// Percent-decodes the UTF-8 bytes of `inp`, passing malformed escapes
/// through unchanged. Fails exactly when the decoded bytes are not valid
/// UTF-8.
pub fn decoding_percent(inp: &str) -> (r: Result<String, CodecError>)
    ensures
        r is Ok <==> valid_utf8(percent_decoded(encode_utf8(inp@))),
        r is Ok ==> encode_utf8(r->Ok_0@) == percent_decoded(encode_utf8(inp@)),
        r is Err ==> r->Err_0 == CodecError::InvalidEncoding,
{
    let bytes = inp.as_bytes();
    let ghost s = bytes@;
    let mut buffer: Vec<u8> = Vec::new();
    proof {
        assert(s.skip(0) =~= s);
        assert(buffer@ + percent_decoded(s) =~= percent_decoded(s));
    }
    let mut i: usize = 0;
    while i < bytes.len()
        invariant
            i <= s.len(),
            s == bytes@,
            buffer@ + percent_decoded(s.skip(i as int)) == percent_decoded(s),
        decreases s.len() - i,
    {
        let b = bytes[i];
        let ghost prev = buffer@;
        proof {
            assert(s.skip(i as int)[0] == b);
        }
        if b == 0x25 {
            if bytes.len() - i >= 3 {
                proof {
                    assert(s.skip(i as int)[1] == s[i as int + 1]);
                    assert(s.skip(i as int)[2] == s[i as int + 2]);
                    assert(s.skip(i as int).skip(3) =~= s.skip(i as int + 3));
                }
                let first = bytes[i + 1];
                let second = bytes[i + 2];
                let o1 = binoperate2(first);
                let o2 = binoperate2(second);
                if o1.is_some() && o2.is_some() {
                    let v1 = o1.unwrap();
                    let v2 = o2.unwrap();
                    buffer.push((v1 << 4) | v2);
                    proof {
                        assert(buffer@ =~= prev + seq![(v1 << 4) | v2]);
                    }
                } else {
                    buffer.push(0x25);
                    buffer.push(first);
                    buffer.push(second);
                    proof {
                        assert(buffer@ =~= prev + seq![b, first, second]);
                    }
                }
                proof {
                    assert(buffer@ + percent_decoded(s.skip(i as int + 3)) =~= prev
                        + percent_decoded(s.skip(i as int)));
                }
                i = i + 3;
            } else {
                // a '%' within two bytes of the end: the rest passes through
                buffer.push(0x25);
                if bytes.len() - i == 2 {
                    proof {
                        assert(s.skip(i as int)[1] == s[i as int + 1]);
                    }
                    let first = bytes[i + 1];
                    buffer.push(first);
                    proof {
                        assert(buffer@ =~= prev + seq![b, first]);
                        assert(s.skip(i as int) =~= seq![b, first]);
                    }
                } else {
                    proof {
                        assert(buffer@ =~= prev + seq![b]);
                        assert(s.skip(i as int) =~= seq![b]);
                    }
                }
                proof {
                    assert(s.skip(s.len() as int) =~= Seq::<u8>::empty());
                    assert(buffer@ + percent_decoded(s.skip(s.len() as int)) =~= prev
                        + percent_decoded(s.skip(i as int)));
                }
                i = bytes.len();
            }
        } else {
            buffer.push(b);
            proof {
                assert(buffer@ =~= prev + seq![b]);
                assert(s.skip(i as int).skip(1) =~= s.skip(i as int + 1));
                assert(buffer@ + percent_decoded(s.skip(i as int + 1)) =~= prev + percent_decoded(
                    s.skip(i as int),
                ));
            }
            i = i + 1;
        }
    }
    proof {
        assert(s.skip(s.len() as int) =~= Seq::<u8>::empty());
        assert(buffer@ + percent_decoded(s.skip(s.len() as int)) =~= buffer@);
    }
    match string_from_utf8(buffer) {
        Some(st) => Ok(st),
        None => Err(CodecError::InvalidEncoding),
    }
}

/// The percent-encoding of any byte sequence is pure ASCII.
pub proof fn lemma_percent_encoded_ascii(bs: Seq<u8>)
    ensures
        forall|i: int| 0 <= i < percent_encoded(bs).len() ==> #[trigger] percent_encoded(bs)[i]
            <= 0x7f,
    decreases bs.len(),
{
    if bs.len() > 0 {
        lemma_encoded_byte_ascii(bs[0]);
        lemma_percent_encoded_ascii(bs.skip(1));
        assert forall|i: int| 0 <= i < percent_encoded(bs).len() implies #[trigger] percent_encoded(
            bs,
        )[i] <= 0x7f by {
            let head = encoded_byte(bs[0]);
            if i >= head.len() {
                assert(percent_encoded(bs)[i] == percent_encoded(bs.skip(1))[i - head.len()]);
            }
        }
    }
}

/// A hex digit written by the encoder reads back as the nibble it encodes.
proof fn lemma_hex_digit_round_trip(n: u8)
    requires
        n < 16,
    ensures
        hex_val(hex_digit(n)) == Some(n),
{
}

/// Decoding the percent-encoding of any byte sequence gives it back.
pub proof fn lemma_percent_round_trip_bytes(bs: Seq<u8>)
    ensures
        percent_decoded(percent_encoded(bs)) == bs,
    decreases bs.len(),
{
    if bs.len() == 0 {
        assert(percent_decoded(percent_encoded(bs)) =~= bs);
    } else {
        let b = bs[0];
        let enc = percent_encoded(bs);
        let tail = percent_encoded(bs.skip(1));
        lemma_percent_round_trip_bytes(bs.skip(1));
        if is_unreserved(b) {
            assert(enc =~= seq![b] + tail);
            assert(enc[0] == b && b != 0x25);
            assert(enc.skip(1) =~= tail);
            assert(percent_decoded(enc) =~= seq![b] + percent_decoded(tail));
            assert(seq![b] + bs.skip(1) =~= bs);
        } else {
            let hi = b >> 4;
            let lo = b & 0xf;
            assert((b >> 4) < 16 && (b & 0xf) < 16 && (((b >> 4) << 4) | (b & 0xf)) == b)
                by (bit_vector);
            lemma_hex_digit_round_trip(hi);
            lemma_hex_digit_round_trip(lo);
            assert(enc =~= seq![0x25u8, hex_digit(hi), hex_digit(lo)] + tail);
            assert(enc.len() >= 3);
            assert(enc[0] == 0x25 && enc[1] == hex_digit(hi) && enc[2] == hex_digit(lo));
            assert(hex_digit(hi) != 0x25 && hex_digit(lo) != 0x25);
            assert(enc.skip(3) =~= tail);
            assert(percent_decoded(enc) =~= seq![b] + percent_decoded(tail));
            assert(seq![b] + bs.skip(1) =~= bs);
        }
    }
}

/// Decoding the percent-encoding of any string gives back that string.
pub proof fn lemma_percent_round_trip(s: Seq<char>)
    ensures
        valid_utf8(percent_decoded(percent_encoded(encode_utf8(s)))),
        decode_utf8(percent_decoded(percent_encoded(encode_utf8(s)))) == s,
{
    broadcast use vstd::utf8::encode_utf8_valid_utf8;
    broadcast use vstd::utf8::encode_utf8_decode_utf8;

    lemma_percent_round_trip_bytes(encode_utf8(s));
}

/// The unreserved characters: ASCII characters whose byte is unreserved.
pub open spec fn is_unreserved_char(c: char) -> bool {
    '\0' <= c <= '\u{7f}' && is_unreserved(c as u8)
}

/// A byte sequence of unreserved bytes percent-encodes to itself.
pub proof fn lemma_unreserved_bytes_identity(bs: Seq<u8>)
    requires
        forall|i: int| 0 <= i < bs.len() ==> is_unreserved(#[trigger] bs[i]),
    ensures
        percent_encoded(bs) == bs,
    decreases bs.len(),
{
    if bs.len() == 0 {
        assert(percent_encoded(bs) =~= bs);
    } else {
        lemma_unreserved_bytes_identity(bs.skip(1));
        assert(percent_encoded(bs) =~= seq![bs[0]] + bs.skip(1));
        assert(seq![bs[0]] + bs.skip(1) =~= bs);
    }
}

/// A string of unreserved characters percent-encodes to itself.
pub proof fn lemma_unreserved_identity(s: Seq<char>)
    ensures
        (forall|i: int| 0 <= i < s.len() ==> is_unreserved_char(#[trigger] s[i]))
            ==> percent_encoded(encode_utf8(s)) == encode_utf8(s),
        (forall|i: int| 0 <= i < s.len() ==> is_unreserved_char(#[trigger] s[i]))
            ==> decode_utf8(percent_encoded(encode_utf8(s))) == s,
{
    broadcast use vstd::utf8::encode_utf8_decode_utf8;

    if forall|i: int| 0 <= i < s.len() ==> is_unreserved_char(#[trigger] s[i]) {
        let bs = encode_utf8(s);
        assert forall|i: int| 0 <= i < s.len() implies '\0' <= #[trigger] s[i] <= '\u{7f}' by {
            assert(is_unreserved_char(s[i]));
        }
        assert(vstd::utf8::is_ascii_chars(s));
        vstd::utf8::is_ascii_chars_encode_utf8(s);
        assert forall|i: int| 0 <= i < bs.len() implies is_unreserved(#[trigger] bs[i]) by {
            assert(bs[i] == s[i] as u8);
            assert(is_unreserved_char(s[i]));
        }
        lemma_unreserved_bytes_identity(bs);
    }
}

} // verus!
