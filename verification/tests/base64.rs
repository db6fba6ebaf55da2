use urlencode::binoperate3;
use urlencode::frombase64;
use urlencode::matchingb64;
use urlencode::matchingb642;
use urlencode::tobase64;
use urlencode::CodecError;

#[test]
fn testtobase64() {
    let res = tobase64("Hdfdfds");
    let a = frombase64(&res);
    let _ = a;
}

#[test]
fn two_byte_remainder_gets_one_pad() {
    let encoded = tobase64("Hi");
    assert_eq!(encoded.len(), 4);
    assert_eq!(encoded, "SGk=");
    assert!(encoded.ends_with('='));
    assert!(!encoded.ends_with("=="));
}

#[test]
fn one_byte_remainder_gets_two_pads() {
    let encoded = tobase64("H");
    assert_eq!(encoded, "SA==");
    assert!(encoded.ends_with("=="));
}

#[test]
fn full_group_gets_no_pad() {
    let encoded = tobase64("Hit");
    assert_eq!(encoded, "SGl0");
    assert!(!encoded.ends_with('='));
}

#[test]
fn known_vectors() {
    assert_eq!(tobase64(""), "");
    assert_eq!(tobase64("Hello"), "SGVsbG8=");
    assert_eq!(tobase64("Man"), "TWFu");
}

#[test]
fn decode_inverts_encode() {
    for s in ["", "M", "Ma", "Man", "Hello Günter", "any carnal pleasure."] {
        let encoded = tobase64(s);
        assert_eq!(frombase64(&encoded).unwrap(), s);
    }
}

#[test]
fn decode_known_vector() {
    assert_eq!(frombase64("TWFu").unwrap(), "Man");
    assert_eq!(frombase64("SA==").unwrap(), "H");
    assert_eq!(frombase64("").unwrap(), "");
}

#[test]
fn character_outside_alphabet_fails() {
    assert_eq!(frombase64("!!!!"), Err(CodecError::InvalidEncoding));
}

#[test]
fn decode_to_invalid_utf8_fails() {
    // "/w==" decodes to the lone byte 0xFF, which is not UTF-8
    assert_eq!(frombase64("/w=="), Err(CodecError::InvalidEncoding));
}

#[test]
fn alphabet_and_inverse_agree() {
    assert_eq!(matchingb64(0), b'A');
    assert_eq!(matchingb64(25), b'Z');
    assert_eq!(matchingb64(26), b'a');
    assert_eq!(matchingb64(51), b'z');
    assert_eq!(matchingb64(52), b'0');
    assert_eq!(matchingb64(61), b'9');
    assert_eq!(matchingb64(62), b'+');
    assert_eq!(matchingb64(63), b'/');
    for v in 0..64u8 {
        assert_eq!(matchingb642(matchingb64(v)), Some(v));
    }
    assert_eq!(matchingb642(b'='), None);
    assert_eq!(matchingb642(b' '), None);
}

#[test]
fn six_bit_values_of_groups() {
    // "Man" = 77 97 110, whose 24 bits regroup as 19 22 5 46
    assert_eq!(binoperate3(&[77, 97, 110]).unwrap(), vec![19, 22, 5, 46]);
    // a short group is zero-padded on the right
    assert_eq!(binoperate3(&[b'H', b'i']).unwrap(), vec![18, 6, 36]);
    assert_eq!(binoperate3(&[b'H']).unwrap(), vec![18, 0]);
    assert!(binoperate3(&[]).is_err());
    assert!(binoperate3(&[1, 2, 3, 4]).is_err());
}
