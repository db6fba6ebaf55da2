use urlencode::binoperate1;
use urlencode::binoperate2;
use urlencode::decoding_percent;
use urlencode::encoding_percent_component;
use urlencode::CodecError;

#[test]
fn testingfunctionhexoperating() {
    let space = b' '; //in ascii is 32 hex is 20
    let spacehigh = space >> 4; //bitwise it to get 2 from hex
    let spacelow = space & 0xF; //get 0 from hex
                                //hex number of space is 20

    //make 2 and 0 to ascii the result will be 50 and 48
    assert_eq!(50, binoperate1(spacehigh));
    assert_eq!(48, binoperate1(spacelow));
}

#[test]
fn misc() {
    let a = "this that";
    let _ = a;

    let b = "<<ƒƒƒ ““““";
    let _ = b;

    let url = decoding_percent("https://www.freecodecamp.org/news/url-encoded-characters-reference/#:~:text=Any%20character%20that%20is%20not,used%20needs%20to%20be%20encoded.").unwrap();
    let encodedurl = encoding_percent_component(&url);
    println!("{}", url);
    println!();
    println!("https://www.freecodecamp.org/news/url-encoded-characters-reference/#:~:text=Any%20character%20that%20is%20not,used%20needs%20to%20be%20encoded.");
    println!();
    println!("{}", encodedurl);

    let b = "Hi".as_bytes();
    let iter: Vec<u8> = b.iter().map(|x| x >> 2).collect();
    let _ = iter;
}

#[test]
fn space_becomes_percent_20() {
    assert_eq!(encoding_percent_component("this that"), "this%20that");
}

#[test]
fn unreserved_text_is_unchanged() {
    let s = "ABCXYZabcxyz0189$-_.+!*()";
    assert_eq!(encoding_percent_component(s), s);
}

#[test]
fn reserved_bytes_are_escaped_uppercase() {
    assert_eq!(encoding_percent_component("a/b?c"), "a%2Fb%3Fc");
    assert_eq!(encoding_percent_component("Hello Günter"), "Hello%20G%C3%BCnter");
}

#[test]
fn encode_empty_is_empty() {
    assert_eq!(encoding_percent_component(""), "");
}

#[test]
fn percent_decode_inverts_encode() {
    for s in ["", "plain", "this that", "Hello Günter", "100% of €s & <spaces>"] {
        let encoded = encoding_percent_component(s);
        assert_eq!(decoding_percent(&encoded).unwrap(), s);
    }
}

#[test]
fn trailing_percent_passes_through() {
    assert_eq!(decoding_percent("100%").unwrap(), "100%");
    assert_eq!(decoding_percent("100%a").unwrap(), "100%a");
}

#[test]
fn hex_digits_decode_in_either_case() {
    assert_eq!(decoding_percent("%2f").unwrap(), "/");
    assert_eq!(decoding_percent("%2F").unwrap(), "/");
}

#[test]
fn non_hex_escape_passes_through() {
    assert_eq!(decoding_percent("%zz").unwrap(), "%zz");
}

#[test]
fn percent_decode_to_invalid_utf8_fails() {
    assert_eq!(decoding_percent("%FF"), Err(CodecError::InvalidEncoding));
}

#[test]
fn hex_digit_values() {
    assert_eq!(binoperate2(b'0'), Some(0));
    assert_eq!(binoperate2(b'9'), Some(9));
    assert_eq!(binoperate2(b'A'), Some(10));
    assert_eq!(binoperate2(b'f'), Some(15));
    assert_eq!(binoperate2(b'z'), None);
    assert_eq!(binoperate2(b'%'), None);
}
