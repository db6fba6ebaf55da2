use urlencode::content_from_lines;
use urlencode::decode_content;
use urlencode::encode_content;
use urlencode::CodecError;
use urlencode::ErrorToSaveFile;
use urlencode::FileContent;

#[test]
fn encode_single_line_percent() {
    let content = FileContent::Single(String::from("this that"));
    match encode_content(&content, true) {
        FileContent::Single(s) => assert_eq!(s, "this%20that"),
        FileContent::Multiple(_) => panic!("expected a single line"),
    }
}

#[test]
fn encode_single_line_base64() {
    let content = FileContent::Single(String::from("Hi"));
    match encode_content(&content, false) {
        FileContent::Single(s) => assert_eq!(s, "SGk="),
        FileContent::Multiple(_) => panic!("expected a single line"),
    }
}

#[test]
fn encode_lines_independently() {
    let lines = vec![String::from("this that"), String::from("a/b")];
    let content = FileContent::Multiple(lines);
    match encode_content(&content, true) {
        FileContent::Multiple(out) => {
            assert_eq!(out, vec![String::from("this%20that"), String::from("a%2Fb")]);
        },
        FileContent::Single(_) => panic!("expected several lines"),
    }
}

#[test]
fn decode_single_line_percent() {
    let content = FileContent::Single(String::from("this%20that"));
    match decode_content(&content, true).unwrap() {
        FileContent::Single(s) => assert_eq!(s, "this that"),
        FileContent::Multiple(_) => panic!("expected a single line"),
    }
}

#[test]
fn decode_lines_base64() {
    let lines = vec![String::from("SGk="), String::from("TWFu")];
    let content = FileContent::Multiple(lines);
    match decode_content(&content, false).unwrap() {
        FileContent::Multiple(out) => {
            assert_eq!(out, vec![String::from("Hi"), String::from("Man")]);
        },
        FileContent::Single(_) => panic!("expected several lines"),
    }
}

#[test]
fn one_bad_line_fails_the_whole_buffer() {
    let lines = vec![String::from("TWFu"), String::from("!!!!")];
    let content = FileContent::Multiple(lines);
    match decode_content(&content, false) {
        Err(e) => assert_eq!(e, CodecError::InvalidEncoding),
        Ok(_) => panic!("expected a failure"),
    }
}

#[test]
fn no_lines_is_an_error() {
    let lines: Vec<String> = Vec::new();
    match content_from_lines(&lines) {
        Err(e) => assert_eq!(e.message(), "Empty"),
        Ok(_) => panic!("expected a failure"),
    }
}

#[test]
fn one_line_stands_alone() {
    let lines = vec![String::from("only")];
    match content_from_lines(&lines).unwrap() {
        FileContent::Single(s) => assert_eq!(s, "only"),
        FileContent::Multiple(_) => panic!("expected a single line"),
    }
}

#[test]
fn several_lines_stand_together() {
    let lines = vec![String::from("one"), String::from("two")];
    match content_from_lines(&lines).unwrap() {
        FileContent::Multiple(out) => assert_eq!(out, lines),
        FileContent::Single(_) => panic!("expected several lines"),
    }
}

#[test]
fn error_keeps_its_message() {
    let e = ErrorToSaveFile::new("could not save");
    assert_eq!(e.message(), "could not save");
}
