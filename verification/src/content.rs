//! Text buffers handed to the codecs: a single line, or the lines of a
//! file, each line encoded or decoded independently.
use vstd::prelude::*;
use vstd::utf8::encode_utf8;
use vstd::utf8::valid_utf8;

use crate::base64::all_base64;
use crate::base64::base64_decoded;
use crate::base64::base64_encoded;
use crate::base64::frombase64;
use crate::base64::strip_padding;
use crate::base64::tobase64;
use crate::errors::CodecError;
use crate::errors::ErrorToSaveFile;
use crate::percent::decoding_percent;
use crate::percent::encoding_percent_component;
use crate::percent::percent_decoded;
use crate::percent::percent_encoded;

verus! {

/// The text a codec works on: one line, or the lines of a file.
#[derive(Debug)]
pub enum FileContent {
    Single(String),
    Multiple(Vec<String>),
}

/// Where a result is written: an HTML table file, or the terminal.
#[derive(Debug)]
pub enum FileLocate {
    Html,
    Terminal,
}

/// The encoding of one line under the chosen codec: percent when
/// `percent` holds, Base64 otherwise.
pub open spec fn encoded_line(s: Seq<char>, percent: bool) -> Seq<u8> {
    if percent {
        percent_encoded(encode_utf8(s))
    } else {
        base64_encoded(encode_utf8(s))
    }
}

/// True when one line decodes under the chosen codec.
pub open spec fn line_decodable(s: Seq<char>, percent: bool) -> bool {
    if percent {
        valid_utf8(percent_decoded(encode_utf8(s)))
    } else {
        all_base64(strip_padding(encode_utf8(s))) && valid_utf8(base64_decoded(encode_utf8(s)))
    }
}

/// The decoding of one line under the chosen codec.
pub open spec fn decoded_line(s: Seq<char>, percent: bool) -> Seq<u8> {
    if percent {
        percent_decoded(encode_utf8(s))
    } else {
        base64_decoded(encode_utf8(s))
    }
}

/// Encodes every line of the content under the chosen codec,
/// independently. Encoding never fails.
pub fn encode_content(content: &FileContent, percent: bool) -> (r: FileContent)
    ensures
        content is Single ==> r is Single && encode_utf8(r->Single_0@) == encoded_line(
            content->Single_0@,
            percent,
        ),
        content is Multiple ==> r is Multiple && r->Multiple_0@.len()
            == content->Multiple_0@.len() && (forall|i: int|
            0 <= i < content->Multiple_0@.len() ==> encode_utf8(#[trigger] r->Multiple_0@[i]@)
                == encoded_line(content->Multiple_0@[i]@, percent)),
{
    match content {
        FileContent::Single(s) => {
            if percent {
                FileContent::Single(encoding_percent_component(s.as_str()))
            } else {
                FileContent::Single(tobase64(s.as_str()))
            }
        },
        FileContent::Multiple(lines) => {
            let mut processed: Vec<String> = Vec::new();
            let mut i: usize = 0;
            while i < lines.len()
                invariant
                    i <= lines@.len(),
                    content is Multiple && lines@ == content->Multiple_0@,
                    processed@.len() == i,
                    forall|j: int|
                        0 <= j < i ==> encode_utf8(#[trigger] processed@[j]@) == encoded_line(
                            lines@[j]@,
                            percent,
                        ),
                decreases lines@.len() - i,
            {
                let line = &lines[i];
                let a = if percent {
                    encoding_percent_component(line.as_str())
                } else {
                    tobase64(line.as_str())
                };
                processed.push(a);
                i = i + 1;
            }
            FileContent::Multiple(processed)
        },
    }
}

/// Decodes every line of the content under the chosen codec,
/// independently. Fails, with nothing returned, as soon as one line does
/// not decode.
pub fn decode_content(content: &FileContent, percent: bool) -> (r: Result<
    FileContent,
    CodecError,
>)
    ensures
        content is Single ==> ((r is Ok <==> line_decodable(content->Single_0@, percent)) && (
        r is Ok ==> r->Ok_0 is Single && encode_utf8(r->Ok_0->Single_0@) == decoded_line(
            content->Single_0@,
            percent,
        ))),
        content is Multiple ==> ((r is Ok <==> (forall|i: int|
            0 <= i < content->Multiple_0@.len() ==> line_decodable(
                #[trigger] content->Multiple_0@[i]@,
                percent,
            ))) && (r is Ok ==> r->Ok_0 is Multiple && r->Ok_0->Multiple_0@.len()
            == content->Multiple_0@.len() && (forall|i: int|
            0 <= i < content->Multiple_0@.len() ==> encode_utf8(
                #[trigger] r->Ok_0->Multiple_0@[i]@,
            ) == decoded_line(content->Multiple_0@[i]@, percent)))),
        r is Err ==> r->Err_0 == CodecError::InvalidEncoding,
{
    match content {
        FileContent::Single(s) => {
            let decoded = if percent {
                decoding_percent(s.as_str())
            } else {
                frombase64(s.as_str())
            };
            match decoded {
                Ok(st) => Ok(FileContent::Single(st)),
                Err(e) => Err(e),
            }
        },
        FileContent::Multiple(lines) => {
            let mut processed: Vec<String> = Vec::new();
            let mut i: usize = 0;
            while i < lines.len()
                invariant
                    i <= lines@.len(),
                    content is Multiple && lines@ == content->Multiple_0@,
                    processed@.len() == i,
                    forall|j: int| 0 <= j < i ==> line_decodable(#[trigger] lines@[j]@, percent),
                    forall|j: int|
                        0 <= j < i ==> encode_utf8(#[trigger] processed@[j]@) == decoded_line(
                            lines@[j]@,
                            percent,
                        ),
                decreases lines@.len() - i,
            {
                let line = &lines[i];
                let decoded = if percent {
                    decoding_percent(line.as_str())
                } else {
                    frombase64(line.as_str())
                };
                match decoded {
                    Ok(st) => processed.push(st),
                    Err(e) => {
                        proof {
                            assert(!line_decodable(lines@[i as int]@, percent));
                        }
                        return Err(e);
                    },
                }
                i = i + 1;
            }
            Ok(FileContent::Multiple(processed))
        },
    }
}

/// Classifies the lines read from a file: an empty file is an error, one
/// line stands alone, several stand together.
pub fn content_from_lines(lines: &Vec<String>) -> (r: Result<FileContent, ErrorToSaveFile>)
    ensures
        r is Err <==> lines@.len() == 0,
        r is Err ==> r->Err_0.spec_msg() == "Empty"@,
        lines@.len() == 1 ==> r is Ok && r->Ok_0 is Single && r->Ok_0->Single_0@ == lines@[0]@,
        lines@.len() > 1 ==> r is Ok && r->Ok_0 is Multiple && r->Ok_0->Multiple_0@.len()
            == lines@.len() && (forall|i: int|
            0 <= i < lines@.len() ==> #[trigger] r->Ok_0->Multiple_0@[i]@ == lines@[i]@),
{
    if lines.len() == 0 {
        Err(ErrorToSaveFile::new("Empty"))
    } else if lines.len() == 1 {
        Ok(FileContent::Single(lines[0].clone()))
    } else {
        let mut copied: Vec<String> = Vec::new();
        let mut i: usize = 0;
        while i < lines.len()
            invariant
                i <= lines@.len(),
                copied@.len() == i,
                forall|j: int| 0 <= j < i ==> #[trigger] copied@[j]@ == lines@[j]@,
            decreases lines@.len() - i,
        {
            copied.push(lines[i].clone());
            i = i + 1;
        }
        Ok(FileContent::Multiple(copied))
    }
}

} // verus!
