//! Error values returned by the codecs and by content handling.
use vstd::prelude::*;

verus! {

/// Failure of a decode operation: the decoded bytes are not valid text, or a
/// Base64 character lies outside the alphabet.
#[derive(Debug, Clone, Copy, PartialEq, Eq, Structural)]
pub enum CodecError {
    InvalidEncoding,
}

/// An error carrying a plain message, for the callers that write results out.
#[derive(Debug)]
pub struct ErrorToSaveFile {
    msg: String,
}

impl ErrorToSaveFile {
    /// The message this error carries.
    pub closed spec fn spec_msg(&self) -> Seq<char> {
        self.msg@
    }

    pub fn new(msg: &str) -> (r: Self)
        ensures
            r.spec_msg() == msg@,
    {
        ErrorToSaveFile { msg: msg.to_owned() }
    }

    /// The message, for display by the caller.
    pub fn message(&self) -> (r: &str)
        ensures
            r@ == self.spec_msg(),
    {
        self.msg.as_str()
    }
}

} // verus!
