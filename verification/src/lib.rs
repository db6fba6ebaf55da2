//! Textual encoding and decoding transforms: percent-encoding (URL
//! component escaping) and Base64, with their inverses.
pub mod base64;
pub mod content;
pub mod errors;
pub mod percent;
mod text;

pub use base64::binoperate3;
pub use content::content_from_lines;
pub use content::decode_content;
pub use content::encode_content;
pub use content::FileContent;
pub use content::FileLocate;
pub use base64::frombase64;
pub use base64::matchingb64;
pub use base64::matchingb642;
pub use base64::tobase64;
pub use errors::CodecError;
pub use errors::ErrorToSaveFile;
pub use percent::binoperate1;
pub use percent::binoperate2;
pub use percent::decoding_percent;
pub use percent::encoding_percent_component;
