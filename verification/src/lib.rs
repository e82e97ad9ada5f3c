//! Decoding of JSON streams.
//!
//! A [`Decoder`] is handed a document chunk by chunk and is asked for one token at a time.
//! Where the bytes at hand do not settle the answer, it asks for more of them and is asked
//! again. How the document was cut into chunks makes no difference to what is decoded and to
//! what is left; only the message of an error may show less of the document where something
//! stands in the place of a `null`.

pub mod access;
pub mod decoder;
pub mod encoder;
pub mod error;
pub mod input;
pub mod integer;
pub mod laws;
pub mod lexical;
pub mod step;
pub mod text;

pub use access::{MapAccess, SeqAccess};
pub use decoder::Decoder;
pub use encoder::encode_byte_buf;
pub use error::Error;
pub use step::{Any, Ignored, Number, Stage, Step};
