//! Whitespace-delimited, type-directed extraction of values from a buffered
//! byte source, in the manner of a formatted input stream.
//!
//! An [`InputStream`] wraps a [`ByteSource`]; each call of `scan` skips the
//! delimiters, gathers the next token and parses it as the requested type.
pub mod token;
pub mod source;
pub mod decode;
pub mod stream;
pub mod laws;

pub use decode::{decode, token_text, Error};
pub use source::ByteSource;
pub use stream::{take_run, InputStream};
pub use token::is_whitespace;
