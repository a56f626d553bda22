//! Turning a token's raw bytes into a value: trim, check the text, parse.
use vstd::prelude::*;
use vstd::utf8::{decode_utf8, valid_utf8};

verus! {

#[verifier::external_type_specification]
#[verifier::external_body]
pub struct ExUtf8Error(std::str::Utf8Error);

/// Why a scan failed. The set of kinds is closed.
#[derive(Debug)]
pub enum Error {
    /// The source failed while bytes were read from it.
    Io(std::io::Error),
    /// The token's bytes are not valid UTF-8.
    Utf8(std::str::Utf8Error),
    /// The token's text does not parse as the requested type.
    FromStr,
    /// The token is longer than the limit the caller set.
    BufferLimitExceeded,
}

impl From<std::io::Error> for Error {
    fn from(err: std::io::Error) -> Error {
        Error::Io(err)
    }
}

impl vstd::std_specs::convert::FromSpecImpl<std::io::Error> for Error {
    open spec fn obeys_from_spec() -> bool {
        true
    }

    open spec fn from_spec(v: std::io::Error) -> Error {
        Error::Io(v)
    }
}

impl From<std::str::Utf8Error> for Error {
    fn from(err: std::str::Utf8Error) -> Error {
        Error::Utf8(err)
    }
}

impl vstd::std_specs::convert::FromSpecImpl<std::str::Utf8Error> for Error {
    open spec fn obeys_from_spec() -> bool {
        true
    }

    open spec fn from_spec(v: std::str::Utf8Error) -> Error {
        Error::Utf8(v)
    }
}

impl Error {
    /// A short description of the kind of failure, without its cause.
    pub fn message(&self) -> (r: &'static str)
        ensures
            self is Io ==> r@ == "I/O Error"@,
            self is Utf8 ==> r@ == "Data is not valid utf8"@,
            self is FromStr ==> r@ == "Could not parse given data type"@,
            self is BufferLimitExceeded ==> r@ == "Buffer limit exceeded"@,
    {
        match self {
            Error::Io(_) => "I/O Error",
            Error::Utf8(_) => "Data is not valid utf8",
            Error::FromStr => "Could not parse given data type",
            Error::BufferLimitExceeded => "Buffer limit exceeded",
        }
    }
}

/// The bytes that are decoded for a raw token: one trailing space, if the
/// token ends with one, is dropped; nothing else is.
pub open spec fn trim_space(raw: Seq<u8>) -> Seq<u8> {
    if raw.len() > 0 && raw.last() == 0x20u8 {
        raw.drop_last()
    } else {
        raw
    }
}

/// Drops a single trailing space byte.
pub fn trimmed(raw: &[u8]) -> (r: &[u8])
    ensures
        r@ == trim_space(raw@),
{
    let n = raw.len();
    if n > 0 && raw[n - 1] == 0x20u8 {
        let r = vstd::slice::slice_subrange(raw, 0, n - 1);
        proof {
            assert(r@ =~= raw@.drop_last());
        }
        r
    } else {
        raw
    }
}

/// Relies on std::str::from_utf8: `Ok` exactly when the bytes are valid
/// UTF-8, and then the text is what those bytes encode.
#[verifier::external_body]
fn text_of(bytes: &[u8]) -> (r: Result<&str, std::str::Utf8Error>)
    ensures
        r is Ok <==> valid_utf8(bytes@),
        r is Ok ==> r->Ok_0@ == decode_utf8(bytes@),
{
    std::str::from_utf8(bytes)
}

/// Relies on str::parse, that is on `F`'s own `FromStr`: `None` when it
/// reports a failure.
#[verifier::external_body]
fn parse_text<F: std::str::FromStr>(text: &str) -> (r: Option<F>) {
    text.parse().ok()
}

/// The text of a raw token, as its parser receives it: one trailing space
/// dropped, the rest read as UTF-8.
pub fn token_text(raw: &[u8]) -> (r: Result<&str, Error>)
    ensures
        r is Ok <==> valid_utf8(trim_space(raw@)),
        r is Ok ==> r->Ok_0@ == decode_utf8(trim_space(raw@)),
        r matches Err(e) ==> e is Utf8,
{
    let bytes = trimmed(raw);
    match text_of(bytes) {
        Ok(text) => Ok(text),
        Err(e) => Err(Error::Utf8(e)),
    }
}

/// Decodes a raw token as a value of type `F`: takes its `token_text` and
/// parses that with `F`'s `FromStr`.
///
/// Fails with `Utf8` exactly when the trimmed bytes are not valid UTF-8;
/// otherwise the value, or `FromStr`, is what `F`'s parser makes of the text.
pub fn decode<F: std::str::FromStr>(raw: &[u8]) -> (r: Result<F, Error>)
    ensures
        (r matches Err(Error::Utf8(_))) <==> !valid_utf8(trim_space(raw@)),
        r matches Err(e) ==> (e is Utf8 || e is FromStr),
{
    match token_text(raw) {
        Ok(text) => match parse_text::<F>(text) {
            Some(v) => Ok(v),
            None => Err(Error::FromStr),
        },
        Err(e) => Err(e),
    }
}

} // verus!
