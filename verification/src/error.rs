//! Decoding errors.

use vstd::prelude::*;
use vstd::string::*;

verus! {

/// What went wrong while decoding.
pub struct Error {
    message: String,
}

impl View for Error {
    type V = Seq<char>;

    /// The message of the error.
    closed spec fn view(&self) -> Seq<char> {
        self.message@
    }
}

/// The message of an error raised where the stream ends too early.
pub open spec fn unexpected_end_text() -> Seq<char> {
    "unexpected end of stream"@
}

/// The message of an error raised for bytes that are no UTF-8, for the reason `info`.
pub open spec fn invalid_utf8_text(info: Seq<char>) -> Seq<char> {
    "invalid UTF-8: "@ + info
}

/// The message of an error raised for a value of the right type that is wrong otherwise.
pub open spec fn invalid_value_text(unexpected: Seq<char>, expected: Seq<char>) -> Seq<char> {
    "invalid value: "@ + unexpected + ", expected "@ + expected
}

/// The message of an error raised for a value of the wrong type.
pub open spec fn invalid_type_text(unexpected: Seq<char>, expected: Seq<char>) -> Seq<char> {
    "invalid type: "@ + unexpected + ", expected "@ + expected
}

impl Error {
    /// An error with the given message.
    pub fn custom(message: String) -> (error: Error)
        ensures
            error@ == message@,
    {
        Error { message }
    }

    /// The bytes are no UTF-8, for the reason `info`.
    pub fn invalid_utf8(info: &str) -> (error: Error)
        ensures
            error@ == invalid_utf8_text(info@),
    {
        Error::custom("invalid UTF-8: ".to_owned().concat(info))
    }

    /// The stream ended where more of it was needed.
    pub fn unexpected_end() -> (error: Error)
        ensures
            error@ == unexpected_end_text(),
    {
        Error::custom("unexpected end of stream".to_owned())
    }

    /// A value of the right type that is wrong for some other reason.
    pub fn invalid_value(unexpected: &str, expected: &str) -> (error: Error)
        ensures
            error@ == invalid_value_text(unexpected@, expected@),
    {
        Error::custom(
            "invalid value: ".to_owned().concat(unexpected).concat(", expected ").concat(expected),
        )
    }

    /// A value of another type than the expected one.
    pub fn invalid_type(unexpected: &str, expected: &str) -> (error: Error)
        ensures
            error@ == invalid_type_text(unexpected@, expected@),
    {
        Error::custom(
            "invalid type: ".to_owned().concat(unexpected).concat(", expected ").concat(expected),
        )
    }

    /// The message of the error.
    pub fn to_string(&self) -> (message: String)
        ensures
            message@ == self@,
    {
        self.message.clone()
    }
}

} // verus!
