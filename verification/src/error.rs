//! The restore method of PPMd8 and the error type of the PPMd coders.

use vstd::prelude::*;
use vstd::string::*;

verus! {

/// `std::io::Error`, carried through the library unread.
#[verifier::external_type_specification]
#[verifier::external_body]
pub struct ExIoError(std::io::Error);

/// The restore method used in PPMd8: what the model does once its memory is full.
#[derive(Debug, Copy, Clone, Ord, PartialOrd, Eq, PartialEq, Hash, Structural)]
pub enum RestoreMethod {
    /// Discard the model and start afresh.
    Restart,
    /// Cut the model down and keep going.
    CutOff,
}

impl RestoreMethod {
    /// The number that the PPMd8 format gives this method.
    pub open spec fn spec_code(self) -> u32 {
        match self {
            RestoreMethod::Restart => 0,
            RestoreMethod::CutOff => 1,
        }
    }

    /// The number that the PPMd8 format gives this method (0 for `Restart`, 1 for `CutOff`).
    pub fn code(self) -> (r: u32)
        ensures
            r == self.spec_code(),
    {
        match self {
            RestoreMethod::Restart => 0,
            RestoreMethod::CutOff => 1,
        }
    }
}

/// Crate error type.
pub enum Error {
    /// The first four bytes of a PPMd8 stream are all `0xFF`.
    RangeDecoderInitialization,
    /// A PPMd parameter is out of range.
    InvalidParameter,
    /// Reading or writing failed.
    IoError(std::io::Error),
    /// An internal failure, such as a failed allocation.
    InternalError(&'static str),
}

impl Error {
    /// The text this error shows: a fixed sentence for a failed range decoder start
    /// or a wrong parameter, and a fixed prefix before the text of the I/O error (as
    /// its `Display` writes it) or before the internal error's message.
    pub fn message(&self) -> (r: String)
        ensures
            *self is RangeDecoderInitialization ==> r@ == "Could not initialize the range decoder"@,
            *self is InvalidParameter ==> r@ == "Wrong PPMd parameter"@,
            *self matches Error::InternalError(m) ==> r@ == "Internal error: "@ + m@,
            *self matches Error::IoError(e) ==> exists|t: String|
                to_string_from_display_ensures::<std::io::Error>(&e, t) && r@ == "Io error: "@ + t@,
    {
        match self {
            Error::RangeDecoderInitialization => String::from_str("Could not initialize the range decoder"),
            Error::InvalidParameter => String::from_str("Wrong PPMd parameter"),
            Error::IoError(e) => {
                let t: String = e.to_string();
                let mut s: String = String::from_str("Io error: ");
                s.append(t.as_str());
                assert(to_string_from_display_ensures::<std::io::Error>(e, t) && s@ == "Io error: "@ + t@);
                s
            },
            Error::InternalError(m) => {
                let mut s: String = String::from_str("Internal error: ");
                s.append(m);
                s
            },
        }
    }
}

/// Builds the `std::io::Error` of kind `UnexpectedEof` that a read past the end of the
/// input gives (`std::io::Error::from(std::io::ErrorKind::UnexpectedEof)`); nothing is
/// stated of the value.
#[verifier::external_body]
pub fn unexpected_eof() -> std::io::Error {
    std::io::Error::from(std::io::ErrorKind::UnexpectedEof)
}

} // verus!
