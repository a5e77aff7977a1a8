//! The ways in which an input can fail to name an address and a prefix length.

use crate::decimal::decimal_text;
use vstd::prelude::*;
use vstd::string::StringExecFns;

verus! {

/// The two forms an input can have.
pub const USAGE_MSG: &'static str =
    "format must be X.X.X.X/X (ex: 10.0.0.1/24), or X-X-X-X-X (ex. 10-0-0-1-24)";

/// Why an input was rejected.
#[derive(Clone, Debug, PartialEq, Eq)]
pub enum Error {
    /// The prefix length is not an unsigned decimal number: it is empty,
    /// a sign alone, or holds something other than digits.
    InvalidCidr,
    /// The prefix length is a number, but greater than 32. The number is
    /// kept as its digits, without a sign and without zeros in front, so
    /// that a number of any length is kept whole.
    CidrOutOfRange(String),
    /// The address is not four decimal octets joined by dots.
    InvalidIp,
    /// The input has the delimiters of neither `X.X.X.X/X` nor `X-X-X-X-X`.
    Format,
}

/// An error as the contracts speak of it: the digits of a number that is
/// out of range are a sequence of characters.
pub enum ErrorView {
    InvalidCidr,
    CidrOutOfRange(Seq<char>),
    InvalidIp,
    Format,
}

impl View for Error {
    type V = ErrorView;

    open spec fn view(&self) -> ErrorView {
        match self {
            Error::InvalidCidr => ErrorView::InvalidCidr,
            Error::CidrOutOfRange(digits) => ErrorView::CidrOutOfRange(digits@),
            Error::InvalidIp => ErrorView::InvalidIp,
            Error::Format => ErrorView::Format,
        }
    }
}

/// A result as the contracts speak of it: the value as it is, the error by
/// its view.
pub open spec fn view_result<T>(r: Result<T, Error>) -> Result<T, ErrorView> {
    match r {
        Ok(value) => Ok(value),
        Err(e) => Err(e@),
    }
}

/// The error for a prefix length that is the number `v`, greater than 32:
/// it holds the digits of `v`.
pub open spec fn cidr_out_of_range(v: nat) -> ErrorView {
    ErrorView::CidrOutOfRange(decimal_text(v))
}

impl ErrorView {
    /// What went wrong, without the reminder of the two forms. For a prefix
    /// length out of range it ends with the digits of the number.
    pub open spec fn reason(self) -> Seq<char> {
        match self {
            ErrorView::InvalidCidr => "CIDR must be unsigned integer in range 0-32 inclusive"@,
            ErrorView::CidrOutOfRange(digits) => {
                "CIDR must be in range 0-32 inclusive: provided = "@ + digits
            },
            ErrorView::InvalidIp => "IP must be a valid Ipv4 Address"@,
            ErrorView::Format => "Make sure you are using a consistent pattern"@,
        }
    }

    /// The message of the error: what went wrong, then the two forms an
    /// input can have.
    pub open spec fn message_text(self) -> Seq<char> {
        self.reason() + ": "@ + USAGE_MSG@
    }
}

impl Error {
    /// The message of the error, for a reader.
    pub fn message(&self) -> (r: String)
        ensures
            r@ == self@.message_text(),
    {
        let mut out = String::new();
        match self {
            Error::InvalidCidr => {
                out.append("CIDR must be unsigned integer in range 0-32 inclusive");
            },
            Error::CidrOutOfRange(digits) => {
                out.append("CIDR must be in range 0-32 inclusive: provided = ");
                out.append(digits.as_str());
            },
            Error::InvalidIp => {
                out.append("IP must be a valid Ipv4 Address");
            },
            Error::Format => {
                out.append("Make sure you are using a consistent pattern");
            },
        }
        assert(out@ == self@.reason());
        out.append(": ");
        out.append(USAGE_MSG);
        out
    }
}

} // verus!
