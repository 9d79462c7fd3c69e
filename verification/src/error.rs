//! The failure taxonomy of the server: parse failures with their reason
//! codes, and the per-request and lifecycle failures the listener loop
//! distinguishes.

use vstd::prelude::*;
use vstd::string::*;
use crate::text::push_char;

verus! {

/// A recognized request whose payload is malformed.
#[derive(Debug)]
pub enum ParseError {
    /// The request text does not split into the expected segments; the
    /// code says which split failed.
    InvalidRequest { code: u32 },
    /// Nothing follows `key=` before the next whitespace or line end.
    MissingKey,
}

/// What can go wrong while serving: a malformed recognized request (with
/// its rendered reason), a failed bind, an unrecognized request line, an
/// empty request, a missing response body, and the two conditions the
/// process edge reports when reading or decoding the snapshot file.
#[derive(Debug)]
pub enum ServerError {
    ParseError { reason: String },
    ConnectionError,
    InvalidRequest,
    NoRequestFound,
    NoResponseFound,
    IoError(String),
    SerdeError(String),
}

/// The decimal digit character for `d`, which must be below ten.
pub open spec fn digit_char(d: nat) -> char {
    if d == 0 {
        '0'
    } else if d == 1 {
        '1'
    } else if d == 2 {
        '2'
    } else if d == 3 {
        '3'
    } else if d == 4 {
        '4'
    } else if d == 5 {
        '5'
    } else if d == 6 {
        '6'
    } else if d == 7 {
        '7'
    } else if d == 8 {
        '8'
    } else {
        '9'
    }
}

/// The decimal digits of `n`, most significant first.
pub open spec fn dec_digits(n: nat) -> Seq<char>
    decreases n,
{
    if n < 10 {
        seq![digit_char(n)]
    } else {
        dec_digits(n / 10).push(digit_char(n % 10))
    }
}

fn digit_char_of(d: u32) -> (c: char)
    requires
        d < 10,
    ensures
        c == digit_char(d as nat),
{
    if d == 0 {
        '0'
    } else if d == 1 {
        '1'
    } else if d == 2 {
        '2'
    } else if d == 3 {
        '3'
    } else if d == 4 {
        '4'
    } else if d == 5 {
        '5'
    } else if d == 6 {
        '6'
    } else if d == 7 {
        '7'
    } else if d == 8 {
        '8'
    } else {
        '9'
    }
}

/// Renders `n` in decimal.
pub fn u32_decimal(n: u32) -> (s: String)
    ensures
        s@ == dec_digits(n as nat),
    decreases n,
{
    if n < 10 {
        let mut s = String::new();
        push_char(&mut s, digit_char_of(n));
        proof {
            assert(s@ =~= dec_digits(n as nat));
        }
        s
    } else {
        let mut s = u32_decimal(n / 10);
        push_char(&mut s, digit_char_of(n % 10));
        s
    }
}

/// The diagnostic text for a parse failure.
pub open spec fn spec_message(e: ParseError) -> Seq<char> {
    match e {
        ParseError::InvalidRequest { code } => "Request was improperly formatted: "@ + dec_digits(
            code as nat,
        ),
        ParseError::MissingKey => "No key found in request"@,
    }
}

impl ParseError {
    /// Renders the diagnostic text for this failure.
    pub fn message(&self) -> (s: String)
        ensures
            s@ == spec_message(*self),
    {
        match self {
            ParseError::InvalidRequest { code } => {
                let mut s = String::from_str("Request was improperly formatted: ");
                let digits = u32_decimal(*code);
                s.append(digits.as_str());
                s
            },
            ParseError::MissingKey => String::from_str("No key found in request"),
        }
    }
}

impl ServerError {
    /// Whether a request that failed this way still receives a not-found
    /// style response.  An unrecognized request line is dropped silently;
    /// every other per-request failure is answered, so no request can take
    /// the whole server down.
    pub fn sends_response(&self) -> (b: bool)
        ensures
            b == !(*self matches ServerError::InvalidRequest),
    {
        match self {
            ServerError::InvalidRequest => false,
            _ => true,
        }
    }
}

} // verus!
