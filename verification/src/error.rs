//! Error types.
//!
//! Fallible operations return `Result<T, Error>`. The [`Error`] enum covers I/O failures,
//! out-of-bounds access and a lock that another thread poisoned.

use vstd::prelude::*;
use vstd::string::*;

verus! {

/// Declares `std::io::Error`, which the library carries without looking inside.
#[verifier::external_type_specification]
#[verifier::external_body]
pub struct ExIoError(std::io::Error);

/// Errors that can occur during file operations.
///
/// [`message`](Error::message) describes an error in words.
#[derive(Debug)]
pub enum Error {
    /// An I/O error occurred during file operations.
    Io(std::io::Error),
    /// An access attempted to read or write beyond the file boundaries.
    OutOfBounds {
        /// The starting offset of the access.
        offset: usize,
        /// The length of the access.
        length: usize,
        /// The total size of the file.
        file_size: usize,
    },
    /// A lock around shared data was poisoned; the text says how.
    LockPoisoned(String),
}

/// The decimal digit for a number below ten.
pub open spec fn digit(n: nat) -> char {
    (48 + n) as char
}

/// A number in decimal, without leading zeros.
pub open spec fn decimal(n: nat) -> Seq<char>
    decreases n,
{
    if n < 10 {
        seq![digit(n)]
    } else {
        decimal(n / 10).push(digit(n % 10))
    }
}

/// The text for an access of `length` bytes at `offset` in a file of `file_size` bytes.
pub open spec fn out_of_bounds_text(offset: nat, length: nat, file_size: nat) -> Seq<char> {
    "offset "@ + decimal(offset) + " with length "@ + decimal(length) + " exceeds file size "@
        + decimal(file_size)
}

/// Appends one decimal digit.
fn append_digit(text: &mut String, n: usize)
    requires
        n < 10,
    ensures
        final(text)@ == old(text)@.push(digit(n as nat)),
{
    proof {
        reveal_strlit("0");
        reveal_strlit("1");
        reveal_strlit("2");
        reveal_strlit("3");
        reveal_strlit("4");
        reveal_strlit("5");
        reveal_strlit("6");
        reveal_strlit("7");
        reveal_strlit("8");
        reveal_strlit("9");
    }
    let numeral: &str = match n {
        0 => "0",
        1 => "1",
        2 => "2",
        3 => "3",
        4 => "4",
        5 => "5",
        6 => "6",
        7 => "7",
        8 => "8",
        _ => "9",
    };
    assert(numeral@ =~= seq![digit(n as nat)]);
    text.append(numeral);
    assert(text@ =~= old(text)@.push(digit(n as nat)));
}

/// Appends a number in decimal.
fn append_decimal(text: &mut String, n: usize)
    ensures
        final(text)@ == old(text)@ + decimal(n as nat),
    decreases n,
{
    if n >= 10 {
        append_decimal(text, n / 10);
    }
    append_digit(text, n % 10);
    assert(text@ =~= old(text)@ + decimal(n as nat));
}

impl Error {
    /// The message that describes the error.
    pub fn message(&self) -> (text: String)
        ensures
            match self {
                Error::Io(error) => to_string_from_display_ensures::<std::io::Error>(error, text),
                Error::OutOfBounds { offset, length, file_size } => text@ == out_of_bounds_text(
                    *offset as nat,
                    *length as nat,
                    *file_size as nat,
                ),
                Error::LockPoisoned(reason) => text@ == reason@,
            },
    {
        match self {
            Error::Io(error) => error.to_string(),
            Error::OutOfBounds { offset, length, file_size } => {
                let mut text = String::from_str("offset ");
                append_decimal(&mut text, *offset);
                text.append(" with length ");
                append_decimal(&mut text, *length);
                text.append(" exceeds file size ");
                append_decimal(&mut text, *file_size);
                text
            },
            Error::LockPoisoned(reason) => reason.clone(),
        }
    }

    /// The error as an I/O error: an I/O error stays what it is, and any other becomes what `wrap`
    /// makes of it.
    pub fn into_io<F: FnOnce(Error) -> std::io::Error>(self, wrap: F) -> (result: std::io::Error)
        requires
            !(self is Io) ==> call_requires(wrap, (self,)),
        ensures
            match self {
                Error::Io(inner) => result == inner,
                _ => call_ensures(wrap, (self,), result),
            },
    {
        match self {
            Error::Io(inner) => inner,
            other => wrap(other),
        }
    }
}

impl From<std::io::Error> for Error {
    fn from(error: std::io::Error) -> (result: Self) {
        Error::Io(error)
    }
}

impl vstd::std_specs::convert::FromSpecImpl<std::io::Error> for Error {
    open spec fn obeys_from_spec() -> bool {
        true
    }

    open spec fn from_spec(error: std::io::Error) -> Self {
        Error::Io(error)
    }
}

} // verus!
