//! The failures that the codec reports.

use vstd::prelude::*;
use vstd::string::StringExecFns;

verus! {

/// Errors that can occur during compression or decompression.
#[derive(PartialEq, Eq, Clone, Copy, Debug, Structural)]
pub enum LzfError {
    /// The output buffer is too small to hold the decompressed data.
    BufferTooSmall,
    /// The compressed data is not a well-formed token stream.
    DataCorrupted,
    /// The data cannot be compressed into fewer bytes than it holds.
    NoCompressionPossible,
    /// A foreign error code that the codec itself never produces.
    UnknownError(i32),
}

/// A result carrying either a value or a codec error.
pub type LzfResult<T> = Result<T, LzfError>;

/// The character of the decimal digit `d`.
pub open spec fn digit_char(d: int) -> char {
    ('0' as int + d) as char
}

/// The decimal digits of `n`, the most significant first.
pub open spec fn decimal(n: nat) -> Seq<char>
    decreases n,
{
    if n < 10 {
        seq![digit_char(n as int)]
    } else {
        decimal(n / 10).push(digit_char(n as int % 10))
    }
}

/// The decimal form of `n`, with a minus sign before a negative number.
pub open spec fn signed_decimal(n: int) -> Seq<char> {
    if n < 0 {
        seq!['-'] + decimal((-n) as nat)
    } else {
        decimal(n as nat)
    }
}

/// The text of one decimal digit.
fn digit(d: u32) -> (text: &'static str)
    requires
        d < 10,
    ensures
        text@ == seq![digit_char(d as int)],
{
    proof {
        reveal_strlit("0");
        reveal_strlit("1");
        reveal_strlit("2");
        reveal_strlit("3");
        reveal_strlit("4");
        reveal_strlit("5");
        reveal_strlit("6");
        reveal_strlit("7");
        reveal_strlit("8");
        reveal_strlit("9");
    }
    let text = match d {
        0 => "0",
        1 => "1",
        2 => "2",
        3 => "3",
        4 => "4",
        5 => "5",
        6 => "6",
        7 => "7",
        8 => "8",
        _ => "9",
    };
    assert(text@ =~= seq![digit_char(d as int)]);
    text
}

/// Appends the decimal digits of `n` to `text`.
fn append_decimal(text: String, n: u32) -> (longer: String)
    ensures
        longer@ == text@ + decimal(n as nat),
    decreases n,
{
    if n < 10 {
        let longer = text.concat(digit(n));
        longer
    } else {
        let head = append_decimal(text, n / 10);
        let longer = head.concat(digit(n % 10));
        assert(longer@ =~= text@ + decimal(n as nat));
        longer
    }
}

impl LzfError {
    /// The error for the code that a foreign decoder left behind when it
    /// failed: 7 says that the output did not fit, 22 that the data was not
    /// valid. Any other code is handed on as it is, and no code as 0.
    pub fn from_errno(code: Option<i32>) -> (e: LzfError)
        ensures
            e == match code {
                Some(c) => if c == 7 {
                    LzfError::BufferTooSmall
                } else if c == 22 {
                    LzfError::DataCorrupted
                } else {
                    LzfError::UnknownError(c)
                },
                None => LzfError::UnknownError(0),
            },
    {
        match code {
            Some(7) => LzfError::BufferTooSmall,
            Some(22) => LzfError::DataCorrupted,
            Some(e) => LzfError::UnknownError(e),
            None => LzfError::UnknownError(0),
        }
    }

    /// The text of [`message`](LzfError::message).
    pub open spec fn message_text(self) -> Seq<char> {
        match self {
            LzfError::BufferTooSmall => "the given buffer is too small to handle the uncompressed data"@,
            LzfError::DataCorrupted => "the given data is corrupted"@,
            LzfError::NoCompressionPossible => "the input data cannot be compressed"@,
            LzfError::UnknownError(code) => "unknown error, code "@ + signed_decimal(code as int),
        }
    }

    /// A sentence that says what went wrong.
    pub fn message(&self) -> (text: String)
        ensures
            text@ == self.message_text(),
    {
        match *self {
            LzfError::BufferTooSmall => String::from_str(
                "the given buffer is too small to handle the uncompressed data",
            ),
            LzfError::DataCorrupted => String::from_str("the given data is corrupted"),
            LzfError::NoCompressionPossible => String::from_str(
                "the input data cannot be compressed",
            ),
            LzfError::UnknownError(code) => {
                let text = String::from_str("unknown error, code ");
                if code < 0 {
                    proof {
                        reveal_strlit("-");
                    }
                    let magnitude: u32 = (-(code as i64)) as u32;
                    let signed = text.concat("-");
                    let longer = append_decimal(signed, magnitude);
                    assert(longer@ =~= "unknown error, code "@ + signed_decimal(code as int));
                    longer
                } else {
                    append_decimal(text, code as u32)
                }
            },
        }
    }
}

} // verus!
