//! The ways in which reading a frame fails.

use crate::number::{decimal_text, push_decimal};
use vstd::prelude::*;
use vstd::string::StringExecFns;

verus! {

/// Why a frame, or a line of it, could not be read.
#[derive(Debug, Clone, PartialEq, Eq)]
pub enum ParseError {
    /// The text ended inside the nine header lines.
    IncompleteHeader,
    /// The text ended inside the coordinate blocks.
    IncompleteFrame,
    /// The text ended inside the velocity blocks, or a velocity block lacks its label.
    IncompleteVelocitySection,
    /// A line holds another number of values than it should.
    InvalidVectorLength { expected: usize, found: usize },
    /// A value is not written as a number; the message says in what way.
    InvalidNumberFormat(String),
}

/// A `ParseError` as a mathematical value.
pub enum ErrorView {
    IncompleteHeader,
    IncompleteFrame,
    IncompleteVelocitySection,
    InvalidVectorLength { expected: usize, found: usize },
    InvalidNumberFormat(Seq<char>),
}

impl View for ParseError {
    type V = ErrorView;

    open spec fn view(&self) -> ErrorView {
        match self {
            ParseError::IncompleteHeader => ErrorView::IncompleteHeader,
            ParseError::IncompleteFrame => ErrorView::IncompleteFrame,
            ParseError::IncompleteVelocitySection => ErrorView::IncompleteVelocitySection,
            ParseError::InvalidVectorLength { expected, found } => ErrorView::InvalidVectorLength {
                expected: *expected,
                found: *found,
            },
            ParseError::InvalidNumberFormat(m) => ErrorView::InvalidNumberFormat(m@),
        }
    }
}

/// The characters of a text that is written in ASCII.
pub open spec fn ascii_chars(s: Seq<u8>) -> Seq<char> {
    Seq::new(s.len(), |i: int| s[i] as char)
}

/// The sentence that reports an error.
pub open spec fn error_message(e: ErrorView) -> Seq<char> {
    match e {
        ErrorView::IncompleteHeader => "file ended unexpectedly while parsing frame header"@,
        ErrorView::IncompleteFrame => "file ended unexpectedly while reading atom data"@,
        ErrorView::IncompleteVelocitySection =>
            "file ended unexpectedly while reading velocity section"@,
        ErrorView::InvalidVectorLength { expected, found } => "expected "@ + ascii_chars(
            decimal_text(expected as nat),
        ) + " values on line, found "@ + ascii_chars(decimal_text(found as nat)),
        ErrorView::InvalidNumberFormat(m) => "invalid number format: "@ + m,
    }
}

/// The text of one decimal digit.
fn digit_str(d: u8) -> (r: &'static str)
    requires
        0x30 <= d <= 0x39,
    ensures
        r@ == seq![d as char],
{
    proof {
        reveal_strlit("0");
        reveal_strlit("1");
        reveal_strlit("2");
        reveal_strlit("3");
        reveal_strlit("4");
        reveal_strlit("5");
        reveal_strlit("6");
        reveal_strlit("7");
        reveal_strlit("8");
        reveal_strlit("9");
    }
    let r = if d == 0x30 {
        "0"
    } else if d == 0x31 {
        "1"
    } else if d == 0x32 {
        "2"
    } else if d == 0x33 {
        "3"
    } else if d == 0x34 {
        "4"
    } else if d == 0x35 {
        "5"
    } else if d == 0x36 {
        "6"
    } else if d == 0x37 {
        "7"
    } else if d == 0x38 {
        "8"
    } else {
        "9"
    };
    assert(r@ =~= seq![d as char]);
    r
}

/// Appends the decimal text of `n` to `out`.
fn append_decimal(out: &mut String, n: usize)
    ensures
        final(out)@ == old(out)@ + ascii_chars(decimal_text(n as nat)),
{
    let mut digits: Vec<u8> = Vec::new();
    push_decimal(&mut digits, n as u64);
    let ghost start = out@;
    let mut i: usize = 0;
    while i < digits.len()
        invariant
            i <= digits.len(),
            digits@ == decimal_text(n as nat),
            forall|k: int| 0 <= k < digits.len() ==> 0x30 <= #[trigger] digits[k] <= 0x39,
            out@ == start + ascii_chars(digits@.subrange(0, i as int)),
        decreases digits.len() - i,
    {
        let ghost before = out@;
        out.append(digit_str(digits[i]));
        proof {
            assert(ascii_chars(digits@.subrange(0, i + 1)) =~= ascii_chars(
                digits@.subrange(0, i as int),
            ) + seq![digits[i as int] as char]);
            assert(out@ =~= start + ascii_chars(digits@.subrange(0, i + 1)));
        }
        i = i + 1;
    }
    proof {
        assert(digits@.subrange(0, digits.len() as int) =~= digits@);
    }
}

impl ParseError {
    /// The sentence that reports this error.
    pub fn to_string(&self) -> (r: String)
        ensures
            r@ == error_message(self@),
    {
        match self {
            ParseError::IncompleteHeader => String::from_str(
                "file ended unexpectedly while parsing frame header",
            ),
            ParseError::IncompleteFrame => String::from_str(
                "file ended unexpectedly while reading atom data",
            ),
            ParseError::IncompleteVelocitySection => String::from_str(
                "file ended unexpectedly while reading velocity section",
            ),
            ParseError::InvalidVectorLength { expected, found } => {
                let mut s = String::from_str("expected ");
                append_decimal(&mut s, *expected);
                s.append(" values on line, found ");
                append_decimal(&mut s, *found);
                s
            },
            ParseError::InvalidNumberFormat(m) => {
                let mut s = String::from_str("invalid number format: ");
                s.append(m.as_str());
                s
            },
        }
    }
}

/// Why no frame could be had from a text.
#[derive(Debug, Clone, PartialEq, Eq)]
pub enum ReadError {
    /// A frame could not be read.
    Parse(ParseError),
    /// The text holds no line at all.
    NoFrames,
}

/// A `ReadError` as a mathematical value.
pub enum ReadErrorView {
    Parse(ErrorView),
    NoFrames,
}

impl View for ReadError {
    type V = ReadErrorView;

    open spec fn view(&self) -> ReadErrorView {
        match self {
            ReadError::Parse(e) => ReadErrorView::Parse(e@),
            ReadError::NoFrames => ReadErrorView::NoFrames,
        }
    }
}

impl ReadError {
    /// The sentence that reports this error.
    pub fn to_string(&self) -> (r: String)
        ensures
            r@ == match self@ {
                ReadErrorView::Parse(e) => error_message(e),
                ReadErrorView::NoFrames => "No frames found in file"@,
            },
    {
        match self {
            ReadError::Parse(e) => e.to_string(),
            ReadError::NoFrames => String::from_str("No frames found in file"),
        }
    }
}

} // verus!
