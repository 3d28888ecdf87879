//! What can be wrong with a container.

use vstd::prelude::*;

verus! {

/// Why a container, or a stream inside it, cannot be decompressed.
#[derive(Clone, Copy, PartialEq, Eq, Structural, Debug)]
pub enum Error {
    /// The container ends before its payload starts.
    TooShort,
    /// The container does not start with the magic bytes.
    BadMagic,
    /// No engine has this mode byte.
    UnknownMode(u8),
    /// Stored bytes are not as many as the header says.
    RawLength,
    /// The payload ends before its first stream does.
    TruncatedPayload,
    /// A stream ends where a token group is due.
    TruncatedStream,
    /// A stream ends inside a match token.
    TruncatedMatch,
    /// A stream ends where a literal is due.
    TruncatedLiteral,
    /// A match token points before the start of the output.
    BadDistance,
    /// A match token goes on behind the end of the output.
    MatchOverrun,
    /// Bytes are left in a stream whose output is complete.
    TrailingGarbage,
}

/// A result, with the bytes in place of the vector that holds them.
pub open spec fn outcome(r: Result<Vec<u8>, Error>) -> Result<Seq<u8>, Error> {
    match r {
        Ok(v) => Ok(v@),
        Err(e) => Err(e),
    }
}

/// The decimal digit of a number below ten.
pub open spec fn digit(n: int) -> char {
    (48 + n) as char
}

/// The number in decimal digits, without leading zeros.
pub open spec fn decimal(n: nat) -> Seq<char>
    decreases n,
{
    if n < 10 {
        seq![digit(n as int)]
    } else {
        decimal(n / 10).push(digit(n as int % 10))
    }
}

/// The error in words.
pub open spec fn text(e: Error) -> Seq<char> {
    match e {
        Error::TooShort => "file too short to be a .mo container"@,
        Error::BadMagic => "bad magic: not a middleout file"@,
        Error::UnknownMode(m) => "unknown mode byte "@ + decimal(m as nat),
        Error::RawLength => "raw payload length mismatch"@,
        Error::TruncatedPayload => "truncated LZ payload"@,
        Error::TruncatedStream => "truncated LZ stream"@,
        Error::TruncatedMatch => "truncated match token"@,
        Error::TruncatedLiteral => "truncated literal"@,
        Error::BadDistance => "bad match distance"@,
        Error::MatchOverrun => "match overruns output"@,
        Error::TrailingGarbage => "trailing garbage in LZ stream"@,
    }
}

/// The digit as a string.
fn digit_str(n: u8) -> (s: &'static str)
    requires
        n < 10,
    ensures
        s@ == seq![digit(n as int)],
{
    proof {
        reveal_strlit("0");
        reveal_strlit("1");
        reveal_strlit("2");
        reveal_strlit("3");
        reveal_strlit("4");
        reveal_strlit("5");
        reveal_strlit("6");
        reveal_strlit("7");
        reveal_strlit("8");
        reveal_strlit("9");
    }
    match n {
        0 => "0",
        1 => "1",
        2 => "2",
        3 => "3",
        4 => "4",
        5 => "5",
        6 => "6",
        7 => "7",
        8 => "8",
        _ => "9",
    }
}

/// Appends the number in decimal digits.
fn push_decimal(out: &mut String, n: u8)
    ensures
        final(out)@ == old(out)@ + decimal(n as nat),
    decreases n,
{
    if n >= 10 {
        push_decimal(out, n / 10);
    }
    out.append(digit_str(n % 10));
    assert(out@ == old(out)@ + decimal(n as nat));
}

impl Error {
    /// The error in words, as it is shown to the user.
    pub fn message(self) -> (s: String)
        ensures
            s@ == text(self),
    {
        match self {
            Error::TooShort => "file too short to be a .mo container".to_owned(),
            Error::BadMagic => "bad magic: not a middleout file".to_owned(),
            Error::UnknownMode(m) => {
                let mut s: String = "unknown mode byte ".to_owned();
                push_decimal(&mut s, m);
                s
            },
            Error::RawLength => "raw payload length mismatch".to_owned(),
            Error::TruncatedPayload => "truncated LZ payload".to_owned(),
            Error::TruncatedStream => "truncated LZ stream".to_owned(),
            Error::TruncatedMatch => "truncated match token".to_owned(),
            Error::TruncatedLiteral => "truncated literal".to_owned(),
            Error::BadDistance => "bad match distance".to_owned(),
            Error::MatchOverrun => "match overruns output".to_owned(),
            Error::TrailingGarbage => "trailing garbage in LZ stream".to_owned(),
        }
    }
}

} // verus!
