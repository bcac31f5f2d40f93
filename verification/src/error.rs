//! The error type shared by the whole library.
use vstd::prelude::*;
use crate::format::VERSION;

verus! {

/// `std::io::Error` is carried by [`KnotError::Io`]; nothing in the library
/// looks inside it.
#[verifier::external_type_specification]
#[verifier::external_body]
pub struct ExIoError(std::io::Error);

/// Everything that can go wrong tying or untying a knot.
#[derive(Debug)]
#[allow(inconsistent_fields)]
pub enum KnotError {
    /// An underlying filesystem error (read/write/open).
    Io(std::io::Error),
    /// The file doesn't start with the `KNOT` magic bytes.
    BadMagic,
    /// The file's version byte is one this build doesn't understand.
    UnsupportedVersion(u8),
    /// The file ended before a complete header/payload could be read.
    Truncated,
    /// The stored filename wasn't valid UTF-8 (or was empty).
    BadFilename,
    /// The compressed payload is malformed; the text says how.
    Corrupt(&'static str),
    /// The untied bytes didn't match the checksum recorded at tie time.
    ChecksumMismatch { expected: u32, actual: u32 },
    /// The untied bytes weren't the length recorded at tie time.
    SizeMismatch { expected: u64, actual: u64 },
}

/// Lets `?` turn an `std::io::Error` into a `KnotError`.
impl From<std::io::Error> for KnotError {
    fn from(e: std::io::Error) -> (r: Self) {
        KnotError::Io(e)
    }
}

impl vstd::std_specs::convert::FromSpecImpl<std::io::Error> for KnotError {
    open spec fn obeys_from_spec() -> bool {
        true
    }

    open spec fn from_spec(e: std::io::Error) -> Self {
        KnotError::Io(e)
    }
}

/// Library-wide result alias.
pub type Result<T> = core::result::Result<T, KnotError>;

/// The hexadecimal digits, lower case.
pub open spec fn hex_digits() -> Seq<char> {
    seq!['0', '1', '2', '3', '4', '5', '6', '7', '8', '9', 'a', 'b', 'c', 'd', 'e', 'f']
}

/// `n` in decimal, without leading zeros.
pub open spec fn decimal(n: nat) -> Seq<char>
    decreases n,
{
    if n < 10 {
        seq![hex_digits()[n as int]]
    } else {
        decimal(n / 10).push(hex_digits()[(n % 10) as int])
    }
}

/// The last `k` hexadecimal digits of `n`, zero-padded to `k` digits.
pub open spec fn hex_padded(n: nat, k: nat) -> Seq<char>
    decreases k,
{
    if k == 0 {
        Seq::empty()
    } else {
        hex_padded(n / 16, (k - 1) as nat).push(hex_digits()[(n % 16) as int])
    }
}

/// A 32-bit value as `0x` and eight hexadecimal digits.
pub open spec fn hex32(n: u32) -> Seq<char> {
    "0x"@ + hex_padded(n as nat, 8)
}

/// The message shown for an error other than `Io` (whose text comes from the
/// operating system).
pub open spec fn message_text(e: KnotError) -> Seq<char> {
    match e {
        KnotError::Io(_) => Seq::empty(),
        KnotError::BadMagic => "this doesn't look like a .knot file (bad magic bytes)"@,
        KnotError::UnsupportedVersion(v) => "unsupported .knot version "@ + decimal(v as nat)
            + "; this build understands version "@ + decimal(VERSION as nat),
        KnotError::Truncated => "this knot is frayed: the file is truncated or incomplete"@,
        KnotError::BadFilename => "the stored filename is not valid UTF-8"@,
        KnotError::Corrupt(what) => "this knot is frayed: "@ + what@,
        KnotError::ChecksumMismatch { expected, actual } => "this knot is frayed: checksum mismatch (expected "@
            + hex32(expected) + ", got "@ + hex32(actual) + ")"@,
        KnotError::SizeMismatch { expected, actual } => "this knot is frayed: size mismatch (expected "@
            + decimal(expected as nat) + " bytes, got "@ + decimal(actual as nat) + ")"@,
    }
}

/// The text of `std::io::Error`'s `Display`. Nothing is stated of it: for an
/// operating-system error the text comes from the system and its locale.
#[verifier::external_body]
fn io_error_text(e: &std::io::Error) -> String {
    format!("{e}")
}

/// The digit `d` (below 16) as a one-character string.
fn digit_text(d: u64) -> (s: &'static str)
    requires
        d < 16,
    ensures
        s@ == seq![hex_digits()[d as int]],
{
    let digits = "0123456789abcdef";
    proof {
        reveal_strlit("0123456789abcdef");
        assert(digits@ =~= hex_digits());
    }
    let s = digits.substring_char(d as usize, d as usize + 1);
    proof {
        assert(s@ =~= seq![hex_digits()[d as int]]);
    }
    s
}

/// Appends `n` in decimal.
fn push_decimal(out: &mut String, n: u64)
    ensures
        final(out)@ == old(out)@ + decimal(n as nat),
    decreases n,
{
    if n >= 10 {
        push_decimal(out, n / 10);
    }
    let ghost mid = out@;
    out.append(digit_text(n % 10));
    proof {
        if n >= 10 {
            assert(mid == old(out)@ + decimal((n / 10) as nat));
            assert(out@ =~= old(out)@ + decimal(n as nat));
        } else {
            assert(out@ =~= old(out)@ + decimal(n as nat));
        }
    }
}

/// Appends the last `k` hexadecimal digits of `n`, zero-padded.
fn push_hex(out: &mut String, n: u32, k: u32)
    ensures
        final(out)@ == old(out)@ + hex_padded(n as nat, k as nat),
    decreases k,
{
    if k == 0 {
        proof {
            assert(out@ =~= old(out)@ + hex_padded(n as nat, k as nat));
        }
        return;
    }
    push_hex(out, n / 16, k - 1);
    let ghost mid = out@;
    out.append(digit_text((n % 16) as u64));
    proof {
        assert(mid == old(out)@ + hex_padded((n / 16) as nat, (k - 1) as nat));
        assert(out@ =~= old(out)@ + hex_padded(n as nat, k as nat));
    }
}

impl KnotError {
    /// The message shown to a user for this error: `message_text` for every
    /// variant but `Io`, whose message is the `std::io::Error`'s own text.
    pub fn message(&self) -> (s: String)
        ensures
            !(self is Io) ==> s@ == message_text(*self),
    {
        match self {
            KnotError::Io(e) => io_error_text(e),
            KnotError::BadMagic => String::from_str("this doesn't look like a .knot file (bad magic bytes)"),
            KnotError::UnsupportedVersion(v) => {
                let mut s = String::from_str("unsupported .knot version ");
                push_decimal(&mut s, *v as u64);
                s.append("; this build understands version ");
                push_decimal(&mut s, VERSION as u64);
                s
            },
            KnotError::Truncated => String::from_str("this knot is frayed: the file is truncated or incomplete"),
            KnotError::BadFilename => String::from_str("the stored filename is not valid UTF-8"),
            KnotError::Corrupt(what) => {
                let mut s = String::from_str("this knot is frayed: ");
                s.append(what);
                s
            },
            KnotError::ChecksumMismatch { expected, actual } => {
                let mut s = String::from_str("this knot is frayed: checksum mismatch (expected ");
                s.append("0x");
                push_hex(&mut s, *expected, 8);
                s.append(", got ");
                s.append("0x");
                push_hex(&mut s, *actual, 8);
                s.append(")");
                proof {
                    assert(s@ =~= message_text(*self));
                }
                s
            },
            KnotError::SizeMismatch { expected, actual } => {
                let mut s = String::from_str("this knot is frayed: size mismatch (expected ");
                push_decimal(&mut s, *expected);
                s.append(" bytes, got ");
                push_decimal(&mut s, *actual);
                s.append(")");
                proof {
                    assert(s@ =~= message_text(*self));
                }
                s
            },
        }
    }
}

} // verus!
