//! On-disk layout of a `.knot` file. This module is the only place that knows
//! the byte format; everything else goes through `Header`.
//!
//! ```text
//! offset  size  field
//! 0       4     magic "KNOT"
//! 4       1     version
//! 5       1     flags (bit0 = stored/uncompressed)
//! 6       2     filename length N (u16, little-endian)
//! 8       N     original filename (UTF-8, basename only)
//! 8+N     8     original size (u64, little-endian)
//! 16+N    4     CRC32 of the original bytes (u32, little-endian)
//! 20+N    ..    payload (raw bytes if stored, else compressed)
//! ```
use vstd::prelude::*;
use vstd::bytes::{spec_u16_to_le_bytes, spec_u16_from_le_bytes, spec_u32_to_le_bytes, spec_u32_from_le_bytes,
    spec_u64_to_le_bytes, spec_u64_from_le_bytes, u16_to_le_bytes, u16_from_le_bytes, u32_to_le_bytes,
    u32_from_le_bytes, u64_to_le_bytes, u64_from_le_bytes, lemma_auto_spec_u16_to_from_le_bytes,
    lemma_auto_spec_u32_to_from_le_bytes, lemma_auto_spec_u64_to_from_le_bytes};
use vstd::utf8::{valid_utf8, decode_utf8, encode_utf8, encode_utf8_valid_utf8, encode_utf8_decode_utf8};
use vstd::slice::{slice_subrange, slice_to_vec};
use crate::error::{KnotError, Result};

verus! {

/// The magic bytes "KNOT".
pub const MAGIC: [u8; 4] = [0x4B, 0x4E, 0x4F, 0x54];
pub const VERSION: u8 = 1;
pub const FLAG_STORED: u8 = 0b0000_0001;

/// `std::string::FromUtf8Error`, the error of `String::from_utf8`; nothing
/// here looks inside it.
#[verifier::external_type_specification]
#[verifier::external_body]
pub struct ExFromUtf8Error(std::string::FromUtf8Error);

/// A parsed `.knot` header (everything before the payload).
#[derive(Debug, Clone)]
pub struct Header {
    pub version: u8,
    pub flags: u8,
    pub filename: String,
    pub original_size: u64,
    pub crc32: u32,
}

/// A header as plain values: the filename is its characters.
pub struct HeaderView {
    pub version: u8,
    pub flags: u8,
    pub filename: Seq<char>,
    pub original_size: u64,
    pub crc32: u32,
}

impl View for Header {
    type V = HeaderView;

    open spec fn view(&self) -> HeaderView {
        HeaderView {
            version: self.version,
            flags: self.flags,
            filename: self.filename@,
            original_size: self.original_size,
            crc32: self.crc32,
        }
    }
}

/// The filename as stored: its UTF-8 bytes, cut to what the 16-bit length
/// field can count.
pub open spec fn stored_name(name: Seq<char>) -> Seq<u8> {
    let b = encode_utf8(name);
    if b.len() <= 0xFFFF {
        b
    } else {
        b.take(0xFFFF)
    }
}

/// The bytes of a header.
pub open spec fn encode_header(h: HeaderView) -> Seq<u8> {
    let name = stored_name(h.filename);
    MAGIC@ + seq![h.version, h.flags] + spec_u16_to_le_bytes(name.len() as u16) + name
        + spec_u64_to_le_bytes(h.original_size) + spec_u32_to_le_bytes(h.crc32)
}

/// What parsing `data` gives: the header and the payload after it, or the
/// first problem met reading the fields in order. An empty or non-UTF-8
/// filename is a bad filename.
pub open spec fn parse_header(data: Seq<u8>) -> Result<(HeaderView, Seq<u8>)> {
    if data.len() < 4 {
        Err(KnotError::Truncated)
    } else if data.take(4) != MAGIC@ {
        Err(KnotError::BadMagic)
    } else if data.len() < 5 {
        Err(KnotError::Truncated)
    } else if data[4] != VERSION {
        Err(KnotError::UnsupportedVersion(data[4]))
    } else if data.len() < 8 {
        Err(KnotError::Truncated)
    } else {
        let n = spec_u16_from_le_bytes(data.subrange(6, 8)) as int;
        if data.len() < 8 + n {
            Err(KnotError::Truncated)
        } else if n == 0 || !valid_utf8(data.subrange(8, 8 + n)) {
            Err(KnotError::BadFilename)
        } else if data.len() < 20 + n {
            Err(KnotError::Truncated)
        } else {
            Ok((
                HeaderView {
                    version: data[4],
                    flags: data[5],
                    filename: decode_utf8(data.subrange(8, 8 + n)),
                    original_size: spec_u64_from_le_bytes(data.subrange(8 + n, 16 + n)),
                    crc32: spec_u32_from_le_bytes(data.subrange(16 + n, 20 + n)),
                },
                data.skip(20 + n),
            ))
        }
    }
}

/// `String::from_utf8`: the string made of `bytes` when they are valid UTF-8,
/// an error otherwise.
#[verifier::external_body]
fn string_from_utf8(bytes: Vec<u8>) -> (r: core::result::Result<String, std::string::FromUtf8Error>)
    ensures
        match r {
            Ok(s) => encode_utf8(s@) == bytes@,
            Err(_) => !valid_utf8(bytes@),
        },
{
    String::from_utf8(bytes)
}

/// Append `bytes` to `out`.
fn append_bytes(out: &mut Vec<u8>, bytes: &[u8])
    ensures
        final(out)@ == old(out)@ + bytes@,
{
    let ghost start = out@;
    let mut i: usize = 0;
    while i < bytes.len()
        invariant
            i <= bytes@.len(),
            out@ == start + bytes@.take(i as int),
        decreases bytes@.len() - i,
    {
        out.push(bytes[i]);
        proof {
            assert(bytes@.take(i + 1) =~= bytes@.take(i as int).push(bytes@[i as int]));
            assert(out@ =~= start + bytes@.take(i + 1));
        }
        i += 1;
    }
    proof {
        assert(bytes@.take(bytes@.len() as int) =~= bytes@);
    }
}

/// Advance `off` by `n` bytes and return that slice, erroring if `data` ends early.
fn take<'a>(data: &'a [u8], off: &mut usize, n: usize) -> (r: Result<&'a [u8]>)
    ensures
        match r {
            Ok(s) => {
                &&& *old(off) + n <= data@.len()
                &&& s@ == data@.subrange(*old(off) as int, *old(off) + n)
                &&& *final(off) == *old(off) + n
            },
            Err(e) => *old(off) + n > data@.len() && e == KnotError::Truncated && *final(off) == *old(off),
        },
{
    let len = data.len();
    let end = match off.checked_add(n) {
        Some(e) => e,
        None => {
            return Err(KnotError::Truncated);
        },
    };
    if end > len {
        return Err(KnotError::Truncated);
    }
    let slice = slice_subrange(data, *off, end);
    *off = end;
    Ok(slice)
}

impl Header {
    pub fn is_stored(&self) -> (r: bool)
        ensures
            r == (self.flags & FLAG_STORED != 0),
    {
        self.flags & FLAG_STORED != 0
    }

    /// Serialize just the header (the payload is appended separately).
    pub fn to_bytes(&self) -> (out: Vec<u8>)
        ensures
            out@ == encode_header(self@),
    {
        let name = self.filename.as_str().as_bytes();
        // Real filenames are far shorter than 64 KiB, but clamp defensively
        // so the u16 length field can never overflow/lie.
        let name_len = if name.len() < 0xFFFF { name.len() } else { 0xFFFF };

        let mut out: Vec<u8> = Vec::with_capacity(20 + name_len);
        out.push(MAGIC[0]);
        out.push(MAGIC[1]);
        out.push(MAGIC[2]);
        out.push(MAGIC[3]);
        out.push(self.version);
        out.push(self.flags);
        let len_bytes = u16_to_le_bytes(name_len as u16);
        append_bytes(&mut out, len_bytes.as_slice());
        append_bytes(&mut out, slice_subrange(name, 0, name_len));
        let size_bytes = u64_to_le_bytes(self.original_size);
        append_bytes(&mut out, size_bytes.as_slice());
        let crc_bytes = u32_to_le_bytes(self.crc32);
        append_bytes(&mut out, crc_bytes.as_slice());
        proof {
            let b = encode_utf8(self.filename@);
            assert(name@ == b);
            assert(name@.subrange(0, name_len as int) =~= stored_name(self.filename@));
            assert(seq![MAGIC[0], MAGIC[1], MAGIC[2], MAGIC[3]] =~= MAGIC@);
            assert(out@ =~= encode_header(self@));
        }
        out
    }

    /// Parse a header from the front of `data`, returning it plus the payload
    /// slice that follows.
    pub fn parse(data: &[u8]) -> (r: Result<(Header, &[u8])>)
        ensures
            match r {
                Ok((h, payload)) => parse_header(data@) == Ok::<(HeaderView, Seq<u8>), KnotError>((h@, payload@)),
                Err(e) => parse_header(data@) == Err::<(HeaderView, Seq<u8>), KnotError>(e),
            },
    {
        let mut off: usize = 0;

        let magic = match take(data, &mut off, 4) {
            Ok(s) => s,
            Err(e) => {
                return Err(e);
            },
        };
        if !(magic[0] == MAGIC[0] && magic[1] == MAGIC[1] && magic[2] == MAGIC[2] && magic[3] == MAGIC[3]) {
            proof {
                assert(data@.take(4) =~= magic@);
            }
            return Err(KnotError::BadMagic);
        }
        proof {
            assert(data@.take(4) =~= MAGIC@);
        }

        let version = match take(data, &mut off, 1) {
            Ok(s) => s[0],
            Err(e) => {
                return Err(e);
            },
        };
        if version != VERSION {
            return Err(KnotError::UnsupportedVersion(version));
        }

        let flags = match take(data, &mut off, 1) {
            Ok(s) => s[0],
            Err(e) => {
                return Err(e);
            },
        };

        let name_len = match take(data, &mut off, 2) {
            Ok(s) => u16_from_le_bytes(s) as usize,
            Err(e) => {
                return Err(e);
            },
        };
        let name_bytes = match take(data, &mut off, name_len) {
            Ok(s) => s,
            Err(e) => {
                return Err(e);
            },
        };
        if name_len == 0 {
            return Err(KnotError::BadFilename);
        }
        let filename = match string_from_utf8(slice_to_vec(name_bytes)) {
            Ok(s) => s,
            Err(_) => {
                return Err(KnotError::BadFilename);
            },
        };
        proof {
            encode_utf8_valid_utf8(filename@);
            encode_utf8_decode_utf8(filename@);
        }

        let original_size = match take(data, &mut off, 8) {
            Ok(s) => u64_from_le_bytes(s),
            Err(e) => {
                return Err(e);
            },
        };
        let crc32 = match take(data, &mut off, 4) {
            Ok(s) => u32_from_le_bytes(s),
            Err(e) => {
                return Err(e);
            },
        };

        let payload = slice_subrange(data, off, data.len());
        proof {
            assert(payload@ =~= data@.skip(off as int));
        }
        Ok((Header { version, flags, filename, original_size, crc32 }, payload))
    }
}

/// A header whose version is the current one and whose filename is not empty
/// and fits the length field reads back from its bytes, whatever payload follows.
pub proof fn lemma_header_round_trip(h: HeaderView, payload: Seq<u8>)
    requires
        h.version == VERSION,
        0 < encode_utf8(h.filename).len() <= 0xFFFF,
    ensures
        parse_header(encode_header(h) + payload) == Ok::<(HeaderView, Seq<u8>), KnotError>((h, payload)),
{
    lemma_auto_spec_u16_to_from_le_bytes();
    lemma_auto_spec_u32_to_from_le_bytes();
    lemma_auto_spec_u64_to_from_le_bytes();
    encode_utf8_valid_utf8(h.filename);
    encode_utf8_decode_utf8(h.filename);
    let name = stored_name(h.filename);
    let n = name.len() as int;
    let data = encode_header(h) + payload;
    let lb = spec_u16_to_le_bytes(n as u16);
    let sb = spec_u64_to_le_bytes(h.original_size);
    let cb = spec_u32_to_le_bytes(h.crc32);
    assert(data.take(4) =~= MAGIC@);
    assert(data.subrange(6, 8) =~= lb);
    assert(data.subrange(8, 8 + n) =~= name);
    assert(data.subrange(8 + n, 16 + n) =~= sb);
    assert(data.subrange(16 + n, 20 + n) =~= cb);
    assert(data.skip(20 + n) =~= payload);
}

} // verus!
