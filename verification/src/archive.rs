//! Tying and untying whole archives: a header carrying the original's name,
//! size and CRC-32, then the compressed payload, or the original bytes
//! verbatim when compression would not make them smaller. Untying checks the
//! size, then the checksum, before handing the bytes back.
use vstd::prelude::*;
use vstd::utf8::encode_utf8;
use vstd::slice::slice_to_vec;
use crate::checksum::{crc32, crc32_of};
use crate::codec::{compress, decompress, unpacked, packs, lemma_cut_payload};
use crate::error::{KnotError, Result};
use crate::format::{Header, HeaderView, encode_header, parse_header, stored_name, VERSION, FLAG_STORED,
    lemma_header_round_trip};
use vstd::bytes::spec_u16_to_le_bytes;

verus! {

/// The header of the archive of `data` under `name`.
pub open spec fn archive_header(name: Seq<char>, data: Seq<u8>, stored: bool) -> HeaderView {
    HeaderView {
        version: VERSION,
        flags: if stored { FLAG_STORED } else { 0 },
        filename: name,
        original_size: data.len() as u64,
        crc32: crc32_of(data),
    }
}

/// An archive: the header, then the payload.
pub open spec fn archive(name: Seq<char>, data: Seq<u8>, payload: Seq<u8>, stored: bool) -> Seq<u8> {
    encode_header(archive_header(name, data, stored)) + payload
}

/// What untying `bytes` gives: the header and the original bytes, or the
/// first problem found: in the header, in the payload, in the size, then in
/// the checksum.
pub open spec fn untied(bytes: Seq<u8>) -> Result<(HeaderView, Seq<u8>)> {
    match parse_header(bytes) {
        Err(e) => Err(e),
        Ok((h, payload)) => {
            let contents = if h.flags & FLAG_STORED != 0 { Ok(payload) } else { unpacked(payload) };
            match contents {
                Err(e) => Err(e),
                Ok(data) => {
                    if data.len() != h.original_size {
                        Err(KnotError::SizeMismatch { expected: h.original_size, actual: data.len() as u64 })
                    } else if crc32_of(data) != h.crc32 {
                        Err(KnotError::ChecksumMismatch { expected: h.crc32, actual: crc32_of(data) })
                    } else {
                        Ok((h, data))
                    }
                },
            }
        },
    }
}

/// Tie `data` into an archive under `filename`. The payload is the
/// compressed bytes (as `compress` lays them out) when they are shorter than
/// `data`, else `data` itself, flagged as stored.
pub fn tie_bytes(filename: String, data: &[u8]) -> (out: Vec<u8>)
    ensures
        exists|packed: Seq<u8>| {
            &&& unpacked(packed) == Ok::<Seq<u8>, KnotError>(data@)
            &&& packs(data@, packed)
            &&& out@ == if packed.len() < data@.len() {
                archive(filename@, data@, packed, false)
            } else {
                archive(filename@, data@, data@, true)
            }
        },
        out@.len() <= 20 + stored_name(filename@).len() + data@.len(),
        0 < encode_utf8(filename@).len() <= 0xFFFF ==> (untied(out@) matches Ok((h, back)) && back == data@
            && h.filename == filename@),
        0 < encode_utf8(filename@).len() <= 0xFFFF ==> forall|k: int| 0 <= k < out@.len()
            ==> untied(#[trigger] out@.take(k)) is Err,
{
    let packed = compress(data);
    let crc = crc32(data);
    let stored = packed.len() >= data.len();
    let header = Header {
        version: VERSION,
        flags: if stored { FLAG_STORED } else { 0 },
        filename,
        original_size: data.len() as u64,
        crc32: crc,
    };
    let mut out = header.to_bytes();
    let ghost head = out@;
    if stored {
        let mut raw = slice_to_vec(data);
        out.append(&mut raw);
    } else {
        let mut body = packed;
        out.append(&mut body);
    }
    proof {
        assert(header@ == archive_header(header.filename@, data@, stored));
        vstd::bytes::lemma_auto_spec_u16_to_from_le_bytes();
        vstd::bytes::lemma_auto_spec_u32_to_from_le_bytes();
        vstd::bytes::lemma_auto_spec_u64_to_from_le_bytes();
        assert(head.len() == 20 + stored_name(header.filename@).len());
        if 0 < encode_utf8(header.filename@).len() <= 0xFFFF {
            let payload = if stored { data@ } else { packed@ };
            lemma_tie_untie(header.filename@, data@, payload, stored);
            assert forall|k: int| 0 <= k < out@.len() implies untied(#[trigger] out@.take(k)) is Err by {
                lemma_cut_archive(header.filename@, data@, payload, stored, k);
            }
        }
    }
    out
}

/// An archive whose payload holds `data` (verbatim when stored, compressed
/// otherwise) unties back to `data`, under the name it was tied with, when
/// that name is not empty and fits the header's length field.
pub proof fn lemma_tie_untie(name: Seq<char>, data: Seq<u8>, payload: Seq<u8>, stored: bool)
    requires
        0 < encode_utf8(name).len() <= 0xFFFF,
        data.len() <= u64::MAX,
        stored ==> payload == data,
        !stored ==> unpacked(payload) == Ok::<Seq<u8>, KnotError>(data),
    ensures
        untied(archive(name, data, payload, stored))
            == Ok::<(HeaderView, Seq<u8>), KnotError>((archive_header(name, data, stored), data)),
{
    let h = archive_header(name, data, stored);
    lemma_header_round_trip(h, payload);
    assert(FLAG_STORED & FLAG_STORED != 0) by (bit_vector);
    assert(0u8 & FLAG_STORED == 0) by (bit_vector);
}

/// Untie an archive: parse its header, recover the original bytes, and check
/// their size and checksum against the header.
pub fn untie_bytes(bytes: &[u8]) -> (r: Result<(Header, Vec<u8>)>)
    ensures
        match r {
            Ok((h, data)) => {
                &&& untied(bytes@) == Ok::<(HeaderView, Seq<u8>), KnotError>((h@, data@))
                &&& data@.len() == h.original_size
                &&& crc32_of(data@) == h.crc32
            },
            Err(e) => untied(bytes@) == Err::<(HeaderView, Seq<u8>), KnotError>(e),
        },
{
    let (header, payload) = match Header::parse(bytes) {
        Ok(parsed) => parsed,
        Err(e) => {
            return Err(e);
        },
    };
    let data = if header.is_stored() {
        slice_to_vec(payload)
    } else {
        match decompress(payload) {
            Ok(d) => d,
            Err(e) => {
                return Err(e);
            },
        }
    };
    if data.len() as u64 != header.original_size {
        return Err(KnotError::SizeMismatch { expected: header.original_size, actual: data.len() as u64 });
    }
    let actual = crc32(data.as_slice());
    if actual != header.crc32 {
        return Err(KnotError::ChecksumMismatch { expected: header.crc32, actual });
    }
    Ok((header, data))
}

/// An archive cut short by at least one byte never unties: a cut header is
/// truncated, a cut compressed payload is truncated, and a cut stored payload
/// has the wrong size.
pub proof fn lemma_cut_archive(name: Seq<char>, data: Seq<u8>, payload: Seq<u8>, stored: bool, k: int)
    requires
        0 < encode_utf8(name).len() <= 0xFFFF,
        data.len() <= u64::MAX,
        stored ==> payload == data,
        !stored ==> packs(data, payload),
        0 <= k < archive(name, data, payload, stored).len(),
    ensures
        untied(archive(name, data, payload, stored).take(k)) is Err,
{
    let h = archive_header(name, data, stored);
    let head = encode_header(h);
    let whole = archive(name, data, payload, stored);
    vstd::bytes::lemma_auto_spec_u16_to_from_le_bytes();
    vstd::bytes::lemma_auto_spec_u32_to_from_le_bytes();
    vstd::bytes::lemma_auto_spec_u64_to_from_le_bytes();
    let n = stored_name(name).len() as int;
    assert(head.len() == 20 + n);
    let cut = whole.take(k);
    if k < 20 + n {
        if k >= 8 {
            assert(cut.subrange(6, 8) =~= head.subrange(6, 8));
            assert(head.subrange(6, 8) =~= spec_u16_to_le_bytes(n as u16));
        }
    } else {
        let rest = payload.take(k - (20 + n));
        assert(cut =~= head + rest);
        lemma_header_round_trip(h, rest);
        assert(FLAG_STORED & FLAG_STORED != 0) by (bit_vector);
        assert(0u8 & FLAG_STORED == 0) by (bit_vector);
        if !stored {
            lemma_cut_payload(data, payload, k - (20 + n));
        }
    }
}

} // verus!
