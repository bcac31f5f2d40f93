//! CRC-32 of the original bytes, as zip and gzip compute it: the IEEE
//! polynomial, bit-reflected, register started at all ones and inverted at
//! the end.
use vstd::prelude::*;

verus! {

/// The reflected IEEE 802.3 polynomial.
pub const CRC32_POLY: u32 = 0xEDB8_8320;

/// One bit step of the register: shift right, folding in the polynomial when
/// a 1 falls out.
pub open spec fn crc_shift(c: u32) -> u32 {
    if c & 1 == 1 {
        (c >> 1u32) ^ CRC32_POLY
    } else {
        c >> 1u32
    }
}

/// `k` bit steps of the register.
pub open spec fn crc_shifts(c: u32, k: nat) -> u32
    decreases k,
{
    if k == 0 {
        c
    } else {
        crc_shift(crc_shifts(c, (k - 1) as nat))
    }
}

/// The register after taking in `data`, starting from `c`: each byte is
/// folded into the low bits, then shifted through.
pub open spec fn crc_update(c: u32, data: Seq<u8>) -> u32
    decreases data.len(),
{
    if data.len() == 0 {
        c
    } else {
        crc_shifts(crc_update(c, data.drop_last()) ^ (data.last() as u32), 8)
    }
}

/// The CRC-32 of `data`.
pub open spec fn crc32_of(data: Seq<u8>) -> u32 {
    crc_update(0xFFFF_FFFF, data) ^ 0xFFFF_FFFF
}

/// The bits of `data` in the order CRC-32 reads them: each byte from its
/// least significant bit to its most significant.
pub open spec fn lsb_first_bits(data: Seq<u8>) -> Seq<bool>
    decreases data.len(),
{
    if data.len() == 0 {
        Seq::empty()
    } else {
        lsb_first_bits(data.drop_last()) + Seq::new(8, |j: int| (data.last() >> (j as u8)) & 1 == 1)
    }
}

/// The CRC-32 shift register fed one message bit at a time: the bit and the
/// register's low bit decide whether the reflected IEEE polynomial
/// `0xEDB88320` is folded in as the register shifts right.
pub open spec fn crc_serial(c: u32, bits: Seq<bool>) -> u32
    decreases bits.len(),
{
    if bits.len() == 0 {
        c
    } else {
        let r = crc_serial(c, bits.drop_last());
        if (r & 1 == 1) != bits.last() {
            (r >> 1u32) ^ 0xEDB8_8320u32
        } else {
            r >> 1u32
        }
    }
}

proof fn lemma_crc_serial_append(c: u32, a: Seq<bool>, b: Seq<bool>)
    ensures
        crc_serial(c, a + b) == crc_serial(crc_serial(c, a), b),
    decreases b.len(),
{
    if b.len() > 0 {
        lemma_crc_serial_append(c, a, b.drop_last());
        assert((a + b).drop_last() =~= a + b.drop_last());
        assert((a + b).last() == b.last());
    } else {
        assert(a + b =~= a);
    }
}

/// Folding a byte into the register and shifting it through is feeding its
/// bits one at a time: after `k` steps the register is the serial one with
/// the byte's remaining bits still folded in.
proof fn lemma_byte_serial(c: u32, b: u8, k: nat)
    requires
        k <= 8,
    ensures
        crc_shifts(c ^ (b as u32), k) == crc_serial(c, Seq::new(8, |j: int| (b >> (j as u8)) & 1 == 1).take(k as int))
            ^ ((b as u32) >> (k as u32)),
    decreases k,
{
    let bits = Seq::new(8, |j: int| (b >> (j as u8)) & 1 == 1);
    if k == 0 {
        assert(bits.take(0) =~= Seq::<bool>::empty());
        assert(((b as u32) >> 0u32) == b as u32) by (bit_vector);
    } else {
        let k1 = (k - 1) as nat;
        lemma_byte_serial(c, b, k1);
        assert(bits.take(k as int).drop_last() =~= bits.take(k1 as int));
        let r = crc_serial(c, bits.take(k1 as int));
        let kk = k1 as u32;
        let bit = bits[k1 as int];
        assert(bit == ((b >> (kk as u8)) & 1 == 1));
        let x = r ^ ((b as u32) >> kk);
        assert(kk < 8);
        assert(crc_shift(x) == (if (r & 1 == 1) != ((b >> (kk as u8)) & 1 == 1) { (r >> 1u32) ^ 0xEDB8_8320u32 } else {
            r >> 1u32
        }) ^ ((b as u32) >> (kk + 1))) by (bit_vector)
            requires
                x == r ^ ((b as u32) >> kk),
                kk < 8,
        ;
    }
}

/// CRC-32 is the standard reflected CRC: the checksum of `data` is the
/// serial shift register, started at all ones, fed every bit of `data`
/// least significant bit first, then inverted.
pub proof fn lemma_crc32_is_serial(data: Seq<u8>)
    ensures
        crc32_of(data) == crc_serial(0xFFFF_FFFF, lsb_first_bits(data)) ^ 0xFFFF_FFFF,
{
    lemma_crc_update_serial(0xFFFF_FFFF, data);
}

proof fn lemma_crc_update_serial(c: u32, data: Seq<u8>)
    ensures
        crc_update(c, data) == crc_serial(c, lsb_first_bits(data)),
    decreases data.len(),
{
    if data.len() > 0 {
        let d = data.drop_last();
        let b = data.last();
        lemma_crc_update_serial(c, d);
        let bits = Seq::new(8, |j: int| (b >> (j as u8)) & 1 == 1);
        lemma_crc_serial_append(c, lsb_first_bits(d), bits);
        let r = crc_update(c, d);
        lemma_byte_serial(r, b, 8);
        assert(bits.take(8) =~= bits);
        assert(((b as u32) >> 8u32) == 0) by (bit_vector);
        let s8 = crc_serial(r, bits);
        assert(s8 ^ 0u32 == s8) by (bit_vector);
        assert(crc_shifts(r ^ (b as u32), 8) == s8);
        assert(lsb_first_bits(data) == lsb_first_bits(d) + bits);
        assert(crc_update(c, data) == crc_shifts(r ^ (b as u32), 8));
    }
}

/// The CRC-32 of `data`.
pub fn crc32(data: &[u8]) -> (c: u32)
    ensures
        c == crc32_of(data@),
{
    let mut crc: u32 = 0xFFFF_FFFF;
    let mut i: usize = 0;
    proof {
        assert(data@.take(0) =~= Seq::<u8>::empty());
    }
    while i < data.len()
        invariant
            i <= data@.len(),
            crc == crc_update(0xFFFF_FFFF, data@.take(i as int)),
        decreases data@.len() - i,
    {
        let start = crc ^ (data[i] as u32);
        let mut c = start;
        let mut k: u32 = 0;
        while k < 8
            invariant
                k <= 8,
                c == crc_shifts(start, k as nat),
            decreases 8 - k,
        {
            c = if c & 1 == 1 {
                (c >> 1u32) ^ CRC32_POLY
            } else {
                c >> 1u32
            };
            k += 1;
        }
        proof {
            assert(data@.take(i + 1).drop_last() =~= data@.take(i as int));
        }
        crc = c;
        i += 1;
    }
    proof {
        assert(data@.take(data@.len() as int) =~= data@);
    }
    crc ^ 0xFFFF_FFFF
}

} // verus!
