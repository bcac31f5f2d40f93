//! Bit-level I/O, most-significant-bit-first.
//!
//! The first bit written becomes the top bit of the first output byte, and the
//! reader consumes bits in that same order. Both sides are specified over the
//! sequence of bits they stand for: a writer *is* the bits written so far, and a
//! reader *is* the bits still to be read.
use vstd::prelude::*;
use vstd::arithmetic::power2::{pow2, lemma_pow2_unfold, lemma_pow2_adds, lemma_pow2_pos, lemma2_to64};
use vstd::arithmetic::div_mod::{lemma_mod_breakdown, lemma_fundamental_div_mod_converse};
use vstd::bits::{low_bits_mask, lemma_u64_shl_is_mul, lemma_u64_shr_is_div, lemma_u64_low_bits_mask_is_mod, lemma_u64_pow2_no_overflow};
use crate::error::{KnotError, Result};

verus! {

// ---------------------------------------------------------------------------
// The mathematical model: sequences of bits.
// ---------------------------------------------------------------------------

/// The `n` low bits of `v`, most significant first.
pub open spec fn bits_of(v: nat, n: nat) -> Seq<bool>
    decreases n,
{
    if n == 0 {
        Seq::empty()
    } else {
        bits_of(v / 2, (n - 1) as nat).push(v % 2 == 1)
    }
}

/// The number whose binary digits, most significant first, are `s`.
pub open spec fn value_of(s: Seq<bool>) -> nat
    decreases s.len(),
{
    if s.len() == 0 {
        0
    } else {
        2 * value_of(s.drop_last()) + if s.last() { 1nat } else { 0nat }
    }
}

/// The bits of a byte string: each byte, most significant bit first.
pub open spec fn bits_of_bytes(b: Seq<u8>) -> Seq<bool>
    decreases b.len(),
{
    if b.len() == 0 {
        Seq::empty()
    } else {
        bits_of_bytes(b.drop_last()) + bits_of(b.last() as nat, 8)
    }
}

/// `n` zero bits.
pub open spec fn zero_bits(n: nat) -> Seq<bool> {
    Seq::new(n, |i: int| false)
}

/// The number of zero bits that complete `n` bits to a whole number of bytes.
pub open spec fn pad_to_byte(n: nat) -> nat {
    ((8 - n % 8) % 8) as nat
}

pub proof fn lemma_bits_of_len(v: nat, n: nat)
    ensures
        #[trigger] bits_of(v, n).len() == n,
    decreases n,
{
    if n > 0 {
        lemma_bits_of_len(v / 2, (n - 1) as nat);
    }
}

pub proof fn lemma_bits_of_bytes_len(b: Seq<u8>)
    ensures
        #[trigger] bits_of_bytes(b).len() == 8 * b.len(),
    decreases b.len(),
{
    if b.len() > 0 {
        lemma_bits_of_bytes_len(b.drop_last());
        lemma_bits_of_len(b.last() as nat, 8);
    }
}

/// Reading back a number written in `n` bits gives it modulo `2^n`.
pub proof fn lemma_value_of_bits(v: nat, n: nat)
    ensures
        #[trigger] value_of(bits_of(v, n)) == v % pow2(n),
    decreases n,
{
    if n == 0 {
        lemma2_to64();
    } else {
        lemma_value_of_bits(v / 2, (n - 1) as nat);
        let s = bits_of(v, n);
        assert(s.drop_last() =~= bits_of(v / 2, (n - 1) as nat));
        lemma_pow2_unfold(n);
        lemma_pow2_pos((n - 1) as nat);
        lemma_mod_breakdown(v as int, 2, pow2((n - 1) as nat) as int);
    }
}

/// A bit sequence is the representation of its own value.
pub proof fn lemma_bits_of_value(s: Seq<bool>)
    ensures
        bits_of(value_of(s), s.len()) == s,
    decreases s.len(),
{
    if s.len() > 0 {
        let t = s.drop_last();
        lemma_bits_of_value(t);
        let v = value_of(s);
        let b: nat = if s.last() { 1 } else { 0 };
        assert(v == 2 * value_of(t) + b);
        assert(v / 2 == value_of(t) && v % 2 == b) by {
            lemma_fundamental_div_mod_converse(v as int, 2, value_of(t) as int, b as int);
        }
        assert(t.push(s.last()) =~= s);
    }
}

/// Reading back what was written: the `n` bits written for `v`, whatever
/// follows them, read as `v mod 2^n` and leave exactly what followed.
pub proof fn lemma_read_back(v: nat, n: nat, rest: Seq<bool>)
    ensures
        (bits_of(v, n) + rest).take(n as int) == bits_of(v, n),
        value_of((bits_of(v, n) + rest).take(n as int)) == v % pow2(n),
        (bits_of(v, n) + rest).skip(n as int) == rest,
{
    lemma_bits_of_len(v, n);
    lemma_value_of_bits(v, n);
    assert((bits_of(v, n) + rest).take(n as int) =~= bits_of(v, n));
    assert((bits_of(v, n) + rest).skip(n as int) =~= rest);
}

/// The value of `n` bits is below `2^n`.
pub proof fn lemma_value_of_bound(s: Seq<bool>)
    ensures
        value_of(s) < pow2(s.len()),
{
    lemma_bits_of_value(s);
    lemma_value_of_bits(value_of(s), s.len());
    lemma_pow2_pos(s.len());
    vstd::arithmetic::div_mod::lemma_mod_pos_bound(value_of(s) as int, pow2(s.len()) as int);
}

/// Only the low `n` bits of `v` are written.
pub proof fn lemma_bits_of_mod(v: nat, n: nat)
    ensures
        bits_of(v % pow2(n), n) == bits_of(v, n),
{
    lemma_value_of_bits(v, n);
    lemma_bits_of_value(bits_of(v, n));
    lemma_bits_of_len(v, n);
}

/// Writing `hi` in `n` bits then `lo` in `m` bits is writing `hi * 2^m + lo` in `n + m` bits.
pub proof fn lemma_bits_of_split(hi: nat, lo: nat, n: nat, m: nat)
    requires
        lo < pow2(m),
    ensures
        bits_of(hi * pow2(m) + lo, n + m) == bits_of(hi, n) + bits_of(lo, m),
    decreases m,
{
    if m == 0 {
        lemma2_to64();
        assert(hi * pow2(m) + lo == hi) by (nonlinear_arith)
            requires
                pow2(m) == 1,
                lo < pow2(m),
        ;
        assert(bits_of(hi, n) + bits_of(lo, m) =~= bits_of(hi, n));
    } else {
        let x = hi * pow2(m) + lo;
        lemma_pow2_unfold(m);
        let p = pow2((m - 1) as nat);
        let q = hi * p;
        assert(x == 2 * q + lo) by (nonlinear_arith)
            requires
                pow2(m) == 2 * p,
                q == hi * p,
                x == hi * pow2(m) + lo,
        ;
        assert(x / 2 == q + lo / 2);
        assert(x % 2 == lo % 2);
        lemma_bits_of_split(hi, lo / 2, n, (m - 1) as nat);
        assert(bits_of(x, n + m) == bits_of(x / 2, (n + m - 1) as nat).push(x % 2 == 1));
        assert((bits_of(hi, n) + bits_of(lo / 2, (m - 1) as nat)).push(lo % 2 == 1)
            =~= bits_of(hi, n) + bits_of(lo, m));
    }
}

/// `n` zero bits are the representation of 0.
pub proof fn lemma_bits_of_zero(n: nat)
    ensures
        bits_of(0, n) == zero_bits(n),
    decreases n,
{
    if n > 0 {
        lemma_bits_of_zero((n - 1) as nat);
        assert(zero_bits((n - 1) as nat).push(false) =~= zero_bits(n));
    }
}

pub proof fn lemma_bits_of_bytes_append(a: Seq<u8>, b: Seq<u8>)
    ensures
        bits_of_bytes(a + b) == bits_of_bytes(a) + bits_of_bytes(b),
    decreases b.len(),
{
    if b.len() == 0 {
        assert(a + b =~= a);
        assert(bits_of_bytes(a) + bits_of_bytes(b) =~= bits_of_bytes(a));
    } else {
        lemma_bits_of_bytes_append(a, b.drop_last());
        assert((a + b).drop_last() =~= a + b.drop_last());
        assert(bits_of_bytes(a) + bits_of_bytes(b.drop_last()) + bits_of(b.last() as nat, 8)
            =~= bits_of_bytes(a) + (bits_of_bytes(b.drop_last()) + bits_of(b.last() as nat, 8)));
    }
}

/// Different byte strings have different bits.
pub proof fn lemma_bits_of_bytes_injective(a: Seq<u8>, b: Seq<u8>)
    requires
        bits_of_bytes(a) == bits_of_bytes(b),
    ensures
        a == b,
    decreases a.len(),
{
    lemma_bits_of_bytes_len(a);
    lemma_bits_of_bytes_len(b);
    if a.len() > 0 {
        let n = 8 * (a.len() - 1);
        lemma_bits_of_bytes_len(a.drop_last());
        lemma_bits_of_bytes_len(b.drop_last());
        lemma_bits_of_len(a.last() as nat, 8);
        lemma_bits_of_len(b.last() as nat, 8);
        let sa = bits_of_bytes(a);
        assert(sa.take(n) =~= bits_of_bytes(a.drop_last()));
        assert(sa.take(n) =~= bits_of_bytes(b.drop_last()));
        assert(sa.skip(n) =~= bits_of(a.last() as nat, 8));
        assert(sa.skip(n) =~= bits_of(b.last() as nat, 8));
        lemma_value_of_bits(a.last() as nat, 8);
        lemma_value_of_bits(b.last() as nat, 8);
        lemma2_to64();
        lemma_bits_of_bytes_injective(a.drop_last(), b.drop_last());
        assert(a =~= a.drop_last().push(a.last()));
        assert(b =~= b.drop_last().push(b.last()));
    } else {
        assert(a =~= b);
    }
}

/// The bits that writing each `(value, count)` pair of `ws` in turn appends.
pub open spec fn bits_of_writes(ws: Seq<(u32, u8)>) -> Seq<bool>
    decreases ws.len(),
{
    if ws.len() == 0 {
        Seq::empty()
    } else {
        bits_of_writes(ws.drop_last()) + bits_of(ws.last().0 as nat, ws.last().1 as nat)
    }
}

/// The bits of two runs of writes are the bits of the first, then the second.
pub proof fn lemma_bits_of_writes_append(a: Seq<(u32, u8)>, b: Seq<(u32, u8)>)
    ensures
        bits_of_writes(a + b) == bits_of_writes(a) + bits_of_writes(b),
    decreases b.len(),
{
    if b.len() == 0 {
        assert(a + b =~= a);
        assert(bits_of_writes(a) + bits_of_writes(b) =~= bits_of_writes(a));
    } else {
        lemma_bits_of_writes_append(a, b.drop_last());
        assert((a + b).drop_last() =~= a + b.drop_last());
        assert((a + b).last() == b.last());
        let last = bits_of(b.last().0 as nat, b.last().1 as nat);
        assert(bits_of_writes(a) + bits_of_writes(b.drop_last()) + last
            =~= bits_of_writes(a) + (bits_of_writes(b.drop_last()) + last));
    }
}

/// The bit-stream round trip. Take the bits of the writes `ws`, followed by
/// anything at all (such as the zero padding that `finish` adds). After the
/// bits of the writes before `i`, the next `ws[i].1` bits read back as the
/// value written there, cut to its low `ws[i].1` bits (all of it, when it fits).
pub proof fn lemma_writes_read_back(ws: Seq<(u32, u8)>, rest: Seq<bool>, i: int)
    requires
        0 <= i < ws.len(),
    ensures
        ({
            let s = (bits_of_writes(ws) + rest).skip(bits_of_writes(ws.take(i)).len() as int);
            &&& value_of(s.take(ws[i].1 as int)) == ws[i].0 as nat % pow2(ws[i].1 as nat)
            &&& s.skip(ws[i].1 as int) == bits_of_writes(ws.skip(i + 1)) + rest
        }),
{
    let (v, n) = ws[i];
    let one = seq![ws[i]];
    assert(ws =~= ws.take(i) + (one + ws.skip(i + 1)));
    lemma_bits_of_writes_append(ws.take(i), one + ws.skip(i + 1));
    lemma_bits_of_writes_append(one, ws.skip(i + 1));
    assert(one.drop_last() =~= Seq::<(u32, u8)>::empty());
    assert(one.last() == (v, n));
    assert(bits_of_writes(Seq::<(u32, u8)>::empty()) =~= Seq::<bool>::empty());
    assert(bits_of_writes(one) == bits_of_writes(one.drop_last()) + bits_of(v as nat, n as nat));
    assert(bits_of_writes(one) =~= bits_of(v as nat, n as nat));
    let before = bits_of_writes(ws.take(i));
    let after = bits_of_writes(ws.skip(i + 1)) + rest;
    assert(bits_of_writes(ws) + rest =~= before + (bits_of(v as nat, n as nat) + after));
    assert((before + (bits_of(v as nat, n as nat) + after)).skip(before.len() as int)
        =~= bits_of(v as nat, n as nat) + after);
    lemma_read_back(v as nat, n as nat, after);
    lemma_bits_of_len(v as nat, n as nat);
}

/// The bits of a byte string starting at byte `pos`.
pub proof fn lemma_bits_of_bytes_skip(b: Seq<u8>, pos: int)
    requires
        0 <= pos < b.len(),
    ensures
        bits_of_bytes(b.skip(pos)) == bits_of(b[pos] as nat, 8) + bits_of_bytes(b.skip(pos + 1)),
{
    let s = b.skip(pos);
    assert(s =~= seq![b[pos]] + b.skip(pos + 1));
    lemma_bits_of_bytes_append(seq![b[pos]], b.skip(pos + 1));
    assert(seq![b[pos]].drop_last() =~= Seq::<u8>::empty());
    assert(bits_of_bytes(Seq::<u8>::empty()) =~= Seq::<bool>::empty());
    assert(seq![b[pos]].last() == b[pos]);
    assert(bits_of_bytes(seq![b[pos]]) =~= bits_of(b[pos] as nat, 8));
}

// ---------------------------------------------------------------------------
// Machine helpers.
// ---------------------------------------------------------------------------

/// `(a << c) | v` adds `v` when `v` fits below the shifted bits.
proof fn lemma_shl_or_is_add(a: u64, v: u64, c: u64)
    requires
        c < 64,
        v < (1u64 << c),
    ensures
        (a << c) | v == (a << c) + v,
{
    assert((a << c) | v == (a << c) + v) by (bit_vector)
        requires
            c < 64,
            v < (1u64 << c),
    ;
}

proof fn lemma_one_shl(c: u64)
    requires
        c < 64,
    ensures
        (1u64 << c) == pow2(c as nat),
{
    lemma_u64_pow2_no_overflow(c as nat);
    lemma_u64_shl_is_mul(1, c);
}

/// Mask of the low `n` bits (handles `n` in `0..=64` and beyond).
fn mask(n: u32) -> (m: u64)
    ensures
        n < 64 ==> m == low_bits_mask(n as nat),
        n >= 64 ==> m == u64::MAX,
{
    if n >= 64 {
        u64::MAX
    } else {
        proof {
            lemma_one_shl(n as u64);
            lemma_pow2_pos(n as nat);
        }
        (1u64 << n) - 1
    }
}

/// `x & mask(n)` is `x mod 2^n`.
proof fn lemma_and_mask(x: u64, n: u32)
    requires
        n < 64,
    ensures
        x & (low_bits_mask(n as nat) as u64) == x as nat % pow2(n as nat),
        x as nat % pow2(n as nat) < pow2(n as nat),
{
    lemma_u64_low_bits_mask_is_mod(x, n as nat);
    lemma_u64_pow2_no_overflow(n as nat);
    lemma_pow2_pos(n as nat);
}

/// Splitting a buffer of `c` bits into its top `k` bits and the rest.
proof fn lemma_split_buffer(buf: u64, c: nat, k: nat)
    requires
        k <= c,
        c < 64,
        buf < pow2(c),
    ensures
        buf as nat / pow2((c - k) as nat) < pow2(k),
        bits_of(buf as nat, c) == bits_of(buf as nat / pow2((c - k) as nat), k)
            + bits_of(buf as nat % pow2((c - k) as nat), (c - k) as nat),
{
    let r = (c - k) as nat;
    lemma_pow2_pos(r);
    lemma_pow2_pos(k);
    let hi = buf as nat / pow2(r);
    let lo = buf as nat % pow2(r);
    vstd::arithmetic::div_mod::lemma_fundamental_div_mod(buf as int, pow2(r) as int);
    assert(buf as int == hi * pow2(r) + lo) by (nonlinear_arith)
        requires
            buf as int == pow2(r) * (buf as int / pow2(r) as int) + (buf as int % pow2(r) as int),
            hi == buf as int / pow2(r) as int,
            lo == buf as int % pow2(r) as int,
    ;
    lemma_pow2_adds(k, r);
    assert(k + r == c);
    assert(hi < pow2(k)) by (nonlinear_arith)
        requires
            buf as int == hi * pow2(r) + lo,
            lo >= 0,
            buf < pow2(k) * pow2(r),
            pow2(r) > 0,
    ;
    vstd::arithmetic::div_mod::lemma_mod_pos_bound(buf as int, pow2(r) as int);
    lemma_bits_of_split(hi, lo, k, r);
    assert(hi * pow2(r) + lo == buf as nat) by (nonlinear_arith)
        requires
            buf as int == hi * pow2(r) + lo,
    ;
}

// ---------------------------------------------------------------------------
// Writer.
// ---------------------------------------------------------------------------

/// Accumulates bits and produces a byte buffer.
pub struct BitWriter {
    bytes: Vec<u8>,
    /// pending bits, held in the low `bitcount` bits
    bitbuf: u64,
    /// how many pending bits are valid
    bitcount: u32,
}

impl View for BitWriter {
    type V = Seq<bool>;

    /// The bits written so far, in order.
    closed spec fn view(&self) -> Seq<bool> {
        bits_of_bytes(self.bytes@) + bits_of(self.bitbuf as nat, self.bitcount as nat)
    }
}

impl BitWriter {
    /// The writer's internal buffer is consistent.
    pub closed spec fn wf(&self) -> bool {
        &&& self.bitcount < 8
        &&& self.bitbuf < pow2(self.bitcount as nat)
    }

    /// An empty writer.
    pub fn new() -> (w: Self)
        ensures
            w.wf(),
            w@ == Seq::<bool>::empty(),
    {
        let w = BitWriter { bytes: Vec::new(), bitbuf: 0, bitcount: 0 };
        proof {
            lemma2_to64();
            assert(w@ =~= Seq::<bool>::empty());
        }
        w
    }

    /// Write the low `count` bits of `value`, most-significant of those first.
    pub fn write_bits(&mut self, value: u32, count: u8)
        requires
            old(self).wf(),
            count <= 32,
        ensures
            final(self).wf(),
            final(self)@ == old(self)@ + bits_of(value as nat, count as nat),
    {
        let ghost target = self@ + bits_of(value as nat, count as nat);
        let count = count as u32;
        let m = mask(count);
        let v = value as u64 & m;
        proof {
            lemma_and_mask(value as u64, count);
            lemma_one_shl(count as u64);
            lemma2_to64();
            let c = self.bitcount as nat;
            lemma_pow2_adds(c, count as nat);
            lemma_u64_pow2_no_overflow(c + count as nat);
            assert(self.bitbuf * pow2(count as nat) < pow2(c) * pow2(count as nat)) by (nonlinear_arith)
                requires
                    self.bitbuf < pow2(c),
                    pow2(count as nat) > 0,
            ;
            lemma_pow2_pos(count as nat);
            lemma_u64_shl_is_mul(self.bitbuf, count as u64);
            lemma_shl_or_is_add(self.bitbuf, v, count as u64);
            lemma_bits_of_split(self.bitbuf as nat, v as nat, c, count as nat);
            lemma_bits_of_mod(value as nat, count as nat);
            assert(self.bitbuf as nat * pow2(count as nat) + v < pow2(c) * pow2(count as nat)) by (nonlinear_arith)
                requires
                    self.bitbuf < pow2(c),
                    v < pow2(count as nat),
            ;
            assert(bits_of_bytes(self.bytes@) + (bits_of(self.bitbuf as nat, c) + bits_of(v as nat, count as nat))
                =~= target);
        }
        self.bitbuf = (self.bitbuf << (count as u64)) | v;
        self.bitcount = self.bitcount + count;
        while self.bitcount >= 8
            invariant
                self.bitcount < 40,
                self.bitbuf < pow2(self.bitcount as nat),
                self@ == target,
            decreases self.bitcount,
        {
            let ghost c = self.bitcount as nat;
            let ghost old_bytes = self.bytes@;
            let ghost old_buf = self.bitbuf;
            self.bitcount = self.bitcount - 8;
            proof {
                lemma_split_buffer(old_buf, c, 8);
                lemma_u64_shr_is_div(old_buf, self.bitcount as u64);
                lemma2_to64();
            }
            let byte = (self.bitbuf >> (self.bitcount as u64)) as u8;
            self.bytes.push(byte);
            let mk = mask(self.bitcount);
            self.bitbuf = self.bitbuf & mk;
            proof {
                lemma_and_mask(old_buf, self.bitcount);
                assert(self.bytes@.drop_last() =~= old_bytes);
                assert(bits_of_bytes(old_bytes) + bits_of(old_buf as nat, c)
                    =~= bits_of_bytes(self.bytes@) + bits_of(self.bitbuf as nat, self.bitcount as nat));
            }
        }
    }

    /// Flush remaining bits (zero-padding the final byte's low end) and return
    /// the finished buffer. Consumes the writer.
    pub fn finish(self) -> (bytes: Vec<u8>)
        requires
            self.wf(),
        ensures
            bits_of_bytes(bytes@) == self@ + zero_bits(pad_to_byte(self@.len())),
    {
        let mut this = self;
        proof {
            lemma_bits_of_bytes_len(this.bytes@);
            lemma_bits_of_len(this.bitbuf as nat, this.bitcount as nat);
            assert((8 * this.bytes@.len() + this.bitcount) % 8 == this.bitcount as nat);
        }
        if this.bitcount > 0 {
            let ghost c = this.bitcount as nat;
            let ghost old_bytes = this.bytes@;
            let ghost old_view = this@;
            let shift = 8 - this.bitcount;
            proof {
                lemma2_to64();
                lemma_pow2_adds(c, shift as nat);
                assert(this.bitbuf * pow2(shift as nat) < pow2(c) * pow2(shift as nat)) by (nonlinear_arith)
                    requires
                        this.bitbuf < pow2(c),
                        pow2(shift as nat) > 0,
                ;
                lemma_pow2_pos(shift as nat);
                lemma_u64_shl_is_mul(this.bitbuf, shift as u64);
                lemma_bits_of_split(this.bitbuf as nat, 0, c, shift as nat);
                lemma_bits_of_zero(shift as nat);
            }
            let byte = (this.bitbuf << (shift as u64)) as u8;
            this.bytes.push(byte);
            this.bitbuf = 0;
            this.bitcount = 0;
            proof {
                assert(this.bytes@.drop_last() =~= old_bytes);
                assert(bits_of_bytes(this.bytes@) =~= old_view + zero_bits(shift as nat));
            }
        } else {
            proof {
                lemma2_to64();
                assert(bits_of(this.bitbuf as nat, 0) =~= Seq::<bool>::empty());
                assert(self@ + zero_bits(0) =~= bits_of_bytes(this.bytes@));
            }
        }
        this.bytes
    }
}

impl Default for BitWriter {
    fn default() -> (w: Self)
        ensures
            w.wf(),
            w@ == Seq::<bool>::empty(),
    {
        Self::new()
    }
}

// ---------------------------------------------------------------------------
// Reader.
// ---------------------------------------------------------------------------

/// Reads bits from a byte slice, most-significant-first.
pub struct BitReader<'a> {
    bytes: &'a [u8],
    pos: usize,
    bitbuf: u64,
    bitcount: u32,
}

impl<'a> View for BitReader<'a> {
    type V = Seq<bool>;

    /// The bits not yet read, in order.
    closed spec fn view(&self) -> Seq<bool> {
        bits_of(self.bitbuf as nat, self.bitcount as nat) + bits_of_bytes(self.bytes@.skip(self.pos as int))
    }
}

impl<'a> BitReader<'a> {
    /// The reader's internal buffer is consistent.
    pub closed spec fn wf(&self) -> bool {
        &&& self.pos <= self.bytes@.len()
        &&& self.bitcount < 40
        &&& self.bitbuf < pow2(self.bitcount as nat)
    }

    /// A reader positioned at the first bit of `bytes`.
    pub fn new(bytes: &'a [u8]) -> (r: Self)
        ensures
            r.wf(),
            r@ == bits_of_bytes(bytes@),
    {
        let r = BitReader { bytes, pos: 0, bitbuf: 0, bitcount: 0 };
        proof {
            lemma2_to64();
            assert(bytes@.skip(0) =~= bytes@);
            assert(r@ =~= bits_of_bytes(bytes@));
        }
        r
    }

    /// Read `count` bits (most-significant first), returned right-aligned in the
    /// result. Errors with `Truncated` if the stream runs out.
    pub fn read_bits(&mut self, count: u8) -> (r: Result<u32>)
        requires
            old(self).wf(),
            count <= 32,
        ensures
            match r {
                Ok(v) => {
                    &&& count <= old(self)@.len()
                    &&& v == value_of(old(self)@.take(count as int))
                    &&& final(self).wf()
                    &&& final(self)@ == old(self)@.skip(count as int)
                },
                Err(e) => {
                    &&& count > old(self)@.len()
                    &&& e == KnotError::Truncated
                    &&& final(self).wf()
                    &&& final(self)@ == old(self)@
                },
            },
    {
        let ghost start = self@;
        let n = count as u32;
        while self.bitcount < n
            invariant
                start == old(self)@,
                n == count,
                self.pos <= self.bytes@.len(),
                self.bitcount < 40,
                n <= 32,
                self.bitbuf < pow2(self.bitcount as nat),
                self@ == start,
            decreases self.bytes@.len() - self.pos,
        {
            if self.pos >= self.bytes.len() {
                proof {
                    assert(self.bytes@.skip(self.pos as int) =~= Seq::<u8>::empty());
                    assert(bits_of_bytes(Seq::<u8>::empty()) =~= Seq::<bool>::empty());
                    lemma_bits_of_len(self.bitbuf as nat, self.bitcount as nat);
                    assert(start =~= bits_of(self.bitbuf as nat, self.bitcount as nat));
                    assert(start.len() < n);
                }
                return Err(KnotError::Truncated);
            }
            let byte = self.bytes[self.pos];
            let ghost c = self.bitcount as nat;
            let ghost old_buf = self.bitbuf;
            let ghost old_pos = self.pos;
            proof {
                lemma2_to64();
                lemma_one_shl(8);
                lemma_pow2_adds(c, 8);
                lemma_u64_pow2_no_overflow(c + 8);
                assert(old_buf * pow2(8) < pow2(c) * pow2(8)) by (nonlinear_arith)
                    requires
                        old_buf < pow2(c),
                        pow2(8) == 256,
                ;
                lemma_u64_shl_is_mul(old_buf, 8);
                lemma_shl_or_is_add(old_buf, byte as u64, 8);
                lemma_bits_of_split(old_buf as nat, byte as nat, c, 8);
                lemma_bits_of_bytes_skip(self.bytes@, self.pos as int);
                assert(old_buf as nat * pow2(8) + byte < pow2(c) * pow2(8)) by (nonlinear_arith)
                    requires
                        old_buf < pow2(c),
                        byte < pow2(8),
                ;
            }
            self.pos = self.pos + 1;
            self.bitbuf = (self.bitbuf << 8u64) | byte as u64;
            self.bitcount = self.bitcount + 8;
            proof {
                assert(bits_of(old_buf as nat, c) + bits_of(byte as nat, 8) + bits_of_bytes(self.bytes@.skip(self.pos as int))
                    =~= bits_of(old_buf as nat, c) + bits_of_bytes(self.bytes@.skip(old_pos as int)));
            }
        }
        let ghost c = self.bitcount as nat;
        let ghost old_buf = self.bitbuf;
        let ghost rest = bits_of_bytes(self.bytes@.skip(self.pos as int));
        self.bitcount = self.bitcount - n;
        proof {
            lemma_split_buffer(old_buf, c, n as nat);
            lemma_u64_shr_is_div(old_buf, self.bitcount as u64);
        }
        let hi = self.bitbuf >> (self.bitcount as u64);
        let mc = mask(n);
        proof {
            lemma_and_mask(hi, n);
            lemma_u64_pow2_no_overflow(n as nat);
            lemma2_to64();
            vstd::arithmetic::power2::lemma_pow2_strictly_increases(n as nat, 33);
        }
        let value = (hi & mc) as u32;
        let mb = mask(self.bitcount);
        self.bitbuf = self.bitbuf & mb;
        proof {
            lemma_and_mask(hi, n);
            lemma_and_mask(old_buf, self.bitcount);
            vstd::arithmetic::div_mod::lemma_small_mod(hi as nat, pow2(n as nat));
            lemma_u64_pow2_no_overflow(n as nat);
            lemma2_to64();
            let top = bits_of(hi as nat, n as nat);
            let low = bits_of(self.bitbuf as nat, self.bitcount as nat);
            lemma_bits_of_len(hi as nat, n as nat);
            assert(start =~= top + (low + rest));
            assert(start.take(n as int) =~= top);
            assert(start.skip(n as int) =~= low + rest);
            lemma_value_of_bits(hi as nat, n as nat);
        }
        Ok(value)
    }
}

} // verus!
