//! The compressed-payload codec: LZ77 tokens entropy-coded with two canonical
//! Huffman tables (DEFLATE-style), plus the length/distance "extra bits".
//!
//! Payload layout, a single MSB-first bitstream:
//!   - 286 literal/length code lengths, 4 bits each
//!   -  30 distance      code lengths, 4 bits each
//!   - the token stream: each literal, or a length code (+extra) followed by a
//!     distance code (+extra)
//!   - the end-of-block symbol (256)
//!
//! Because the code lengths are stored, the decoder rebuilds the exact same
//! canonical Huffman tables and replays the tokens.
use vstd::prelude::*;
use vstd::arithmetic::power2::{pow2, lemma2_to64};
use crate::bitio::{BitReader, BitWriter, bits_of, value_of, bits_of_bytes, zero_bits, pad_to_byte,
    lemma_bits_of_len, lemma_value_of_bits, lemma_value_of_bound, lemma_read_back, lemma_bits_of_bytes_append,
    lemma_bits_of_bytes_len, lemma_bits_of_bytes_injective};
use crate::canonical::{Lookup, lookup, canonical_code, lemma_lookup_canonical, lemma_lookup_used, lemma_lookup_cut,
    lemma_max_len_at_most};
use crate::error::{KnotError, Result};
use crate::huffman::{code_lengths, canonical_codes, Decoder, kraft_ok, huffman_lengths,
    lemma_small_alphabet_fits, lemma_num_used_bound, lemma_huffman_lengths_unique};
use crate::lz77::{Token, decoded, token_in_range, lz_parse};
use crate::tables::{LENGTH_BASE, LENGTH_EXTRA, DIST_BASE, DIST_EXTRA, length_index, dist_index,
    lemma_length_table, lemma_dist_table, lemma_length_index_slot, lemma_dist_index_slot};

verus! {

/// 0..=255 literals, 256 = end of block, 257..=285 lengths.
pub const LITLEN_SYMBOLS: usize = 286;
pub const DIST_SYMBOLS: usize = 30;
/// The end-of-block symbol.
pub const EOB: usize = 256;
/// Each stored code length is 0..=15.
pub const CODE_LENGTH_BITS: u8 = 4;

// ---------------------------------------------------------------------------
// The format, read side: what a payload decompresses to.
// ---------------------------------------------------------------------------

/// The first `count` 4-bit code lengths of `bits`.
pub open spec fn read_table(bits: Seq<bool>, count: nat) -> Seq<u8> {
    Seq::new(count, |i: int| value_of(bits.subrange(4 * i, 4 * i + 4)) as u8)
}

/// `ts` in front of the tokens of `r`, or `r`'s error.
pub open spec fn prepend(ts: Seq<Token>, r: Result<Seq<Token>>) -> Result<Seq<Token>> {
    match r {
        Ok(rest) => Ok(ts + rest),
        Err(e) => Err(e),
    }
}

/// Read the rest of a match whose length symbol is `symbol`: the length's
/// extra bits, the distance code and the distance's extra bits. Gives the
/// token and the bits after it.
pub open spec fn parse_match(dl: Seq<u8>, symbol: nat, bits: Seq<bool>) -> Result<(Token, Seq<bool>)> {
    let idx = symbol - 257;
    if idx < 0 || idx >= 29 {
        Err(KnotError::Corrupt("invalid length symbol"))
    } else {
        let lb = LENGTH_EXTRA[idx] as int;
        if bits.len() < lb {
            Err(KnotError::Truncated)
        } else {
            let length = LENGTH_BASE[idx] + value_of(bits.take(lb));
            let r2 = bits.skip(lb);
            match lookup(dl, r2) {
                Lookup::OutOfBits => Err(KnotError::Truncated),
                Lookup::NoCode => Err(KnotError::Corrupt("invalid Huffman code in stream")),
                Lookup::Found { symbol: ds, used: du } => {
                    let r3 = r2.skip(du as int);
                    if ds >= 30 {
                        Err(KnotError::Corrupt("invalid distance symbol"))
                    } else {
                        let db = DIST_EXTRA[ds as int] as int;
                        if r3.len() < db {
                            Err(KnotError::Truncated)
                        } else {
                            let distance = DIST_BASE[ds as int] + value_of(r3.take(db));
                            Ok((Token::Match { length: length as u16, distance: distance as u16 }, r3.skip(db)))
                        }
                    }
                },
            }
        }
    }
}

/// The rest of a match is never longer than the bits it was read from.
pub proof fn lemma_parse_match_shrinks(dl: Seq<u8>, symbol: nat, bits: Seq<bool>)
    ensures
        parse_match(dl, symbol, bits) is Ok ==> parse_match(dl, symbol, bits)->Ok_0.1.len() <= bits.len(),
{
    let idx = symbol - 257;
    if 0 <= idx < 29 {
        let lb = LENGTH_EXTRA[idx] as int;
        if bits.len() >= lb {
            lemma_lookup_used(dl, bits.skip(lb), 1);
        }
    }
}

/// The tokens of a token stream, up to and including its end-of-block symbol,
/// decoded with the literal/length lengths `ll` and the distance lengths `dl`.
pub open spec fn parse_tokens(ll: Seq<u8>, dl: Seq<u8>, bits: Seq<bool>) -> Result<Seq<Token>>
    decreases bits.len(),
{
    match lookup(ll, bits) {
        Lookup::OutOfBits => Err(KnotError::Truncated),
        Lookup::NoCode => Err(KnotError::Corrupt("invalid Huffman code in stream")),
        Lookup::Found { symbol, used } => {
            proof {
                lemma_lookup_used(ll, bits, 1);
            }
            let rest = bits.skip(used as int);
            if symbol == 256 {
                Ok(Seq::empty())
            } else if symbol < 256 {
                prepend(seq![Token::Literal(symbol as u8)], parse_tokens(ll, dl, rest))
            } else {
                match parse_match(dl, symbol, rest) {
                    Err(e) => Err(e),
                    Ok((t, after)) => {
                        proof {
                            lemma_parse_match_shrinks(dl, symbol, rest);
                        }
                        prepend(seq![t], parse_tokens(ll, dl, after))
                    },
                }
            }
        },
    }
}

/// What a payload decompresses to: the bytes its tokens stand for, or the
/// first error met reading it.
pub open spec fn unpacked(payload: Seq<u8>) -> Result<Seq<u8>> {
    let bits = bits_of_bytes(payload);
    if bits.len() < 1264 {
        Err(KnotError::Truncated)
    } else {
        let ll = read_table(bits, 286);
        let dl = read_table(bits.skip(1144), 30);
        match parse_tokens(ll, dl, bits.skip(1264)) {
            Err(e) => Err(e),
            Ok(tokens) => match decoded(tokens) {
                Some(out) => Ok(out),
                None => Err(KnotError::Corrupt("back-reference points outside the window")),
            },
        }
    }
}

// ---------------------------------------------------------------------------
// The format, write side: the bits of a payload.
// ---------------------------------------------------------------------------

/// The canonical code of symbol `s`, in its code length.
pub open spec fn code_bits(lens: Seq<u8>, s: int) -> Seq<bool> {
    bits_of(canonical_code(lens, s), lens[s] as nat)
}

/// The literal/length symbol of a token.
pub open spec fn lit_symbol(t: Token) -> int {
    match t {
        Token::Literal(b) => b as int,
        Token::Match { length, .. } => 257 + length_index(length as int),
    }
}

/// The bits of one token: a literal's code, or a length code and its extra
/// bits followed by a distance code and its extra bits.
pub open spec fn token_bits(ll: Seq<u8>, dl: Seq<u8>, t: Token) -> Seq<bool> {
    match t {
        Token::Literal(b) => code_bits(ll, b as int),
        Token::Match { length, distance } => {
            let li = length_index(length as int);
            let di = dist_index(distance as int);
            code_bits(ll, 257 + li) + bits_of((length - LENGTH_BASE[li]) as nat, LENGTH_EXTRA[li] as nat)
                + code_bits(dl, di) + bits_of((distance - DIST_BASE[di]) as nat, DIST_EXTRA[di] as nat)
        },
    }
}

/// The bits of a token stream.
pub open spec fn tokens_bits(ll: Seq<u8>, dl: Seq<u8>, ts: Seq<Token>) -> Seq<bool>
    decreases ts.len(),
{
    if ts.len() == 0 {
        Seq::empty()
    } else {
        tokens_bits(ll, dl, ts.drop_last()) + token_bits(ll, dl, ts.last())
    }
}

/// A code-length table: each length in 4 bits.
pub open spec fn table_bits(lens: Seq<u8>) -> Seq<bool>
    decreases lens.len(),
{
    if lens.len() == 0 {
        Seq::empty()
    } else {
        table_bits(lens.drop_last()) + bits_of(lens.last() as nat, 4)
    }
}

/// The whole payload bitstream, before padding to a byte: both tables, the
/// tokens and the end-of-block code.
pub open spec fn packed_bits(ll: Seq<u8>, dl: Seq<u8>, ts: Seq<Token>) -> Seq<bool> {
    table_bits(ll) + table_bits(dl) + tokens_bits(ll, dl, ts) + code_bits(ll, 256)
}

/// A token that the tables `ll` and `dl` can encode: in range, and each of its
/// symbols has a code.
pub open spec fn encodable(ll: Seq<u8>, dl: Seq<u8>, t: Token) -> bool {
    &&& token_in_range(t)
    &&& ll[lit_symbol(t)] > 0
    &&& (t matches Token::Match { distance, .. } ==> dl[dist_index(distance as int)] > 0)
}

/// Tables that a payload can carry and that form prefix codes.
pub open spec fn usable_tables(ll: Seq<u8>, dl: Seq<u8>) -> bool {
    &&& ll.len() == 286
    &&& dl.len() == 30
    &&& kraft_ok(ll)
    &&& kraft_ok(dl)
    &&& ll[256] > 0
}

/// `out` is a payload for `data` as `compress` lays it out: the code-length
/// tables built by `code_lengths` from the symbol counts of the greedy parse
/// of `data`, then that parse's tokens and the end-of-block code, padded with
/// zero bits to a whole byte.
pub open spec fn packs(data: Seq<u8>, out: Seq<u8>) -> bool {
    exists|ll: Seq<u8>, dl: Seq<u8>, ts: Seq<Token>| {
        &&& ts == lz_parse(data)
        &&& huffman_lengths(litlen_freqs(ts), ll)
        &&& huffman_lengths(dist_counts(ts), dl)
        &&& usable_tables(ll, dl)
        &&& decoded(ts) == Some(data)
        &&& forall|k: int| 0 <= k < ts.len() ==> encodable(ll, dl, #[trigger] ts[k])
        &&& bits_of_bytes(out) == packed_bits(ll, dl, ts) + zero_bits(pad_to_byte(packed_bits(ll, dl, ts).len()))
    }
}

// ---------------------------------------------------------------------------
// Reading back what was written.
// ---------------------------------------------------------------------------

pub proof fn lemma_prepend_prepend(a: Seq<Token>, b: Seq<Token>, r: Result<Seq<Token>>)
    ensures
        prepend(a, prepend(b, r)) == prepend(a + b, r),
{
    if r is Ok {
        assert(a + (b + r->Ok_0) =~= (a + b) + r->Ok_0);
    }
}

/// A table of lengths below 16 reads back as itself, whatever follows it.
pub proof fn lemma_read_table(lens: Seq<u8>, rest: Seq<bool>)
    requires
        forall|i: int| 0 <= i < lens.len() ==> lens[i] < 16,
    ensures
        table_bits(lens).len() == 4 * lens.len(),
        read_table(table_bits(lens) + rest, lens.len()) == lens,
    decreases lens.len(),
{
    if lens.len() > 0 {
        let t = lens.drop_last();
        let last = lens.last();
        lemma_read_table(t, bits_of(last as nat, 4) + rest);
        lemma_bits_of_len(last as nat, 4);
        let all = table_bits(lens) + rest;
        assert(all =~= table_bits(t) + (bits_of(last as nat, 4) + rest));
        let n = t.len() as int;
        assert(all.subrange(4 * n, 4 * n + 4) =~= bits_of(last as nat, 4));
        lemma_value_of_bits(last as nat, 4);
        lemma2_to64();
        assert(read_table(all, lens.len()) =~= lens) by {
            assert forall|i: int| 0 <= i < lens.len() implies #[trigger] read_table(all, lens.len())[i] == lens[i] by {
                if i < n {
                    assert(read_table(all, lens.len())[i] == read_table(all, t.len())[i]);
                }
            }
        }
    }
}

/// The end-of-block code ends the token stream.
pub proof fn lemma_parse_end(ll: Seq<u8>, dl: Seq<u8>, rest: Seq<bool>)
    requires
        usable_tables(ll, dl),
    ensures
        parse_tokens(ll, dl, code_bits(ll, 256) + rest) == Ok::<Seq<Token>, KnotError>(Seq::empty()),
{
    lemma_lookup_canonical(ll, 256, rest);
}

/// `n` bits holding `x` read back as `x`, leaving what follows them.
proof fn lemma_read_field(x: nat, n: nat, rest: Seq<bool>)
    requires
        x < pow2(n),
    ensures
        (bits_of(x, n) + rest).take(n as int) == bits_of(x, n),
        value_of(bits_of(x, n)) == x,
        (bits_of(x, n) + rest).skip(n as int) == rest,
{
    lemma_read_back(x, n, rest);
    lemma_value_of_bits(x, n);
    vstd::arithmetic::div_mod::lemma_small_mod(x, pow2(n));
}

/// A match length's extra value fits its extra bits.
proof fn lemma_length_extra(length: int)
    requires
        3 <= length <= 258,
    ensures
        0 <= length_index(length) < 29,
        LENGTH_BASE[length_index(length)] <= length,
        length - LENGTH_BASE[length_index(length)] < pow2(LENGTH_EXTRA[length_index(length)] as nat),
{
    lemma_length_index_slot(length);
    lemma_length_table();
    lemma2_to64();
    let li = length_index(length);
    if li < 28 {
        assert(LENGTH_BASE[li + 1] <= LENGTH_BASE[li] + pow2(LENGTH_EXTRA[li] as nat));
    }
}

/// A match distance's extra value fits its extra bits.
proof fn lemma_dist_extra(distance: int)
    requires
        1 <= distance <= 32768,
    ensures
        0 <= dist_index(distance) < 30,
        DIST_BASE[dist_index(distance)] <= distance,
        distance - DIST_BASE[dist_index(distance)] < pow2(DIST_EXTRA[dist_index(distance)] as nat),
{
    lemma_dist_index_slot(distance);
    lemma_dist_table();
    let di = dist_index(distance);
    if di < 29 {
        assert(DIST_BASE[di + 1] == DIST_BASE[di] + pow2(DIST_EXTRA[di] as nat));
    }
}

/// The bits after a match's length code read back as the rest of that match.
proof fn lemma_parse_match_bits(dl: Seq<u8>, length: u16, distance: u16, rest: Seq<bool>)
    requires
        dl.len() == 30,
        kraft_ok(dl),
        3 <= length <= 258,
        1 <= distance <= 32768,
        dl[dist_index(distance as int)] > 0,
    ensures
        ({
            let li = length_index(length as int);
            let di = dist_index(distance as int);
            parse_match(dl, (257 + li) as nat,
                bits_of((length - LENGTH_BASE[li]) as nat, LENGTH_EXTRA[li] as nat)
                + (code_bits(dl, di) + (bits_of((distance - DIST_BASE[di]) as nat, DIST_EXTRA[di] as nat) + rest)))
                == Ok::<(Token, Seq<bool>), KnotError>((Token::Match { length, distance }, rest))
        }),
{
    lemma_length_extra(length as int);
    lemma_dist_extra(distance as int);
    let li = length_index(length as int);
    let di = dist_index(distance as int);
    let lx = (length - LENGTH_BASE[li]) as nat;
    let lb = LENGTH_EXTRA[li] as nat;
    let c = code_bits(dl, di);
    let dx = (distance - DIST_BASE[di]) as nat;
    let db = DIST_EXTRA[di] as nat;
    let d = bits_of(dx, db);
    let b = bits_of(lx, lb);
    let bits = b + (c + (d + rest));
    lemma_read_field(lx, lb, c + (d + rest));
    lemma_bits_of_len(lx, lb);
    assert(value_of(bits.take(lb as int)) == lx);
    let r2 = bits.skip(lb as int);
    assert(r2 == c + (d + rest));
    lemma_lookup_canonical(dl, di, d + rest);
    lemma_bits_of_len(canonical_code(dl, di), dl[di] as nat);
    assert(lookup(dl, r2) == (Lookup::Found { symbol: di as nat, used: dl[di] as nat }));
    let r3 = r2.skip(dl[di] as int);
    assert(r3 =~= d + rest);
    lemma_read_field(dx, db, rest);
    lemma_bits_of_len(dx, db);
    assert(value_of(r3.take(db as int)) == dx);
    assert(r3.skip(db as int) == rest);
    assert((LENGTH_BASE[li] + lx) as u16 == length);
    assert((DIST_BASE[di] + dx) as u16 == distance);
}

/// A token's bits read back as that token, whatever follows them.
pub proof fn lemma_parse_token(ll: Seq<u8>, dl: Seq<u8>, t: Token, rest: Seq<bool>)
    requires
        usable_tables(ll, dl),
        encodable(ll, dl, t),
    ensures
        parse_tokens(ll, dl, token_bits(ll, dl, t) + rest) == prepend(seq![t], parse_tokens(ll, dl, rest)),
{
    let all = token_bits(ll, dl, t) + rest;
    match t {
        Token::Literal(b) => {
            lemma_lookup_canonical(ll, b as int, rest);
            lemma_bits_of_len(canonical_code(ll, b as int), ll[b as int] as nat);
            assert(all.skip(ll[b as int] as int) =~= rest);
        },
        Token::Match { length, distance } => {
            lemma_length_extra(length as int);
            let li = length_index(length as int);
            let di = dist_index(distance as int);
            let ls = 257 + li;
            let a = code_bits(ll, ls);
            let b = bits_of((length - LENGTH_BASE[li]) as nat, LENGTH_EXTRA[li] as nat);
            let c = code_bits(dl, di);
            let d = bits_of((distance - DIST_BASE[di]) as nat, DIST_EXTRA[di] as nat);
            let rest1 = b + (c + (d + rest));
            assert(all =~= a + rest1);
            lemma_lookup_canonical(ll, ls, rest1);
            lemma_bits_of_len(canonical_code(ll, ls), ll[ls] as nat);
            assert(all.skip(ll[ls] as int) =~= rest1);
            lemma_parse_match_bits(dl, length, distance, rest);
        },
    }
}

/// A token stream's bits read back as those tokens, whatever follows them.
pub proof fn lemma_parse_stream(ll: Seq<u8>, dl: Seq<u8>, ts: Seq<Token>, rest: Seq<bool>)
    requires
        usable_tables(ll, dl),
        forall|k: int| 0 <= k < ts.len() ==> encodable(ll, dl, #[trigger] ts[k]),
    ensures
        parse_tokens(ll, dl, tokens_bits(ll, dl, ts) + rest) == prepend(ts, parse_tokens(ll, dl, rest)),
    decreases ts.len(),
{
    if ts.len() == 0 {
        assert(tokens_bits(ll, dl, ts) + rest =~= rest);
        let r = parse_tokens(ll, dl, rest);
        if r is Ok {
            assert(ts + r->Ok_0 =~= r->Ok_0);
        }
    } else {
        let init = ts.drop_last();
        let t = ts.last();
        let tb = token_bits(ll, dl, t);
        assert(encodable(ll, dl, ts[ts.len() - 1]));
        lemma_parse_stream(ll, dl, init, tb + rest);
        lemma_parse_token(ll, dl, t, rest);
        assert(tokens_bits(ll, dl, ts) + rest =~= tokens_bits(ll, dl, init) + (tb + rest));
        lemma_prepend_prepend(init, seq![t], parse_tokens(ll, dl, rest));
        assert(init + seq![t] =~= ts);
    }
}

/// A whole payload bitstream, padded, unpacks to what its tokens stand for.
pub proof fn lemma_unpack_packed(ll: Seq<u8>, dl: Seq<u8>, ts: Seq<Token>, payload: Seq<u8>)
    requires
        usable_tables(ll, dl),
        forall|k: int| 0 <= k < ts.len() ==> encodable(ll, dl, #[trigger] ts[k]),
        bits_of_bytes(payload) == packed_bits(ll, dl, ts) + zero_bits(pad_to_byte(packed_bits(ll, dl, ts).len())),
    ensures
        unpacked(payload) == match decoded(ts) {
            Some(out) => Ok::<Seq<u8>, KnotError>(out),
            None => Err(KnotError::Corrupt("back-reference points outside the window")),
        },
{
    let bits = bits_of_bytes(payload);
    let pad = zero_bits(pad_to_byte(packed_bits(ll, dl, ts).len()));
    let body = tokens_bits(ll, dl, ts);
    let end = code_bits(ll, 256) + pad;
    let tail = table_bits(dl) + body + end;
    assert(bits =~= table_bits(ll) + tail);
    lemma_read_table(ll, tail);
    lemma_read_table(dl, body + end);
    assert(bits.skip(1144) =~= table_bits(dl) + (body + end));
    assert(bits.skip(1264) =~= body + end);
    lemma_parse_stream(ll, dl, ts, end);
    lemma_parse_end(ll, dl, pad);
    assert(ts + Seq::<Token>::empty() =~= ts);
}

// ---------------------------------------------------------------------------
// A payload cut short.
// ---------------------------------------------------------------------------

/// The bits of a token stream, from the front: the first token's, then the rest.
proof fn lemma_tokens_bits_front(ll: Seq<u8>, dl: Seq<u8>, ts: Seq<Token>)
    requires
        ts.len() > 0,
    ensures
        tokens_bits(ll, dl, ts) == token_bits(ll, dl, ts[0]) + tokens_bits(ll, dl, ts.drop_first()),
    decreases ts.len(),
{
    if ts.len() == 1 {
        assert(ts.drop_last() =~= Seq::<Token>::empty());
        assert(ts.drop_first() =~= Seq::<Token>::empty());
        assert(tokens_bits(ll, dl, ts) =~= token_bits(ll, dl, ts[0]) + tokens_bits(ll, dl, ts.drop_first()));
    } else {
        let init = ts.drop_last();
        lemma_tokens_bits_front(ll, dl, init);
        assert(init[0] == ts[0]);
        assert(init.drop_first() =~= ts.drop_first().drop_last());
        assert(ts.drop_first().last() == ts.last());
        assert(tokens_bits(ll, dl, ts) =~= token_bits(ll, dl, ts[0]) + tokens_bits(ll, dl, ts.drop_first()));
    }
}

/// A token's bits cut short read as a truncated stream.
proof fn lemma_parse_token_cut(ll: Seq<u8>, dl: Seq<u8>, t: Token, cut: Seq<bool>)
    requires
        usable_tables(ll, dl),
        encodable(ll, dl, t),
        cut.len() < token_bits(ll, dl, t).len(),
        cut == token_bits(ll, dl, t).take(cut.len() as int),
    ensures
        parse_tokens(ll, dl, cut) == Err::<Seq<Token>, KnotError>(KnotError::Truncated),
{
    match t {
        Token::Literal(b) => {
            lemma_bits_of_len(canonical_code(ll, b as int), ll[b as int] as nat);
            lemma_lookup_cut(ll, b as int, cut);
        },
        Token::Match { length, distance } => {
            lemma_length_extra(length as int);
            lemma_dist_extra(distance as int);
            let li = length_index(length as int);
            let di = dist_index(distance as int);
            let ls = 257 + li;
            let a = code_bits(ll, ls);
            let b = bits_of((length - LENGTH_BASE[li]) as nat, LENGTH_EXTRA[li] as nat);
            let c = code_bits(dl, di);
            let d = bits_of((distance - DIST_BASE[di]) as nat, DIST_EXTRA[di] as nat);
            lemma_bits_of_len(canonical_code(ll, ls), ll[ls] as nat);
            lemma_bits_of_len((length - LENGTH_BASE[li]) as nat, LENGTH_EXTRA[li] as nat);
            lemma_bits_of_len(canonical_code(dl, di), dl[di] as nat);
            lemma_bits_of_len((distance - DIST_BASE[di]) as nat, DIST_EXTRA[di] as nat);
            let full = a + (b + (c + d));
            assert(token_bits(ll, dl, t) =~= full);
            let m = cut.len() as int;
            if m < a.len() {
                assert(cut =~= a.take(m));
                lemma_lookup_cut(ll, ls, cut);
            } else {
                let r1 = cut.skip(a.len() as int);
                assert(cut =~= a + r1);
                lemma_lookup_canonical(ll, ls, r1);
                if r1.len() >= b.len() {
                    let r2 = r1.skip(b.len() as int);
                    if r2.len() < c.len() {
                        assert(r2 =~= c.take(r2.len() as int));
                        lemma_lookup_cut(dl, di, r2);
                    } else {
                        let r3 = r2.skip(c.len() as int);
                        assert(r2 =~= c + r3);
                        lemma_lookup_canonical(dl, di, r3);
                        assert(r3.len() < d.len());
                    }
                }
            }
        },
    }
}

/// A token stream with its end-of-block code, cut short, reads as a
/// truncated stream.
proof fn lemma_parse_stream_cut(ll: Seq<u8>, dl: Seq<u8>, ts: Seq<Token>, cut: Seq<bool>)
    requires
        usable_tables(ll, dl),
        forall|k: int| 0 <= k < ts.len() ==> encodable(ll, dl, #[trigger] ts[k]),
        cut.len() < (tokens_bits(ll, dl, ts) + code_bits(ll, 256)).len(),
        cut == (tokens_bits(ll, dl, ts) + code_bits(ll, 256)).take(cut.len() as int),
    ensures
        parse_tokens(ll, dl, cut) == Err::<Seq<Token>, KnotError>(KnotError::Truncated),
    decreases ts.len(),
{
    if ts.len() == 0 {
        assert(tokens_bits(ll, dl, ts) + code_bits(ll, 256) =~= code_bits(ll, 256));
        lemma_bits_of_len(canonical_code(ll, 256), ll[256] as nat);
        lemma_lookup_cut(ll, 256, cut);
    } else {
        lemma_tokens_bits_front(ll, dl, ts);
        let t = ts[0];
        assert(encodable(ll, dl, ts[0]));
        let tb = token_bits(ll, dl, t);
        let rest = tokens_bits(ll, dl, ts.drop_first()) + code_bits(ll, 256);
        assert(tokens_bits(ll, dl, ts) + code_bits(ll, 256) =~= tb + rest);
        if cut.len() < tb.len() {
            assert(cut =~= tb.take(cut.len() as int));
            lemma_parse_token_cut(ll, dl, t, cut);
        } else {
            let r = cut.skip(tb.len() as int);
            assert(cut =~= tb + r);
            assert(r =~= rest.take(r.len() as int));
            assert forall|k: int| 0 <= k < ts.drop_first().len() implies encodable(ll, dl, #[trigger] ts.drop_first()[k]) by {
                assert(encodable(ll, dl, ts[k + 1]));
            }
            lemma_parse_stream_cut(ll, dl, ts.drop_first(), r);
            lemma_parse_token(ll, dl, t, r);
        }
    }
}

/// What `compress` promises pins its output down: two payloads that both
/// pack the same data are the same bytes.
pub proof fn lemma_packs_unique(data: Seq<u8>, out1: Seq<u8>, out2: Seq<u8>)
    requires
        packs(data, out1),
        packs(data, out2),
    ensures
        out1 == out2,
{
    let (ll1, dl1, ts1) = choose|ll: Seq<u8>, dl: Seq<u8>, ts: Seq<Token>| {
        &&& ts == lz_parse(data)
        &&& huffman_lengths(litlen_freqs(ts), ll)
        &&& huffman_lengths(dist_counts(ts), dl)
        &&& usable_tables(ll, dl)
        &&& decoded(ts) == Some(data)
        &&& forall|k: int| 0 <= k < ts.len() ==> encodable(ll, dl, #[trigger] ts[k])
        &&& bits_of_bytes(out1) == packed_bits(ll, dl, ts) + zero_bits(pad_to_byte(packed_bits(ll, dl, ts).len()))
    };
    let (ll2, dl2, ts2) = choose|ll: Seq<u8>, dl: Seq<u8>, ts: Seq<Token>| {
        &&& ts == lz_parse(data)
        &&& huffman_lengths(litlen_freqs(ts), ll)
        &&& huffman_lengths(dist_counts(ts), dl)
        &&& usable_tables(ll, dl)
        &&& decoded(ts) == Some(data)
        &&& forall|k: int| 0 <= k < ts.len() ==> encodable(ll, dl, #[trigger] ts[k])
        &&& bits_of_bytes(out2) == packed_bits(ll, dl, ts) + zero_bits(pad_to_byte(packed_bits(ll, dl, ts).len()))
    };
    // Both alphabets are far smaller than the 15-bit code space.
    lemma_num_used_bound(litlen_freqs(ts1));
    lemma_num_used_bound(dist_counts(ts1));
    lemma2_to64();
    lemma_huffman_lengths_unique(litlen_freqs(ts1), ll1, ll2);
    lemma_huffman_lengths_unique(dist_counts(ts1), dl1, dl2);
    lemma_bits_of_bytes_injective(out1, out2);
}

/// A compressed payload cut short by at least one byte unpacks to a
/// truncation error: it is never silently read as something else.
pub proof fn lemma_cut_payload(data: Seq<u8>, out: Seq<u8>, k: int)
    requires
        packs(data, out),
        0 <= k < out.len(),
    ensures
        unpacked(out.take(k)) == Err::<Seq<u8>, KnotError>(KnotError::Truncated),
{
    let (ll, dl, ts) = choose|ll: Seq<u8>, dl: Seq<u8>, ts: Seq<Token>| {
        &&& ts == lz_parse(data)
        &&& huffman_lengths(litlen_freqs(ts), ll)
        &&& huffman_lengths(dist_counts(ts), dl)
        &&& usable_tables(ll, dl)
        &&& decoded(ts) == Some(data)
        &&& forall|k: int| 0 <= k < ts.len() ==> encodable(ll, dl, #[trigger] ts[k])
        &&& bits_of_bytes(out) == packed_bits(ll, dl, ts) + zero_bits(pad_to_byte(packed_bits(ll, dl, ts).len()))
    };
    let p = packed_bits(ll, dl, ts);
    let pad = zero_bits(pad_to_byte(p.len()));
    assert(out =~= out.take(k) + out.skip(k));
    lemma_bits_of_bytes_append(out.take(k), out.skip(k));
    lemma_bits_of_bytes_len(out.take(k));
    lemma_bits_of_bytes_len(out);
    let bits = bits_of_bytes(out.take(k));
    assert(bits.len() == 8 * k);
    let whole = bits_of_bytes(out);
    assert(whole == bits + bits_of_bytes(out.skip(k)));
    assert(whole == p + pad);
    assert(8 * out.len() == p.len() + pad.len());
    assert(pad.len() < 8);
    assert(8 * k < p.len());
    assert forall|i: int| 0 <= i < 8 * k implies bits[i] == p[i] by {
        assert(whole[i] == bits[i]);
        assert(whole[i] == p[i]);
    }
    assert(bits =~= p.take(8 * k));
    if bits.len() >= 1264 {
        let body = tokens_bits(ll, dl, ts) + code_bits(ll, 256);
        lemma_read_table(ll, Seq::empty());
        lemma_read_table(dl, Seq::empty());
        let cut = body.take(8 * k - 1264);
        assert(p =~= table_bits(ll) + (table_bits(dl) + body));
        assert(bits =~= table_bits(ll) + (table_bits(dl) + cut));
        lemma_read_table(ll, table_bits(dl) + cut);
        lemma_read_table(dl, cut);
        assert(bits.skip(1144) =~= table_bits(dl) + cut);
        assert(bits.skip(1264) =~= cut);
        lemma_parse_stream_cut(ll, dl, ts, cut);
    }
}

// ---------------------------------------------------------------------------
// Decompression.
// ---------------------------------------------------------------------------

/// Read `count` 4-bit code lengths.
fn read_code_lengths(r: &mut BitReader, count: usize) -> (res: Result<Vec<u8>>)
    requires
        old(r).wf(),
        count <= 286,
    ensures
        match res {
            Ok(lens) => {
                &&& 4 * count <= old(r)@.len()
                &&& lens@ == read_table(old(r)@, count as nat)
                &&& forall|i: int| 0 <= i < count ==> #[trigger] lens@[i] < 16
                &&& final(r).wf()
                &&& final(r)@ == old(r)@.skip(4 * count)
            },
            Err(e) => old(r)@.len() < 4 * count && e == KnotError::Truncated,
        },
{
    let ghost start = r@;
    let mut lens: Vec<u8> = Vec::new();
    let mut i: usize = 0;
    proof {
        assert(start.skip(0) =~= start);
        assert(lens@ =~= read_table(start, 0));
    }
    while i < count
        invariant
            i <= count <= 286,
            start == old(r)@,
            4 * i <= start.len(),
            r.wf(),
            r@ == start.skip(4 * i),
            lens@ == read_table(start, i as nat),
            forall|k: int| 0 <= k < i ==> #[trigger] lens@[k] < 16,
        decreases count - i,
    {
        let v = match r.read_bits(CODE_LENGTH_BITS) {
            Ok(v) => v,
            Err(e) => {
                return Err(e);
            },
        };
        proof {
            let field = start.subrange(4 * i, 4 * i + 4);
            assert(start.skip(4 * i).take(4) =~= field);
            lemma_value_of_bound(field);
            lemma2_to64();
            assert(start.skip(4 * i).skip(4) =~= start.skip(4 * i + 4));
        }
        lens.push(v as u8);
        proof {
            assert(lens@ =~= read_table(start, i as nat + 1));
        }
        i += 1;
    }
    Ok(lens)
}

/// Decompress a payload bitstream back into the original bytes.
#[verifier::loop_isolation(false)]
#[verifier::spinoff_prover]
pub fn decompress(payload: &[u8]) -> (r: Result<Vec<u8>>)
    ensures
        match r {
            Ok(out) => unpacked(payload@) == Ok::<Seq<u8>, KnotError>(out@),
            Err(e) => unpacked(payload@) == Err::<Seq<u8>, KnotError>(e),
        },
{
    let mut r = BitReader::new(payload);
    let ghost bits = r@;
    let litlen_lengths = match read_code_lengths(&mut r, LITLEN_SYMBOLS) {
        Ok(l) => l,
        Err(e) => {
            return Err(e);
        },
    };
    let dist_lengths = match read_code_lengths(&mut r, DIST_SYMBOLS) {
        Ok(l) => l,
        Err(e) => {
            proof {
                assert(bits.skip(1144).len() == bits.len() - 1144);
            }
            return Err(e);
        },
    };
    let ghost ll = litlen_lengths@;
    let ghost dl = dist_lengths@;
    let ghost body = bits.skip(1264);
    proof {
        assert(bits.skip(1144).skip(120) =~= body);
        lemma_small_alphabet_fits(ll);
        lemma_small_alphabet_fits(dl);
        lemma_max_len_at_most(ll, 15);
        lemma_max_len_at_most(dl, 15);
    }
    let litlen_dec = match Decoder::from_lengths(litlen_lengths.as_slice()) {
        Ok(d) => d,
        Err(e) => {
            return Err(e);
        },
    };
    let dist_dec = match Decoder::from_lengths(dist_lengths.as_slice()) {
        Ok(d) => d,
        Err(e) => {
            return Err(e);
        },
    };

    // Rebuild the token stream, then hand it to the LZ77 decoder to expand
    // the back-references.
    let mut tokens: Vec<Token> = Vec::new();
    let mut done = false;
    proof {
        assert(tokens@ + parse_tokens(ll, dl, body)->Ok_0 =~= parse_tokens(ll, dl, body)->Ok_0);
    }
    while !done
        invariant
            r.wf(),
            litlen_dec.wf(),
            dist_dec.wf(),
            litlen_dec.lengths() == ll,
            dist_dec.lengths() == dl,
            done ==> parse_tokens(ll, dl, body) == Ok::<Seq<Token>, KnotError>(tokens@),
            !done ==> parse_tokens(ll, dl, body) == prepend(tokens@, parse_tokens(ll, dl, r@)),
        decreases r@.len(),
    {
        let ghost here = r@;
        let sym = match litlen_dec.read_symbol(&mut r) {
            Ok(s) => s,
            Err(e) => {
                return Err(e);
            },
        };
        proof {
            lemma_lookup_used(ll, here, 1);
        }
        if sym == EOB {
            proof {
                assert(tokens@ + Seq::<Token>::empty() =~= tokens@);
            }
            done = true;
        } else if sym < 256 {
            proof {
                lemma_prepend_prepend(tokens@, seq![Token::Literal(sym as u8)], parse_tokens(ll, dl, r@));
                assert(tokens@ + seq![Token::Literal(sym as u8)] =~= tokens@.push(Token::Literal(sym as u8)));
            }
            tokens.push(Token::Literal(sym as u8));
        } else {
            let ghost rest = r@;
            let idx = sym - 257;
            if idx >= LENGTH_BASE.len() {
                return Err(KnotError::Corrupt("invalid length symbol"));
            }
            proof {
                lemma_length_table();
                lemma2_to64();
                assert(LENGTH_EXTRA[idx as int] <= 5);
            }
            let lbits = LENGTH_EXTRA[idx];
            let lextra: u16 = if lbits > 0 {
                match r.read_bits(lbits) {
                    Ok(v) => {
                        proof {
                            lemma_value_of_bound(rest.take(lbits as int));
                            vstd::arithmetic::power2::lemma_pow2_strictly_increases(lbits as nat, 6);
                        }
                        v as u16
                    },
                    Err(e) => {
                        return Err(e);
                    },
                }
            } else {
                proof {
                    assert(rest.take(0) =~= Seq::<bool>::empty());
                    assert(rest.skip(0) =~= rest);
                }
                0
            };
            let length = LENGTH_BASE[idx] + lextra;
            let ghost r2 = r@;
            let dsym = match dist_dec.read_symbol(&mut r) {
                Ok(s) => s,
                Err(e) => {
                    return Err(e);
                },
            };
            proof {
                lemma_lookup_used(dl, r2, 1);
            }
            if dsym >= DIST_BASE.len() {
                return Err(KnotError::Corrupt("invalid distance symbol"));
            }
            let ghost r3 = r@;
            proof {
                lemma_dist_table();
            }
            let dbits = DIST_EXTRA[dsym];
            let dextra: u16 = if dbits > 0 {
                match r.read_bits(dbits) {
                    Ok(v) => {
                        proof {
                            lemma_value_of_bound(r3.take(dbits as int));
                            if dbits < 13 {
                                vstd::arithmetic::power2::lemma_pow2_strictly_increases(dbits as nat, 13);
                            }
                        }
                        v as u16
                    },
                    Err(e) => {
                        return Err(e);
                    },
                }
            } else {
                proof {
                    assert(r3.take(0) =~= Seq::<bool>::empty());
                    assert(r3.skip(0) =~= r3);
                }
                0
            };
            let distance = DIST_BASE[dsym] + dextra;
            let t = Token::Match { length, distance };
            proof {
                assert(parse_match(dl, sym as nat, rest) == Ok::<(Token, Seq<bool>), KnotError>((t, r@)));
                lemma_prepend_prepend(tokens@, seq![t], parse_tokens(ll, dl, r@));
                assert(tokens@ + seq![t] =~= tokens@.push(t));
            }
            tokens.push(t);
        }
    }
    match crate::lz77::decode(tokens.as_slice()) {
        Ok(out) => Ok(out),
        Err(e) => Err(e),
    }
}

// ---------------------------------------------------------------------------
// Compression.
// ---------------------------------------------------------------------------

/// `x + 1`, staying at `u32::MAX`.
pub open spec fn count_up(x: u32) -> u32 {
    if x == u32::MAX { x } else { (x + 1) as u32 }
}

/// How often each literal/length symbol occurs in `ts` (counts stay at
/// `u32::MAX` once there).
pub open spec fn litlen_counts(ts: Seq<Token>) -> Seq<u32>
    decreases ts.len(),
{
    if ts.len() == 0 {
        Seq::new(LITLEN_SYMBOLS as nat, |s: int| 0u32)
    } else {
        let c = litlen_counts(ts.drop_last());
        let s = lit_symbol(ts.last());
        c.update(s, count_up(c[s]))
    }
}

/// How often each distance symbol occurs in `ts` (counts stay at `u32::MAX`
/// once there).
pub open spec fn dist_counts(ts: Seq<Token>) -> Seq<u32>
    decreases ts.len(),
{
    if ts.len() == 0 {
        Seq::new(DIST_SYMBOLS as nat, |s: int| 0u32)
    } else {
        let c = dist_counts(ts.drop_last());
        match ts.last() {
            Token::Match { distance, .. } => {
                let s = dist_index(distance as int);
                c.update(s, count_up(c[s]))
            },
            Token::Literal(_) => c,
        }
    }
}

/// The number of tokens of `ts` whose literal/length symbol is `s`.
pub open spec fn lit_occurrences(ts: Seq<Token>, s: int) -> nat {
    ts.filter(|t: Token| lit_symbol(t) == s).len()
}

/// The number of matches in `ts` whose distance symbol is `s`.
pub open spec fn dist_occurrences(ts: Seq<Token>, s: int) -> nat {
    ts.filter(|t: Token| t matches Token::Match { distance, .. } && dist_index(distance as int) == s).len()
}

/// The literal/length symbol of a token the payload format can carry is one
/// of the alphabet's.
pub proof fn lemma_lit_symbol_range(t: Token)
    requires
        token_in_range(t),
    ensures
        0 <= lit_symbol(t) < LITLEN_SYMBOLS,
        lit_symbol(t) != EOB,
        t matches Token::Match { distance, .. } ==> 0 <= dist_index(distance as int) < DIST_SYMBOLS,
{
    if let Token::Match { length, distance } = t {
        lemma_length_index_slot(length as int);
        lemma_dist_index_slot(distance as int);
    }
}

/// The literal/length counts count: entry `s` is the number of tokens whose
/// symbol is `s`, held at `u32::MAX` once it gets there.
pub proof fn lemma_litlen_counts_count(ts: Seq<Token>, s: int)
    requires
        0 <= s < LITLEN_SYMBOLS,
        forall|k: int| 0 <= k < ts.len() ==> token_in_range(#[trigger] ts[k]),
    ensures
        litlen_counts(ts).len() == LITLEN_SYMBOLS,
        litlen_counts(ts)[s] == if lit_occurrences(ts, s) < u32::MAX { lit_occurrences(ts, s) } else { u32::MAX as nat },
    decreases ts.len(),
{
    reveal_with_fuel(Seq::filter, 1);
    if ts.len() > 0 {
        let d = ts.drop_last();
        assert forall|k: int| 0 <= k < d.len() implies token_in_range(#[trigger] d[k]) by {
            assert(d[k] == ts[k]);
        }
        assert(token_in_range(ts[ts.len() - 1]));
        lemma_lit_symbol_range(ts.last());
        lemma_litlen_counts_count(d, s);
        lemma_litlen_counts_count(d, lit_symbol(ts.last()));
    }
}

/// The distance counts count: entry `s` is the number of matches whose
/// distance symbol is `s`, held at `u32::MAX` once it gets there.
pub proof fn lemma_dist_counts_count(ts: Seq<Token>, s: int)
    requires
        0 <= s < DIST_SYMBOLS,
        forall|k: int| 0 <= k < ts.len() ==> token_in_range(#[trigger] ts[k]),
    ensures
        dist_counts(ts).len() == DIST_SYMBOLS,
        dist_counts(ts)[s] == if dist_occurrences(ts, s) < u32::MAX { dist_occurrences(ts, s) } else { u32::MAX as nat },
    decreases ts.len(),
{
    reveal_with_fuel(Seq::filter, 1);
    if ts.len() > 0 {
        let d = ts.drop_last();
        assert forall|k: int| 0 <= k < d.len() implies token_in_range(#[trigger] d[k]) by {
            assert(d[k] == ts[k]);
        }
        lemma_dist_counts_count(d, s);
        assert(token_in_range(ts[ts.len() - 1]));
        lemma_lit_symbol_range(ts.last());
        if let Token::Match { distance, .. } = ts.last() {
            lemma_dist_counts_count(d, dist_index(distance as int));
        }
    }
}

/// The literal/length symbols the payload carries for `ts`: one per token,
/// then the end-of-block symbol.
pub open spec fn lit_stream(ts: Seq<Token>) -> Seq<int> {
    ts.map_values(|t: Token| lit_symbol(t)).push(EOB as int)
}

proof fn lemma_mapped_count(ts: Seq<Token>, s: int)
    ensures
        ts.map_values(|t: Token| lit_symbol(t)).filter(|x: int| x == s).len() == lit_occurrences(ts, s),
    decreases ts.len(),
{
    reveal_with_fuel(Seq::filter, 1);
    let f = |t: Token| lit_symbol(t);
    if ts.len() > 0 {
        lemma_mapped_count(ts.drop_last(), s);
        assert(ts.map_values(f).drop_last() =~= ts.drop_last().map_values(f));
        assert(ts.map_values(f).last() == lit_symbol(ts.last()));
    } else {
        assert(ts.map_values(f) =~= Seq::<int>::empty());
    }
}

/// The literal/length frequencies count the symbols of the payload: entry
/// `s` is how often `s` occurs among the tokens' symbols and the one
/// end-of-block symbol, held at `u32::MAX` once it gets there.
pub proof fn lemma_litlen_freqs_count(ts: Seq<Token>, s: int)
    requires
        0 <= s < LITLEN_SYMBOLS,
        forall|k: int| 0 <= k < ts.len() ==> token_in_range(#[trigger] ts[k]),
    ensures
        ({
            let c = lit_stream(ts).filter(|x: int| x == s).len();
            litlen_freqs(ts)[s] == if c < u32::MAX { c } else { u32::MAX as nat }
        }),
{
    reveal_with_fuel(Seq::filter, 1);
    let f = |t: Token| lit_symbol(t);
    let m = ts.map_values(f);
    assert(lit_stream(ts).drop_last() =~= m);
    lemma_mapped_count(ts, s);
    lemma_litlen_counts_count(ts, s);
    if s == EOB {
        // No token carries the end-of-block symbol.
        lemma_mapped_count(ts, EOB as int);
        assert forall|k: int| 0 <= k < m.len() implies m[k] != EOB as int by {
            lemma_lit_symbol_range(ts[k]);
        }
        lemma_filter_none(m, EOB as int);
    }
}

proof fn lemma_filter_none(m: Seq<int>, s: int)
    requires
        forall|k: int| 0 <= k < m.len() ==> m[k] != s,
    ensures
        m.filter(|x: int| x == s).len() == 0,
    decreases m.len(),
{
    reveal_with_fuel(Seq::filter, 1);
    if m.len() > 0 {
        lemma_filter_none(m.drop_last(), s);
    }
}

/// The frequencies the literal/length code is built from: the symbol counts,
/// plus the one end-of-block symbol.
pub open spec fn litlen_freqs(ts: Seq<Token>) -> Seq<u32> {
    litlen_counts(ts).update(EOB as int, 1)
}

/// Every symbol of token `t` has been counted at least once.
spec fn counted(lf: Seq<u32>, df: Seq<u32>, t: Token) -> bool {
    &&& lf[lit_symbol(t)] > 0
    &&& (t matches Token::Match { distance, .. } ==> df[dist_index(distance as int)] > 0)
}

/// Counting more symbols keeps every counted token counted.
proof fn lemma_counted_grows(lf: Seq<u32>, df: Seq<u32>, lf2: Seq<u32>, df2: Seq<u32>, t: Token)
    requires
        counted(lf, df, t),
        lf2.len() == lf.len(),
        df2.len() == df.len(),
        forall|s: int| 0 <= s < lf.len() ==> lf[s] <= #[trigger] lf2[s],
        forall|s: int| 0 <= s < df.len() ==> df[s] <= #[trigger] df2[s],
        0 <= lit_symbol(t) < lf.len(),
        t matches Token::Match { distance, .. } ==> 0 <= dist_index(distance as int) < df.len(),
    ensures
        counted(lf2, df2, t),
{
    assert(lf2[lit_symbol(t)] >= lf[lit_symbol(t)]);
    if let Token::Match { distance, .. } = t {
        assert(df2[dist_index(distance as int)] >= df[dist_index(distance as int)]);
    }
}

/// The symbols of a token in range are in the alphabets.
proof fn lemma_symbols_in_range(t: Token)
    requires
        token_in_range(t),
    ensures
        0 <= lit_symbol(t) < 286,
        lit_symbol(t) != 256,
        t matches Token::Match { distance, .. } ==> 0 <= dist_index(distance as int) < 30,
{
    if let Token::Match { length, distance } = t {
        lemma_length_index_slot(length as int);
        lemma_dist_index_slot(distance as int);
    }
}

/// A vector of `n` zeros.
fn zeros(n: usize) -> (v: Vec<u32>)
    ensures
        v@.len() == n,
        forall|k: int| 0 <= k < n ==> v@[k] == 0,
{
    let mut v: Vec<u32> = Vec::new();
    let mut k: usize = 0;
    while k < n
        invariant
            k <= n,
            v@.len() == k,
            forall|j: int| 0 <= j < k ==> v@[j] == 0,
        decreases n - k,
    {
        v.push(0);
        k += 1;
    }
    v
}

/// Count how often each literal/length symbol and each distance symbol occurs
/// in `tokens`, so Huffman can size the codes. A count that would pass
/// `u32::MAX` stays there.
fn symbol_frequencies(tokens: &[Token]) -> (freqs: (Vec<u32>, Vec<u32>))
    requires
        forall|k: int| 0 <= k < tokens@.len() ==> token_in_range(#[trigger] tokens@[k]),
    ensures
        freqs.0@.len() == LITLEN_SYMBOLS,
        freqs.1@.len() == DIST_SYMBOLS,
        forall|k: int| 0 <= k < tokens@.len() ==> counted(freqs.0@, freqs.1@, #[trigger] tokens@[k]),
        freqs.0@[EOB as int] == 0,
        freqs.0@ == litlen_counts(tokens@),
        freqs.1@ == dist_counts(tokens@),
{
    let mut litlen_freq = zeros(LITLEN_SYMBOLS);
    let mut dist_freq = zeros(DIST_SYMBOLS);
    let mut t: usize = 0;
    proof {
        assert(tokens@.take(0) =~= Seq::<Token>::empty());
        assert(litlen_freq@ =~= litlen_counts(tokens@.take(0)));
        assert(dist_freq@ =~= dist_counts(tokens@.take(0)));
    }
    while t < tokens.len()
        invariant
            t <= tokens@.len(),
            forall|k: int| 0 <= k < tokens@.len() ==> token_in_range(#[trigger] tokens@[k]),
            litlen_freq@.len() == LITLEN_SYMBOLS,
            dist_freq@.len() == DIST_SYMBOLS,
            forall|k: int| 0 <= k < t ==> counted(litlen_freq@, dist_freq@, #[trigger] tokens@[k]),
            litlen_freq@[EOB as int] == 0,
            litlen_freq@ == litlen_counts(tokens@.take(t as int)),
            dist_freq@ == dist_counts(tokens@.take(t as int)),
        decreases tokens@.len() - t,
    {
        let ghost before_l = litlen_freq@;
        let ghost before_d = dist_freq@;
        match tokens[t] {
            Token::Literal(b) => {
                litlen_freq[b as usize] = litlen_freq[b as usize].saturating_add(1);
            },
            Token::Match { length, distance } => {
                proof {
                    assert(token_in_range(tokens@[t as int]));
                }
                let (sym, _, _) = crate::tables::length_code(length);
                litlen_freq[sym] = litlen_freq[sym].saturating_add(1);
                let (dsym, _, _) = crate::tables::distance_code(distance);
                dist_freq[dsym] = dist_freq[dsym].saturating_add(1);
            },
        }
        proof {
            assert(tokens@.take(t + 1).drop_last() =~= tokens@.take(t as int));
            assert(litlen_freq@ =~= litlen_counts(tokens@.take(t + 1)));
            assert(dist_freq@ =~= dist_counts(tokens@.take(t + 1)));
            assert(counted(litlen_freq@, dist_freq@, tokens@[t as int]));
            assert forall|k: int| 0 <= k < t + 1 implies counted(litlen_freq@, dist_freq@, #[trigger] tokens@[k]) by {
                if k < t {
                    lemma_symbols_in_range(tokens@[k]);
                    lemma_counted_grows(before_l, before_d, litlen_freq@, dist_freq@, tokens@[k]);
                }
            }
        }
        t += 1;
    }
    proof {
        assert(tokens@.take(tokens@.len() as int) =~= tokens@);
    }
    (litlen_freq, dist_freq)
}

/// A code from `canonical_codes`, written in its length, is the symbol's code bits.
proof fn lemma_written_code(lens: Seq<u8>, s: int, code: u16)
    requires
        kraft_ok(lens),
        lens.len() <= 0x1_0000,
        0 <= s < lens.len(),
        lens[s] > 0,
        code == (canonical_code(lens, s) % 0x1_0000) as u16,
    ensures
        bits_of(code as u32 as nat, lens[s] as nat) == code_bits(lens, s),
{
    lemma_lookup_canonical(lens, s, Seq::empty());
    lemma2_to64();
    if lens[s] < 15 {
        vstd::arithmetic::power2::lemma_pow2_strictly_increases(lens[s] as nat, 15);
    }
    vstd::arithmetic::div_mod::lemma_small_mod(canonical_code(lens, s), 0x1_0000);
}

/// `codes` is what `canonical_codes` builds from `lens`.
spec fn code_table(lens: Seq<u8>, codes: Seq<(u16, u8)>) -> bool {
    &&& codes.len() == lens.len()
    &&& forall|s: int| 0 <= s < lens.len() ==> #[trigger] codes[s] == if lens[s] == 0 {
        (0u16, 0u8)
    } else {
        ((canonical_code(lens, s) % 0x1_0000) as u16, lens[s])
    }
}

/// Write a code-length table, each length in 4 bits.
fn write_table(w: &mut BitWriter, lens: &Vec<u8>)
    requires
        old(w).wf(),
    ensures
        final(w).wf(),
        final(w)@ == old(w)@ + table_bits(lens@),
{
    let ghost start = w@;
    let mut i: usize = 0;
    proof {
        assert(lens@.take(0) =~= Seq::<u8>::empty());
        assert(start + table_bits(lens@.take(0)) =~= start);
    }
    while i < lens.len()
        invariant
            w.wf(),
            i <= lens@.len(),
            w@ == start + table_bits(lens@.take(i as int)),
        decreases lens@.len() - i,
    {
        w.write_bits(lens[i] as u32, CODE_LENGTH_BITS);
        proof {
            assert(lens@.take(i + 1).drop_last() =~= lens@.take(i as int));
            assert(w@ =~= start + table_bits(lens@.take(i + 1)));
        }
        i += 1;
    }
    proof {
        assert(lens@.take(lens@.len() as int) =~= lens@);
    }
}

/// Write one token: a literal's code, or a match's length code and extra bits
/// then its distance code and extra bits.
fn write_token(w: &mut BitWriter, token: Token, litlen_codes: &Vec<(u16, u8)>, dist_codes: &Vec<(u16, u8)>,
    Ghost(ll): Ghost<Seq<u8>>, Ghost(dl): Ghost<Seq<u8>>)
    requires
        old(w).wf(),
        usable_tables(ll, dl),
        encodable(ll, dl, token),
        code_table(ll, litlen_codes@),
        code_table(dl, dist_codes@),
    ensures
        final(w).wf(),
        final(w)@ == old(w)@ + token_bits(ll, dl, token),
{
    let ghost before = w@;
    proof {
        lemma_symbols_in_range(token);
    }
    match token {
        Token::Literal(b) => {
            let (code, len) = litlen_codes[b as usize];
            proof {
                lemma_written_code(ll, b as int, code);
            }
            w.write_bits(code as u32, len);
        },
        Token::Match { length, distance } => {
            let (sym, lbits, lextra) = crate::tables::length_code(length);
            let (code, len) = litlen_codes[sym];
            proof {
                lemma_written_code(ll, sym as int, code);
                lemma_length_table();
            }
            w.write_bits(code as u32, len);
            if lbits > 0 {
                w.write_bits(lextra as u32, lbits);
            }
            let ghost after_length = w@;
            let (dsym, dbits, dextra) = crate::tables::distance_code(distance);
            let (dcode, dlen) = dist_codes[dsym];
            proof {
                lemma_written_code(dl, dsym as int, dcode);
                lemma_dist_table();
            }
            w.write_bits(dcode as u32, dlen);
            if dbits > 0 {
                w.write_bits(dextra as u32, dbits);
            }
            proof {
                let a = code_bits(ll, sym as int);
                let b = bits_of(lextra as nat, lbits as nat);
                let c = code_bits(dl, dsym as int);
                let d = bits_of(dextra as nat, dbits as nat);
                assert(bits_of(lextra as nat, 0) =~= Seq::<bool>::empty());
                assert(bits_of(dextra as nat, 0) =~= Seq::<bool>::empty());
                assert(after_length =~= before + a + b);
                assert(w@ =~= before + (a + b + c + d));
            }
        },
    }
}

/// Compress `data` into a payload bitstream. The payload unpacks back to
/// `data`; it is laid out as two code-length tables that form prefix codes,
/// built by `code_lengths` from the symbol counts of the greedy LZ77 parse of
/// `data`, then that parse's tokens and the end-of-block code, padded to a
/// whole byte.
#[verifier::spinoff_prover]
pub fn compress(data: &[u8]) -> (out: Vec<u8>)
    ensures
        unpacked(out@) == Ok::<Seq<u8>, KnotError>(data@),
        packs(data@, out@),
{
    let tokens = crate::lz77::encode(data);
    let ghost ts = tokens@;
    let (mut litlen_freq, dist_freq) = symbol_frequencies(tokens.as_slice());
    let ghost counted_freq = litlen_freq@;
    litlen_freq[EOB] = litlen_freq[EOB] + 1; // the stream always ends with one EOB

    let litlen_lengths = code_lengths(litlen_freq.as_slice());
    let dist_lengths = code_lengths(dist_freq.as_slice());
    let ghost ll = litlen_lengths@;
    let ghost dl = dist_lengths@;
    proof {
        lemma_num_used_bound(litlen_freq@);
        lemma_num_used_bound(dist_freq@);
        lemma2_to64();
        lemma_small_alphabet_fits(ll);
        lemma_small_alphabet_fits(dl);
        lemma_max_len_at_most(ll, 15);
        lemma_max_len_at_most(dl, 15);
        assert forall|k: int| 0 <= k < ts.len() implies encodable(ll, dl, #[trigger] ts[k]) by {
            lemma_symbols_in_range(ts[k]);
            assert(counted(counted_freq, dist_freq@, ts[k]));
            lemma_counted_grows(counted_freq, dist_freq@, litlen_freq@, dist_freq@, ts[k]);
        }
    }
    let litlen_codes = canonical_codes(litlen_lengths.as_slice());
    let dist_codes = canonical_codes(dist_lengths.as_slice());

    let mut w = BitWriter::new();

    // Header: the two code-length tables, so the decoder can rebuild the codes.
    write_table(&mut w, &litlen_lengths);
    write_table(&mut w, &dist_lengths);
    proof {
        assert(ts.take(0) =~= Seq::<Token>::empty());
        assert(w@ + tokens_bits(ll, dl, ts.take(0)) =~= w@);
        assert(w@ =~= table_bits(ll) + table_bits(dl));
    }

    // Body: the tokens.
    let mut t: usize = 0;
    while t < tokens.len()
        invariant
            w.wf(),
            t <= ts.len(),
            ts == tokens@,
            usable_tables(ll, dl),
            forall|k: int| 0 <= k < ts.len() ==> encodable(ll, dl, #[trigger] ts[k]),
            code_table(ll, litlen_codes@),
            code_table(dl, dist_codes@),
            w@ == table_bits(ll) + table_bits(dl) + tokens_bits(ll, dl, ts.take(t as int)),
        decreases ts.len() - t,
    {
        proof {
            assert(encodable(ll, dl, ts[t as int]));
            assert(ts.take(t + 1).drop_last() =~= ts.take(t as int));
        }
        write_token(&mut w, tokens[t], &litlen_codes, &dist_codes, Ghost(ll), Ghost(dl));
        t += 1;
    }
    proof {
        assert(ts.take(ts.len() as int) =~= ts);
    }

    // Terminator.
    let (code, len) = litlen_codes[EOB];
    proof {
        lemma_written_code(ll, EOB as int, code);
    }
    w.write_bits(code as u32, len);
    let ghost written = w@;
    let out = w.finish();
    proof {
        assert(written =~= packed_bits(ll, dl, ts));
        assert(bits_of_bytes(out@) == packed_bits(ll, dl, ts) + zero_bits(pad_to_byte(packed_bits(ll, dl, ts).len())));
        lemma_unpack_packed(ll, dl, ts, out@);
        assert(usable_tables(ll, dl));
        assert(decoded(ts) == Some(data@));
        assert(litlen_freq@ =~= litlen_freqs(ts));
        assert(huffman_lengths(litlen_freqs(ts), ll));
        assert(huffman_lengths(dist_counts(ts), dl));
        assert(packs(data@, out@));
    }
    out
}

} // verus!
