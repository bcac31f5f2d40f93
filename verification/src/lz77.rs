//! LZ77 sliding-window compression: the "dictionary" stage.
//!
//! We scan the input left to right. At each position we look backwards (up to
//! `WINDOW_SIZE` bytes) for the longest run of bytes that repeats what's coming
//! up. A repeat becomes a `Match { length, distance }` back-reference; anything
//! else is emitted as a `Literal`. Decoding just replays those instructions.
//!
//! To find matches fast we keep a hash table keyed on 3-byte sequences. Each
//! bucket is the head of a chain of earlier positions that share that hash,
//! linked through `prev`. We walk the chain (bounded by `MAX_CHAIN_LEN`) and
//! keep the longest match.
use vstd::prelude::*;
use crate::error::{KnotError, Result};

verus! {

/// Largest distance we can point back: the sliding window. Fits in a u16.
pub const WINDOW_SIZE: usize = 32_768;
/// Shortest run worth encoding as a match (below this, literals are cheaper).
pub const MIN_MATCH: usize = 3;
/// Longest single match we encode.
pub const MAX_MATCH: usize = 258;

pub const HASH_BITS: u32 = 15;
/// 2^HASH_BITS buckets.
pub const HASH_SIZE: usize = 32_768;
/// Probe limit per position (speed vs. ratio).
pub const MAX_CHAIN_LEN: usize = 256;
/// Marks an empty bucket or the end of a chain.
pub const NO_POS: usize = usize::MAX;

/// One LZ77 instruction: a raw byte, or "copy `length` bytes from `distance`
/// bytes back."
#[derive(Debug, Clone, Copy, PartialEq, Eq, Structural)]
pub enum Token {
    Literal(u8),
    Match { length: u16, distance: u16 },
}

/// `out` followed by `len` more bytes, each a copy of the byte `dist` places
/// before it. With `dist < len` the copy reads bytes it has just written, which
/// is how a short distance repeats a run.
pub open spec fn copy_back(out: Seq<u8>, dist: nat, len: nat) -> Seq<u8>
    decreases len,
{
    if len == 0 {
        out
    } else {
        let o = copy_back(out, dist, (len - 1) as nat);
        o.push(o[o.len() - dist])
    }
}

/// Replay one token onto the output so far; `None` when a back-reference
/// points before the start of the output (or is zero).
pub open spec fn apply_token(out: Seq<u8>, t: Token) -> Option<Seq<u8>> {
    match t {
        Token::Literal(b) => Some(out.push(b)),
        Token::Match { length, distance } => {
            if distance == 0 || distance > out.len() {
                None
            } else {
                Some(copy_back(out, distance as nat, length as nat))
            }
        },
    }
}

/// The bytes a token stream stands for, or `None` if some back-reference in
/// it points outside the output written so far.
pub open spec fn decoded(tokens: Seq<Token>) -> Option<Seq<u8>>
    decreases tokens.len(),
{
    if tokens.len() == 0 {
        Some(Seq::empty())
    } else {
        match decoded(tokens.drop_last()) {
            Some(out) => apply_token(out, tokens.last()),
            None => None,
        }
    }
}

/// A token the payload format can carry: a literal, or a match of
/// `MIN_MATCH..=MAX_MATCH` bytes from `1..=WINDOW_SIZE` back.
pub open spec fn token_in_range(t: Token) -> bool {
    match t {
        Token::Literal(_) => true,
        Token::Match { length, distance } => MIN_MATCH <= length <= MAX_MATCH && 1 <= distance <= WINDOW_SIZE,
    }
}

/// The bucket of the three bytes `b0 b1 b2`: a Knuth multiplicative hash of
/// their 24-bit value, keeping the top `HASH_BITS` bits of the 32-bit product.
pub open spec fn hash_of(b0: u8, b1: u8, b2: u8) -> nat {
    (((b0 as nat * 0x1_0000 + b1 as nat * 0x100 + b2 as nat) * 0x9E37_79B1) % 0x1_0000_0000) / 0x2_0000
}

/// Decoding a stream with one more token applies that token to what the
/// stream decoded to.
pub proof fn lemma_decoded_push(tokens: Seq<Token>, t: Token)
    ensures
        decoded(tokens.push(t)) == match decoded(tokens) {
            Some(out) => apply_token(out, t),
            None => None,
        },
{
    assert(tokens.push(t).drop_last() =~= tokens);
}

/// Once a prefix fails to decode, the whole stream does.
proof fn lemma_decoded_fails(tokens: Seq<Token>, i: int)
    requires
        0 <= i <= tokens.len(),
        decoded(tokens.take(i)) is None,
    ensures
        decoded(tokens) is None,
    decreases tokens.len() - i,
{
    if i < tokens.len() {
        lemma_decoded_push(tokens.take(i), tokens[i]);
        assert(tokens.take(i).push(tokens[i]) =~= tokens.take(i + 1));
        lemma_decoded_fails(tokens, i + 1);
    } else {
        assert(tokens.take(i) =~= tokens);
    }
}

/// A back-reference to `c` from position `i` that agrees with the next `len`
/// bytes reproduces them.
proof fn lemma_copy_back_repeats(data: Seq<u8>, i: int, c: int, len: nat)
    requires
        0 <= c < i,
        i + len <= data.len(),
        data.subrange(c, c + len) == data.subrange(i, i + len),
    ensures
        copy_back(data.take(i), (i - c) as nat, len) == data.take(i + len),
    decreases len,
{
    if len > 0 {
        let l1 = (len - 1) as nat;
        let a = data.subrange(c, c + len);
        let b = data.subrange(i, i + len);
        assert(data.subrange(c, c + l1) =~= a.take(l1 as int));
        assert(data.subrange(i, i + l1) =~= b.take(l1 as int));
        lemma_copy_back_repeats(data, i, c, l1);
        let o = copy_back(data.take(i), (i - c) as nat, l1);
        assert(a[l1 as int] == b[l1 as int]);
        assert(o[o.len() - (i - c)] == data[c + l1]);
        assert(data[c + l1] == data[i + l1]);
        assert(o.push(data[i + l1]) =~= data.take(i + len));
    }
}

/// The length of the common prefix of `data[a + k..]` and `data[b + k..]`
/// plus `k`, capped at `max`.
pub open spec fn common_from(data: Seq<u8>, a: int, b: int, max: int, k: int) -> int
    decreases max - k,
{
    if k < max && data[a + k] == data[b + k] {
        common_from(data, a, b, max, k + 1)
    } else {
        k
    }
}

/// Below the common prefix, the two sides agree.
proof fn lemma_common_from_agrees(data: Seq<u8>, a: int, b: int, max: int, j: int, k: int)
    requires
        0 <= j <= k,
        k < common_from(data, a, b, max, j),
    ensures
        data[a + k] == data[b + k],
    decreases k - j,
{
    if j < k {
        lemma_common_from_agrees(data, a, b, max, j + 1, k);
    }
}

/// Put position `i` at the head of its hash bucket, linked to the bucket's
/// previous head.
pub open spec fn register(data: Seq<u8>, head: Seq<usize>, prev: Seq<usize>, i: int) -> (Seq<usize>, Seq<usize>) {
    let h = hash_of(data[i], data[i + 1], data[i + 2]) as int;
    (head.update(h, i as usize), prev.update(i, head[h]))
}

/// Register each position of `from..to` that has three bytes ahead of it.
pub open spec fn register_range(data: Seq<u8>, head: Seq<usize>, prev: Seq<usize>, from: int, to: int)
    -> (Seq<usize>, Seq<usize>)
    decreases to - from,
{
    if from >= to {
        (head, prev)
    } else {
        let next = if from + MIN_MATCH <= data.len() { register(data, head, prev, from) } else { (head, prev) };
        register_range(data, next.0, next.1, from + 1, to)
    }
}

/// Walk the hash chain from `candidate` for at most `chain` steps, keeping
/// the longest match for position `i` (the first found among equals, up to
/// `max_len` bytes, starting at `min_pos` or later), starting from the best
/// `(best_len, best_pos)` so far.
pub open spec fn chain_search(data: Seq<u8>, prev: Seq<usize>, i: int, max_len: int, min_pos: int,
    candidate: usize, chain: nat, best_len: int, best_pos: int) -> (int, int)
    decreases chain,
{
    if best_len < max_len && candidate != NO_POS && candidate >= min_pos && chain > 0 {
        let c = candidate as int;
        let len = common_from(data, c, i, max_len, 0);
        let (bl, bp) = if len > best_len { (len, c) } else { (best_len, best_pos) };
        chain_search(data, prev, i, max_len, min_pos, prev[c], (chain - 1) as nat, bl, bp)
    } else {
        (best_len, best_pos)
    }
}

/// A common prefix never passes its cap.
pub proof fn lemma_common_from_le(data: Seq<u8>, a: int, b: int, max: int, k: int)
    requires
        k <= max,
    ensures
        k <= common_from(data, a, b, max, k) <= max,
    decreases max - k,
{
    if k < max && data[a + k] == data[b + k] {
        lemma_common_from_le(data, a, b, max, k + 1);
    }
}

/// The chain search never passes its cap.
pub proof fn lemma_chain_search_le(data: Seq<u8>, prev: Seq<usize>, i: int, max_len: int, min_pos: int,
    candidate: usize, chain: nat, best_len: int, best_pos: int)
    requires
        0 <= best_len <= max_len,
    ensures
        best_len <= chain_search(data, prev, i, max_len, min_pos, candidate, chain, best_len, best_pos).0 <= max_len,
    decreases chain,
{
    if best_len < max_len && candidate != NO_POS && candidate >= min_pos && chain > 0 {
        let c = candidate as int;
        lemma_common_from_le(data, c, i, max_len, 0);
        let len = common_from(data, c, i, max_len, 0);
        let (bl, bp) = if len > best_len { (len, c) } else { (best_len, best_pos) };
        lemma_chain_search_le(data, prev, i, max_len, min_pos, prev[c], (chain - 1) as nat, bl, bp);
    }
}

/// The greedy parse of `data` from position `i`, with the hash chains `head`
/// and `prev` holding the positions registered so far: where fewer than
/// three bytes remain, a literal; else the longest match the chain search
/// finds in the window, if at least three bytes long, after which every
/// position it covers is registered; else a literal, and its position is
/// registered.
pub open spec fn parse_from(data: Seq<u8>, head: Seq<usize>, prev: Seq<usize>, i: int) -> Seq<Token>
    decreases data.len() - i,
{
    let n = data.len() as int;
    if i >= n || i < 0 {
        Seq::empty()
    } else if n - i < MIN_MATCH {
        seq![Token::Literal(data[i])] + parse_from(data, head, prev, i + 1)
    } else {
        let h = hash_of(data[i], data[i + 1], data[i + 2]) as int;
        let max_len = if MAX_MATCH < n - i { MAX_MATCH as int } else { n - i };
        let min_pos = if i >= WINDOW_SIZE { i - WINDOW_SIZE } else { 0 };
        let best = chain_search(data, prev, i, max_len, min_pos, head[h], MAX_CHAIN_LEN as nat, 0, 0);
        if best.0 >= MIN_MATCH {
            proof {
                lemma_chain_search_le(data, prev, i, max_len, min_pos, head[h], MAX_CHAIN_LEN as nat, 0, 0);
            }
            let next = register_range(data, head, prev, i, i + best.0);
            seq![Token::Match { length: best.0 as u16, distance: (i - best.1) as u16 }]
                + parse_from(data, next.0, next.1, i + best.0)
        } else {
            let next = register(data, head, prev, i);
            seq![Token::Literal(data[i])] + parse_from(data, next.0, next.1, i + 1)
        }
    }
}

/// The greedy parse of `data`, starting with empty hash chains.
pub open spec fn lz_parse(data: Seq<u8>) -> Seq<Token> {
    parse_from(data, Seq::new(HASH_SIZE as nat, |k: int| NO_POS), Seq::new(data.len(), |k: int| NO_POS), 0)
}

// ---------------------------------------------------------------------------
// The search finds every repeat the hash chains can reach.
// ---------------------------------------------------------------------------

/// Position `q` has three bytes ahead of it, and they hash to bucket `h`.
pub open spec fn hashes_to(data: Seq<u8>, q: int, h: nat) -> bool {
    &&& 0 <= q
    &&& q + MIN_MATCH <= data.len()
    &&& hash_of(data[q], data[q + 1], data[q + 2]) == h
}

/// How many positions of `lo..hi` hash to bucket `h`.
pub open spec fn hash_count(data: Seq<u8>, h: nat, lo: int, hi: int) -> nat
    decreases hi - lo,
{
    if hi <= lo {
        0
    } else {
        hash_count(data, h, lo, hi - 1) + if hashes_to(data, hi - 1, h) { 1nat } else { 0nat }
    }
}

/// How many bytes token `t` stands for.
pub open spec fn token_len(t: Token) -> nat {
    match t {
        Token::Literal(_) => 1,
        Token::Match { length, .. } => length as nat,
    }
}

/// Where token `k` of `ts` starts in the bytes the stream stands for.
pub open spec fn token_start(ts: Seq<Token>, k: int) -> nat
    decreases k,
{
    if k <= 0 {
        0
    } else {
        token_start(ts, k - 1) + token_len(ts[k - 1])
    }
}

/// The latest position before `j` that hashes to bucket `h`, or `NO_POS`.
spec fn latest(data: Seq<u8>, h: nat, j: int) -> usize
    decreases j,
{
    if j <= 0 {
        NO_POS
    } else if hashes_to(data, j - 1, h) {
        (j - 1) as usize
    } else {
        latest(data, h, j - 1)
    }
}

/// The hash chains hold every position before `i`: each bucket's head is its
/// latest such position, and each position links to the one before it.
spec fn chains_ok(data: Seq<u8>, head: Seq<usize>, prev: Seq<usize>, i: int) -> bool {
    &&& head.len() == HASH_SIZE
    &&& prev.len() == data.len()
    &&& data.len() <= usize::MAX
    &&& 0 <= i <= data.len()
    &&& forall|h: int| 0 <= h < HASH_SIZE ==> #[trigger] head[h] == latest(data, h as nat, i)
    &&& forall|q: int| 0 <= q < i && q + MIN_MATCH <= data.len() ==> #[trigger] prev[q]
        == latest(data, hash_of(data[q], data[q + 1], data[q + 2]), q)
}

proof fn lemma_hash_bound(b0: u8, b1: u8, b2: u8)
    ensures
        hash_of(b0, b1, b2) < HASH_SIZE,
{
    let x = ((b0 as nat * 0x1_0000 + b1 as nat * 0x100 + b2 as nat) * 0x9E37_79B1) % 0x1_0000_0000;
    assert(x < 0x1_0000_0000);
    assert(x / 0x2_0000 < 0x8000);
}

/// What `latest` finds when some position `p < j` hashes to `h`.
proof fn lemma_latest(data: Seq<u8>, h: nat, j: int, p: int)
    requires
        0 <= p < j,
        hashes_to(data, p, h),
        data.len() <= usize::MAX,
    ensures
        p <= latest(data, h, j) < j,
        hashes_to(data, latest(data, h, j) as int, h),
        latest(data, h, j) > p ==> hash_count(data, h, p + 1, j) == hash_count(data, h, p + 1,
            latest(data, h, j) as int) + 1,
    decreases j,
{
    if !hashes_to(data, j - 1, h) {
        lemma_latest(data, h, j - 1, p);
    }
}

/// Walking the chain from the latest position before `j` reaches `p` while
/// fewer than `chain` positions of the same hash lie between them, so the
/// search ends at least as long as the repeat at `p`.
proof fn lemma_walk_finds(data: Seq<u8>, head: Seq<usize>, prev: Seq<usize>, i: int, max_len: int,
    min_pos: int, j: int, chain: nat, best_len: int, best_pos: int, p: int, len: int)
    requires
        chains_ok(data, head, prev, i),
        i + MIN_MATCH <= data.len(),
        j <= i,
        min_pos <= p < j,
        hashes_to(data, p, hash_of(data[i], data[i + 1], data[i + 2])),
        hash_count(data, hash_of(data[i], data[i + 1], data[i + 2]), p + 1, j) < chain,
        0 <= best_len <= max_len,
        len <= max_len,
        0 <= len,
        i + len <= data.len(),
        data.subrange(p, p + len) == data.subrange(i, i + len),
    ensures
        chain_search(data, prev, i, max_len, min_pos, latest(data, hash_of(data[i], data[i + 1], data[i + 2]), j),
            chain, best_len, best_pos).0 >= len,
    decreases chain,
{
    let h = hash_of(data[i], data[i + 1], data[i + 2]);
    let cand = latest(data, h, j);
    lemma_latest(data, h, j, p);
    if best_len < max_len {
        let c = cand as int;
        assert(cand != NO_POS);
        lemma_common_from_le(data, c, i, max_len, 0);
        let lc = common_from(data, c, i, max_len, 0);
        let (bl, bp) = if lc > best_len { (lc, c) } else { (best_len, best_pos) };
        if c == p {
            lemma_common_from_ge(data, p, i, max_len, 0, len);
            lemma_chain_search_le(data, prev, i, max_len, min_pos, prev[c], (chain - 1) as nat, bl, bp);
        } else {
            assert(prev[c] == latest(data, h, c));
            lemma_walk_finds(data, head, prev, i, max_len, min_pos, c, (chain - 1) as nat, bl, bp, p, len);
        }
    }
}

/// Two stretches that agree on their first `len` bytes have a common prefix
/// at least that long.
proof fn lemma_common_from_ge(data: Seq<u8>, a: int, b: int, max: int, k: int, len: int)
    requires
        0 <= k <= len <= max,
        data.subrange(a, a + len) == data.subrange(b, b + len),
        0 <= a,
        0 <= b,
        a + len <= data.len(),
        b + len <= data.len(),
    ensures
        common_from(data, a, b, max, k) >= len,
    decreases max - k,
{
    if k < len {
        let sa = data.subrange(a, a + len);
        let sb = data.subrange(b, b + len);
        assert(sa[k] == data[a + k]);
        assert(sb[k] == data[b + k]);
        assert(sa[k] == sb[k]);
        lemma_common_from_ge(data, a, b, max, k + 1, len);
    } else {
        lemma_common_from_le(data, a, b, max, k);
    }
}

proof fn lemma_register_ok(data: Seq<u8>, head: Seq<usize>, prev: Seq<usize>, i: int)
    requires
        chains_ok(data, head, prev, i),
        i + MIN_MATCH <= data.len(),
    ensures
        chains_ok(data, register(data, head, prev, i).0, register(data, head, prev, i).1, i + 1),
{
    let hi = hash_of(data[i], data[i + 1], data[i + 2]);
    lemma_hash_bound(data[i], data[i + 1], data[i + 2]);
    let (nh, np) = register(data, head, prev, i);
    assert forall|h: int| 0 <= h < HASH_SIZE implies #[trigger] nh[h] == latest(data, h as nat, i + 1) by {}
    assert forall|q: int| 0 <= q < i + 1 && q + MIN_MATCH <= data.len() implies #[trigger] np[q]
        == latest(data, hash_of(data[q], data[q + 1], data[q + 2]), q) by {
        if q < i {
            assert(np[q] == prev[q]);
        } else {
            assert(np[q] == head[hi as int]);
        }
    }
}

proof fn lemma_skip_ok(data: Seq<u8>, head: Seq<usize>, prev: Seq<usize>, i: int)
    requires
        chains_ok(data, head, prev, i),
        i < data.len(),
        i + MIN_MATCH > data.len(),
    ensures
        chains_ok(data, head, prev, i + 1),
{
    assert forall|h: int| 0 <= h < HASH_SIZE implies #[trigger] head[h] == latest(data, h as nat, i + 1) by {}
}

proof fn lemma_register_range_ok(data: Seq<u8>, head: Seq<usize>, prev: Seq<usize>, from: int, to: int)
    requires
        chains_ok(data, head, prev, from),
        from <= to <= data.len(),
    ensures
        chains_ok(data, register_range(data, head, prev, from, to).0, register_range(data, head, prev, from, to).1,
            to),
    decreases to - from,
{
    if from < to {
        if from + MIN_MATCH <= data.len() {
            lemma_register_ok(data, head, prev, from);
            let nx = register(data, head, prev, from);
            lemma_register_range_ok(data, nx.0, nx.1, from + 1, to);
        } else {
            lemma_skip_ok(data, head, prev, from);
            lemma_register_range_ok(data, head, prev, from + 1, to);
        }
    }
}

proof fn lemma_token_start_prepend(t: Token, rest: Seq<Token>, k: int)
    requires
        1 <= k <= rest.len() + 1,
    ensures
        token_start(seq![t] + rest, k) == token_len(t) + token_start(rest, k - 1),
    decreases k,
{
    let ts = seq![t] + rest;
    if k > 1 {
        lemma_token_start_prepend(t, rest, k - 1);
        assert(ts[k - 1] == rest[k - 2]);
        assert(token_start(rest, k - 1) == token_start(rest, k - 2) + token_len(rest[k - 2]));
    } else {
        assert(ts[0] == t);
        assert(token_start(ts, 0) == 0);
        assert(token_start(rest, 0) == 0);
    }
}

/// The parse from position `i0`, with chains holding every earlier position,
/// finds the repeats that the law below describes.
proof fn lemma_parse_from_finds(data: Seq<u8>, head: Seq<usize>, prev: Seq<usize>, i0: int, k: int, p: int,
    len: int)
    requires
        chains_ok(data, head, prev, i0),
        0 <= k < parse_from(data, head, prev, i0).len(),
        ({
            let i = i0 + token_start(parse_from(data, head, prev, i0), k);
            &&& 0 <= p < i
            &&& i - p <= WINDOW_SIZE
            &&& MIN_MATCH <= len <= MAX_MATCH
            &&& i + len <= data.len()
            &&& data.subrange(p, p + len) == data.subrange(i, i + len)
            &&& hash_count(data, hash_of(data[i], data[i + 1], data[i + 2]), p + 1, i) < MAX_CHAIN_LEN
        }),
    ensures
        parse_from(data, head, prev, i0)[k] matches Token::Match { length, .. } && length >= len,
    decreases data.len() - i0,
{
    let n = data.len() as int;
    let ts = parse_from(data, head, prev, i0);
    if n - i0 < MIN_MATCH {
        let rest = parse_from(data, head, prev, i0 + 1);
        assert(ts == seq![Token::Literal(data[i0])] + rest);
        if k == 0 {
            assert(token_start(ts, 0) == 0);
        } else {
            lemma_token_start_prepend(Token::Literal(data[i0]), rest, k);
            lemma_skip_ok(data, head, prev, i0);
            assert(ts[k] == rest[k - 1]);
            lemma_parse_from_finds(data, head, prev, i0 + 1, k - 1, p, len);
        }
    } else {
        let h = hash_of(data[i0], data[i0 + 1], data[i0 + 2]);
        lemma_hash_bound(data[i0], data[i0 + 1], data[i0 + 2]);
        let max_len = if MAX_MATCH < n - i0 { MAX_MATCH as int } else { n - i0 };
        let min_pos = if i0 >= WINDOW_SIZE { i0 - WINDOW_SIZE } else { 0 };
        let best = chain_search(data, prev, i0, max_len, min_pos, head[h as int], MAX_CHAIN_LEN as nat, 0, 0);
        lemma_chain_search_le(data, prev, i0, max_len, min_pos, head[h as int], MAX_CHAIN_LEN as nat, 0, 0);
        if k == 0 {
            assert(token_start(ts, 0) == 0);
            assert(data.subrange(p, p + 3) =~= data.subrange(p, p + len).take(3));
            assert(data.subrange(i0, i0 + 3) =~= data.subrange(i0, i0 + len).take(3));
            assert(data[p] == data.subrange(p, p + 3)[0]);
            assert(data[p + 1] == data.subrange(p, p + 3)[1]);
            assert(data[p + 2] == data.subrange(p, p + 3)[2]);
            assert(data[i0] == data.subrange(i0, i0 + 3)[0]);
            assert(data[i0 + 1] == data.subrange(i0, i0 + 3)[1]);
            assert(data[i0 + 2] == data.subrange(i0, i0 + 3)[2]);
            lemma_walk_finds(data, head, prev, i0, max_len, min_pos, i0, MAX_CHAIN_LEN as nat, 0, 0, p, len);
        } else if best.0 >= MIN_MATCH {
            let next = register_range(data, head, prev, i0, i0 + best.0);
            let t = Token::Match { length: best.0 as u16, distance: (i0 - best.1) as u16 };
            let rest = parse_from(data, next.0, next.1, i0 + best.0);
            assert(ts == seq![t] + rest);
            lemma_token_start_prepend(t, rest, k);
            lemma_register_range_ok(data, head, prev, i0, i0 + best.0);
            assert(ts[k] == rest[k - 1]);
            lemma_parse_from_finds(data, next.0, next.1, i0 + best.0, k - 1, p, len);
        } else {
            let next = register(data, head, prev, i0);
            let rest = parse_from(data, next.0, next.1, i0 + 1);
            assert(ts == seq![Token::Literal(data[i0])] + rest);
            lemma_token_start_prepend(Token::Literal(data[i0]), rest, k);
            lemma_register_ok(data, head, prev, i0);
            assert(ts[k] == rest[k - 1]);
            lemma_parse_from_finds(data, next.0, next.1, i0 + 1, k - 1, p, len);
        }
    }
}

/// Where a match token at position `i` copies from: the position `i - distance`,
/// reached by the chain search, repeating the next `length` bytes, with no
/// reachable position closer to `i` repeating them.
pub open spec fn match_source_ok(data: Seq<u8>, i: int, length: int, distance: int) -> bool {
    let p0 = i - distance;
    let h = hash_of(data[i], data[i + 1], data[i + 2]);
    &&& 1 <= distance <= 32768
    &&& 3 <= length <= 258
    &&& 0 <= p0
    &&& i + length <= data.len()
    &&& hash_count(data, h, p0 + 1, i) < 256
    &&& data.subrange(p0, p0 + length) == data.subrange(i, i + length)
    &&& forall|p: int| p0 < p < i && hash_count(data, h, p + 1, i) < 256
        ==> #[trigger] data.subrange(p, p + length) != data.subrange(i, i + length)
}

/// A common prefix of `len` means the first `len` bytes agree.
proof fn lemma_common_from_repeats(data: Seq<u8>, a: int, b: int, max: int, len: int)
    requires
        len == common_from(data, a, b, max, 0),
        0 <= max,
        0 <= a,
        0 <= b,
        a + len <= data.len(),
        b + len <= data.len(),
    ensures
        data.subrange(a, a + len) == data.subrange(b, b + len),
{
    assert forall|k: int| 0 <= k < len implies #[trigger] data.subrange(a, a + len)[k] == data.subrange(b, b + len)[k] by {
        lemma_common_from_agrees(data, a, b, max, 0, k);
        assert(data.subrange(a, a + len)[k] == data[a + k]);
        assert(data.subrange(b, b + len)[k] == data[b + k]);
    }
    lemma_common_from_le(data, a, b, max, 0);
    assert(data.subrange(a, a + len) =~= data.subrange(b, b + len));
}

proof fn lemma_parse_from_match(data: Seq<u8>, head: Seq<usize>, prev: Seq<usize>, i0: int, k: int)
    requires
        chains_ok(data, head, prev, i0),
        0 <= k < parse_from(data, head, prev, i0).len(),
        parse_from(data, head, prev, i0)[k] is Match,
    ensures
        ({
            let i = i0 + token_start(parse_from(data, head, prev, i0), k);
            let t = parse_from(data, head, prev, i0)[k];
            match_source_ok(data, i, t->length as int, t->distance as int)
        }),
    decreases data.len() - i0,
{
    let n = data.len() as int;
    let ts = parse_from(data, head, prev, i0);
    if n - i0 < MIN_MATCH {
        let rest = parse_from(data, head, prev, i0 + 1);
        assert(ts == seq![Token::Literal(data[i0])] + rest);
        assert(k != 0);
        lemma_token_start_prepend(Token::Literal(data[i0]), rest, k);
        lemma_skip_ok(data, head, prev, i0);
        assert(ts[k] == rest[k - 1]);
        lemma_parse_from_match(data, head, prev, i0 + 1, k - 1);
    } else {
        let h = hash_of(data[i0], data[i0 + 1], data[i0 + 2]);
        lemma_hash_bound(data[i0], data[i0 + 1], data[i0 + 2]);
        let max_len = if MAX_MATCH < n - i0 { MAX_MATCH as int } else { n - i0 };
        let min_pos = if i0 >= WINDOW_SIZE { i0 - WINDOW_SIZE } else { 0 };
        let best = chain_search(data, prev, i0, max_len, min_pos, head[h as int], MAX_CHAIN_LEN as nat, 0, 0);
        lemma_chain_search_le(data, prev, i0, max_len, min_pos, head[h as int], MAX_CHAIN_LEN as nat, 0, 0);
        if best.0 >= MIN_MATCH {
            let next = register_range(data, head, prev, i0, i0 + best.0);
            let t = Token::Match { length: best.0 as u16, distance: (i0 - best.1) as u16 };
            let rest = parse_from(data, next.0, next.1, i0 + best.0);
            assert(ts == seq![t] + rest);
            if k == 0 {
                assert(token_start(ts, 0) == 0);
                lemma_walk_result(data, head, prev, i0, max_len, min_pos, i0, MAX_CHAIN_LEN as nat, 0, 0);
                let p0 = best.1;
                assert(reachable(data, h, min_pos, i0, MAX_CHAIN_LEN as nat, p0));
                lemma_common_from_repeats(data, p0, i0, max_len, best.0);
                assert(t->length == best.0);
                assert(t->distance == i0 - p0);
                let len = best.0;
                assert forall|p: int| p0 < p < i0 && hash_count(data, h, p + 1, i0) < 256
                    implies #[trigger] data.subrange(p, p + len) != data.subrange(i0, i0 + len) by {
                    if data.subrange(p, p + len) == data.subrange(i0, i0 + len) {
                        assert(data[p] == data.subrange(p, p + len)[0]);
                        assert(data[p + 1] == data.subrange(p, p + len)[1]);
                        assert(data[p + 2] == data.subrange(p, p + len)[2]);
                        assert(data[i0] == data.subrange(i0, i0 + len)[0]);
                        assert(data[i0 + 1] == data.subrange(i0, i0 + len)[1]);
                        assert(data[i0 + 2] == data.subrange(i0, i0 + len)[2]);
                        assert(reachable(data, h, min_pos, i0, MAX_CHAIN_LEN as nat, p));
                        lemma_common_from_ge(data, p, i0, max_len, 0, len);
                    }
                }
            } else {
                lemma_token_start_prepend(t, rest, k);
                lemma_register_range_ok(data, head, prev, i0, i0 + best.0);
                assert(ts[k] == rest[k - 1]);
                lemma_parse_from_match(data, next.0, next.1, i0 + best.0, k - 1);
            }
        } else {
            let next = register(data, head, prev, i0);
            let rest = parse_from(data, next.0, next.1, i0 + 1);
            assert(ts == seq![Token::Literal(data[i0])] + rest);
            assert(k != 0);
            lemma_token_start_prepend(Token::Literal(data[i0]), rest, k);
            lemma_register_ok(data, head, prev, i0);
            assert(ts[k] == rest[k - 1]);
            lemma_parse_from_match(data, next.0, next.1, i0 + 1, k - 1);
        }
    }
}

/// The greedy parse copies each match from the nearest place its hash-chain
/// search reaches: a match token at position `i`, copying `length` bytes from
/// `distance` back, takes them from a position the search reaches (at most
/// 32768 bytes back, fewer than 256 positions of the same hash between), whose
/// bytes repeat the next `length` bytes; and no reachable position closer to
/// `i` repeats them.
pub proof fn lemma_parse_match_source(data: Seq<u8>, k: int)
    requires
        data.len() <= usize::MAX,
        0 <= k < lz_parse(data).len(),
        lz_parse(data)[k] is Match,
    ensures
        match_source_ok(data, token_start(lz_parse(data), k) as int, lz_parse(data)[k]->length as int,
            lz_parse(data)[k]->distance as int),
{
    let head = Seq::new(HASH_SIZE as nat, |x: int| NO_POS);
    let prev = Seq::new(data.len(), |x: int| NO_POS);
    assert(chains_ok(data, head, prev, 0));
    lemma_parse_from_match(data, head, prev, 0, k);
}

/// The greedy parse takes the longest repeat its hash-chain search can reach.
/// At the start `i` of each token, take any earlier position `p` at most
/// 32768 bytes back (the window), with fewer than 256 positions between them
/// whose three bytes hash to the same bucket as those at `i` (the chain
/// limit). If the bytes at `p` repeat the next `len` bytes (3 to 258), the
/// token is a match at least `len` bytes long.
pub proof fn lemma_parse_finds_repeats(data: Seq<u8>, k: int, p: int, len: int)
    requires
        data.len() <= usize::MAX,
        0 <= k < lz_parse(data).len(),
        ({
            let i = token_start(lz_parse(data), k) as int;
            &&& 0 <= p < i
            &&& i - p <= 32768
            &&& 3 <= len <= 258
            &&& i + len <= data.len()
            &&& data.subrange(p, p + len) == data.subrange(i, i + len)
            &&& hash_count(data, hash_of(data[i], data[i + 1], data[i + 2]), p + 1, i) < 256
        }),
    ensures
        lz_parse(data)[k] matches Token::Match { length, .. } && length >= len,
{
    let head = Seq::new(HASH_SIZE as nat, |x: int| NO_POS);
    let prev = Seq::new(data.len(), |x: int| NO_POS);
    assert(chains_ok(data, head, prev, 0));
    lemma_parse_from_finds(data, head, prev, 0, k, p, len);
}

/// Nothing between the latest position before `j` hashing to `h` and `j`
/// hashes to `h`.
proof fn lemma_latest_top(data: Seq<u8>, h: nat, j: int, q: int)
    requires
        data.len() <= usize::MAX,
        q < j,
        latest(data, h, j) == NO_POS || latest(data, h, j) < q,
    ensures
        !hashes_to(data, q, h),
    decreases j,
{
    if j > 0 && !hashes_to(data, j - 1, h) && q < j - 1 {
        lemma_latest_top(data, h, j - 1, q);
    }
}

/// The position reached from `j` by the chain walk: it hashes to `h`, lies
/// in the window, and has fewer than `chain` positions of the same hash
/// between it and `j`.
spec fn reachable(data: Seq<u8>, h: nat, min_pos: int, j: int, chain: nat, c: int) -> bool {
    &&& hashes_to(data, c, h)
    &&& min_pos <= c < j
    &&& hash_count(data, h, c + 1, j) < chain
}

/// What the chain walk returns: its starting best, or a reachable position
/// whose common prefix is the new best and beats every reachable position
/// closer to `i`.
proof fn lemma_walk_result(data: Seq<u8>, head: Seq<usize>, prev: Seq<usize>, i: int, max_len: int,
    min_pos: int, j: int, chain: nat, best_len: int, best_pos: int)
    requires
        chains_ok(data, head, prev, i),
        i + MIN_MATCH <= data.len(),
        j <= i,
        0 <= min_pos,
        0 <= best_len <= max_len,
        max_len <= data.len() - i,
    ensures
        ({
            let h = hash_of(data[i], data[i + 1], data[i + 2]);
            let r = chain_search(data, prev, i, max_len, min_pos, latest(data, h, j), chain, best_len, best_pos);
            ||| r == (best_len, best_pos)
            ||| {
                &&& r.0 > best_len
                &&& reachable(data, h, min_pos, j, chain, r.1)
                &&& common_from(data, r.1, i, max_len, 0) == r.0
                &&& forall|c: int| reachable(data, h, min_pos, j, chain, c) && c > r.1
                    ==> #[trigger] common_from(data, c, i, max_len, 0) < r.0
            }
        }),
    decreases chain,
{
    let h = hash_of(data[i], data[i + 1], data[i + 2]);
    let cand = latest(data, h, j);
    if best_len < max_len && cand != NO_POS && cand >= min_pos && chain > 0 {
        let c = cand as int;
        lemma_latest_found(data, h, j);
        lemma_common_from_le(data, c, i, max_len, 0);
        let lc = common_from(data, c, i, max_len, 0);
        let (bl, bp) = if lc > best_len { (lc, c) } else { (best_len, best_pos) };
        assert(prev[c] == latest(data, h, c));
        lemma_walk_result(data, head, prev, i, max_len, min_pos, c, (chain - 1) as nat, bl, bp);
        let r = chain_search(data, prev, i, max_len, min_pos, latest(data, h, c), (chain - 1) as nat, bl, bp);
        assert(chain_search(data, prev, i, max_len, min_pos, cand, chain, best_len, best_pos) == r);
        lemma_latest_count_zero(data, h, j);
        assert(reachable(data, h, min_pos, j, chain, c));
        if r == (bl, bp) {
            if lc > best_len {
                assert forall|x: int| reachable(data, h, min_pos, j, chain, x) && x > r.1
                    implies #[trigger] common_from(data, x, i, max_len, 0) < r.0 by {
                    if x != c {
                        lemma_reach_step(data, h, min_pos, j, chain, x);
                    }
                }
            }
        } else {
            assert forall|x: int| reachable(data, h, min_pos, j, chain, x) && x > r.1
                implies #[trigger] common_from(data, x, i, max_len, 0) < r.0 by {
                if x != c {
                    lemma_reach_step(data, h, min_pos, j, chain, x);
                }
            }
            lemma_reach_back(data, h, min_pos, j, chain, r.1);
        }
    }
}

/// The latest position before `j` hashing to `h`, when there is one, is
/// before `j` and hashes to `h`.
proof fn lemma_latest_found(data: Seq<u8>, h: nat, j: int)
    requires
        data.len() <= usize::MAX,
    ensures
        latest(data, h, j) != NO_POS ==> latest(data, h, j) < j && hashes_to(data, latest(data, h, j) as int, h),
    decreases j,
{
    if j > 0 && !hashes_to(data, j - 1, h) {
        lemma_latest_found(data, h, j - 1);
    }
}

/// Above the latest position before `j` hashing to `h`, none does.
proof fn lemma_latest_count_zero(data: Seq<u8>, h: nat, j: int)
    requires
        data.len() <= usize::MAX,
        latest(data, h, j) != NO_POS,
        latest(data, h, j) < j,
    ensures
        hash_count(data, h, latest(data, h, j) + 1, j) == 0,
{
    let c = latest(data, h, j) as int;
    assert forall|q: int| c + 1 <= q < j implies !hashes_to(data, q, h) by {
        lemma_latest_top(data, h, j, q);
    }
    lemma_none_counted(data, h, c + 1, j);
}

/// A position reachable from `j`, other than the latest one `c`, lies below
/// `c` and is reachable from `c` with one step fewer.
proof fn lemma_reach_step(data: Seq<u8>, h: nat, min_pos: int, j: int, chain: nat, x: int)
    requires
        data.len() <= usize::MAX,
        reachable(data, h, min_pos, j, chain, x),
        x != latest(data, h, j),
    ensures
        x < latest(data, h, j),
        chain >= 1,
        reachable(data, h, min_pos, latest(data, h, j) as int, (chain - 1) as nat, x),
{
    lemma_latest(data, h, j, x);
}

/// A position reachable from the latest one `c` with one step fewer is
/// reachable from `j`.
proof fn lemma_reach_back(data: Seq<u8>, h: nat, min_pos: int, j: int, chain: nat, x: int)
    requires
        data.len() <= usize::MAX,
        chain >= 1,
        latest(data, h, j) != NO_POS,
        latest(data, h, j) < j,
        reachable(data, h, min_pos, latest(data, h, j) as int, (chain - 1) as nat, x),
    ensures
        reachable(data, h, min_pos, j, chain, x),
{
    lemma_latest(data, h, j, x);
}

/// No position of `lo..hi` hashing to `h` means a count of zero.
proof fn lemma_none_counted(data: Seq<u8>, h: nat, lo: int, hi: int)
    requires
        forall|q: int| lo <= q < hi ==> !hashes_to(data, q, h),
    ensures
        hash_count(data, h, lo, hi) == 0,
    decreases hi - lo,
{
    if hi > lo {
        lemma_none_counted(data, h, lo, hi - 1);
    }
}

/// Hash the 3 bytes at `data[i..i + 3]` into a bucket index.
fn hash3(data: &[u8], i: usize) -> (h: usize)
    requires
        i + 3 <= data@.len(),
    ensures
        h == hash_of(data@[i as int], data@[i + 1], data@[i + 2]),
        h < HASH_SIZE,
{
    let b0 = data[i];
    let b1 = data[i + 1];
    let b2 = data[i + 2];
    let v: u32 = (b0 as u32) << 16u32 | (b1 as u32) << 8u32 | (b2 as u32);
    proof {
        assert(v == b0 as u32 * 0x1_0000 + b1 as u32 * 0x100 + b2 as u32) by (bit_vector)
            requires
                v == (b0 as u32) << 16u32 | (b1 as u32) << 8u32 | (b2 as u32),
        ;
    }
    // Knuth multiplicative hash, then keep the top HASH_BITS bits.
    let w = v.wrapping_mul(0x9E37_79B1);
    proof {
        assert(w >> 17u32 == w / 0x2_0000) by (bit_vector);
        assert(w / 0x2_0000 < 0x8000) by (bit_vector);
    }
    (w >> (32 - HASH_BITS)) as usize
}

/// Length of the common prefix of `data[a..]` and `data[b..]`, capped at `max`.
fn match_len(data: &[u8], a: usize, b: usize, max: usize) -> (len: usize)
    requires
        a + max <= data@.len(),
        b + max <= data@.len(),
    ensures
        len <= max,
        len == common_from(data@, a as int, b as int, max as int, 0),
        data@.subrange(a as int, a + len) == data@.subrange(b as int, b + len),
        len < max ==> data@[a + len] != data@[b + len],
{
    let n = data.len();
    let mut len: usize = 0;
    while len < max && data[a + len] == data[b + len]
        invariant
            n == data@.len(),
            a + max <= data@.len(),
            b + max <= data@.len(),
            len <= max,
            common_from(data@, a as int, b as int, max as int, len as int)
                == common_from(data@, a as int, b as int, max as int, 0),
            data@.subrange(a as int, a + len) == data@.subrange(b as int, b + len),
        decreases max - len,
    {
        proof {
            assert(data@.subrange(a as int, a + len + 1) =~= data@.subrange(a as int, a + len).push(data@[a + len]));
            assert(data@.subrange(b as int, b + len + 1) =~= data@.subrange(b as int, b + len).push(data@[b + len]));
        }
        len += 1;
    }
    len
}

/// A vector of `n` copies of `NO_POS`.
fn empty_chain_table(n: usize) -> (v: Vec<usize>)
    ensures
        v@.len() == n,
        forall|k: int| 0 <= k < n ==> v@[k] == NO_POS,
{
    let mut v: Vec<usize> = Vec::new();
    let mut k: usize = 0;
    while k < n
        invariant
            k <= n,
            v@.len() == k,
            forall|j: int| 0 <= j < k ==> v@[j] == NO_POS,
        decreases n - k,
    {
        v.push(NO_POS);
        k += 1;
    }
    v
}

/// Compress `data` into a stream of tokens (greedy matching): the tokens are
/// the greedy parse `lz_parse(data)`; they decode back to `data`, and each
/// fits the payload format.
#[verifier::loop_isolation(false)]
#[verifier::spinoff_prover]
pub fn encode(data: &[u8]) -> (tokens: Vec<Token>)
    ensures
        tokens@ == lz_parse(data@),
        decoded(tokens@) == Some(data@),
        forall|k: int| 0 <= k < tokens@.len() ==> token_in_range(#[trigger] tokens@[k]),
        tokens@.len() <= data@.len(),
{
    let n = data.len();
    let mut tokens: Vec<Token> = Vec::new();
    if n == 0 {
        proof {
            assert(data@ =~= Seq::<u8>::empty());
        }
        return tokens;
    }

    // head[h] = most recent position whose 3-byte hash is h, or NO_POS.
    // prev[p] = the position before p that shared p's hash, or NO_POS.
    let mut head = empty_chain_table(HASH_SIZE);
    let mut prev = empty_chain_table(n);

    let mut i: usize = 0;
    let ghost whole = lz_parse(data@);
    proof {
        assert(data@.take(0) =~= Seq::<u8>::empty());
        assert(head@ =~= Seq::new(HASH_SIZE as nat, |k: int| NO_POS));
        assert(prev@ =~= Seq::new(data@.len(), |k: int| NO_POS));
        assert(tokens@ + whole =~= whole);
    }
    while i < n
        invariant
            n == data@.len(),
            i <= n,
            tokens@ + parse_from(data@, head@, prev@, i as int) == whole,
            head@.len() == HASH_SIZE,
            prev@.len() == n,
            forall|h: int| 0 <= h < HASH_SIZE ==> #[trigger] head@[h] == NO_POS || head@[h] < i,
            forall|p: int| 0 <= p < n ==> #[trigger] prev@[p] == NO_POS || prev@[p] < i,
            decoded(tokens@) == Some(data@.take(i as int)),
            forall|k: int| 0 <= k < tokens@.len() ==> token_in_range(#[trigger] tokens@[k]),
            tokens@.len() <= i,
        decreases n - i,
    {
        // Need at least MIN_MATCH bytes ahead to hash / match.
        let ghost before = tokens@;
        let ghost i0 = i as int;
        let ghost head0 = head@;
        let ghost prev0 = prev@;
        if n - i < MIN_MATCH {
            proof {
                lemma_decoded_push(tokens@, Token::Literal(data@[i as int]));
                assert(data@.take(i as int).push(data@[i as int]) =~= data@.take(i + 1));
            }
            tokens.push(Token::Literal(data[i]));
            i += 1;
            proof {
                assert(tokens@ + parse_from(data@, head@, prev@, i as int)
                    =~= before + (seq![Token::Literal(data@[i0])] + parse_from(data@, head@, prev@, i as int)));
            }
        } else {
            let h = hash3(data, i);
            let max_len = if MAX_MATCH < n - i { MAX_MATCH } else { n - i };
            let min_pos = i.saturating_sub(WINDOW_SIZE);

            let mut best_len: usize = 0;
            let mut best_pos: usize = 0;
            let mut candidate = head[h];
            let mut chain = MAX_CHAIN_LEN;
            let ghost target = chain_search(data@, prev@, i as int, max_len as int, min_pos as int, head@[h as int],
                MAX_CHAIN_LEN as nat, 0, 0);

            while best_len < max_len && candidate != NO_POS && candidate >= min_pos && chain > 0
                invariant
                    chain_search(data@, prev@, i as int, max_len as int, min_pos as int, candidate, chain as nat,
                        best_len as int, best_pos as int) == target,
                    candidate == NO_POS || candidate < i,
                    best_len <= max_len,
                    best_len > 0 ==> best_pos < i && i - best_pos <= WINDOW_SIZE,
                    data@.subrange(best_pos as int, best_pos + best_len) == data@.subrange(i as int, i + best_len),
                decreases chain,
            {
                let c = candidate;
                // Cheap reject: a longer match must at least match at offset
                // best_len. Only then do the full compare.
                if data[c + best_len] == data[i + best_len] {
                    let len = match_len(data, c, i, max_len);
                    if len > best_len {
                        best_len = len;
                        best_pos = c;
                    }
                } else {
                    proof {
                        lemma_common_from_le(data@, c as int, i as int, max_len as int, 0);
                        if common_from(data@, c as int, i as int, max_len as int, 0) > best_len {
                            lemma_common_from_agrees(data@, c as int, i as int, max_len as int, 0, best_len as int);
                        }
                    }
                }
                candidate = prev[c];
                chain -= 1;
            }

            if best_len >= MIN_MATCH {
                let t = Token::Match { length: best_len as u16, distance: (i - best_pos) as u16 };
                proof {
                    lemma_decoded_push(tokens@, t);
                    lemma_copy_back_repeats(data@, i as int, best_pos as int, best_len as nat);
                }
                tokens.push(t);
                // Register every position the match covers so future searches
                // can find them, then skip past the whole match.
                let end = i + best_len;
                let ghost next = register_range(data@, head@, prev@, i as int, end as int);
                while i < end
                    invariant
                        register_range(data@, head@, prev@, i as int, end as int) == next,
                        i <= end <= n,
                        head@.len() == HASH_SIZE,
                        prev@.len() == n,
                        forall|h: int| 0 <= h < HASH_SIZE ==> #[trigger] head@[h] == NO_POS || head@[h] < i,
                        forall|p: int| 0 <= p < n ==> #[trigger] prev@[p] == NO_POS || prev@[p] < i,
                    decreases end - i,
                {
                    if n - i >= MIN_MATCH {
                        let hh = hash3(data, i);
                        let ghost step = register(data@, head@, prev@, i as int);
                        prev[i] = head[hh];
                        head[hh] = i;
                        proof {
                            assert(head@ =~= step.0);
                            assert(prev@ =~= step.1);
                        }
                    }
                    i += 1;
                }
                proof {
                    assert(head@ == next.0 && prev@ == next.1);
                    assert(target == (best_len as int, best_pos as int));
                    assert(parse_from(data@, head0, prev0, i0)
                        == seq![t] + parse_from(data@, next.0, next.1, i0 + best_len));
                    assert(tokens@ + parse_from(data@, head@, prev@, i as int)
                        =~= before + (seq![t] + parse_from(data@, head@, prev@, i as int)));
                }
            } else {
                // No useful match: emit a literal, but still register this position.
                let ghost step = register(data@, head@, prev@, i as int);
                prev[i] = head[h];
                head[h] = i;
                proof {
                    assert(head@ =~= step.0);
                    assert(prev@ =~= step.1);
                    assert(target == (best_len as int, best_pos as int));
                    lemma_decoded_push(tokens@, Token::Literal(data@[i as int]));
                    assert(data@.take(i as int).push(data@[i as int]) =~= data@.take(i + 1));
                }
                tokens.push(Token::Literal(data[i]));
                i += 1;
                proof {
                    assert(parse_from(data@, head0, prev0, i0)
                        == seq![Token::Literal(data@[i0])] + parse_from(data@, head@, prev@, i as int));
                    assert(tokens@ + parse_from(data@, head@, prev@, i as int)
                        =~= before + (seq![Token::Literal(data@[i0])] + parse_from(data@, head@, prev@, i as int)));
                }
            }
        }
    }
    proof {
        assert(data@.take(n as int) =~= data@);
        assert(tokens@ + parse_from(data@, head@, prev@, i as int) =~= tokens@);
    }
    tokens
}

/// Replay a token stream back into the original bytes. Fails exactly when a
/// back-reference points before the start of the output written so far.
pub fn decode(tokens: &[Token]) -> (r: Result<Vec<u8>>)
    ensures
        match r {
            Ok(out) => decoded(tokens@) == Some(out@),
            Err(e) => decoded(tokens@) is None
                && e == KnotError::Corrupt("back-reference points outside the window"),
        },
{
    let mut out: Vec<u8> = Vec::new();
    let mut t: usize = 0;
    proof {
        assert(tokens@.take(0) =~= Seq::<Token>::empty());
    }
    while t < tokens.len()
        invariant
            t <= tokens@.len(),
            decoded(tokens@.take(t as int)) == Some(out@),
        decreases tokens@.len() - t,
    {
        let token = tokens[t];
        proof {
            assert(tokens@.take(t as int).push(token) =~= tokens@.take(t + 1));
            lemma_decoded_push(tokens@.take(t as int), token);
        }
        match token {
            Token::Literal(b) => {
                out.push(b);
            },
            Token::Match { length, distance } => {
                let dist = distance as usize;
                if dist == 0 || dist > out.len() {
                    proof {
                        lemma_decoded_fails(tokens@, t + 1);
                    }
                    return Err(KnotError::Corrupt("back-reference points outside the window"));
                }
                let ghost base = out@;
                let mut k: usize = 0;
                while k < length as usize
                    invariant
                        1 <= dist <= base.len(),
                        k <= length,
                        out@ == copy_back(base, dist as nat, k as nat),
                        out@.len() == base.len() + k,
                    decreases length - k,
                {
                    // Reading bytes we just wrote is intentional: that's how a
                    // short distance expands a run (e.g. dist=1 repeats one byte).
                    let byte = out[out.len() - dist];
                    out.push(byte);
                    k += 1;
                }
            },
        }
        t += 1;
    }
    proof {
        assert(tokens@.take(tokens@.len() as int) =~= tokens@);
    }
    Ok(out)
}

} // verus!
