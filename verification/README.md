# knot

Tie a file into a compact `.knot` archive, and untie it back: a DEFLATE-style
compressor (LZ77 + canonical Huffman coding) with a small archive format that
records the file's name, size and CRC-32. The library is written in Verus and
its behaviour is proved against the contracts stated on each function.

## Layout

- `src/bitio.rs`: MSB-first bit writer and reader, specified over the sequence
  of bits they stand for.
- `src/tables.rs`: the length and distance code tables.
- `src/lz77.rs`: the sliding-window tokenizer and its decoder; `encode` yields
  exactly the greedy hash-chain parse `lz_parse`, whose tokens decode back to
  the input.
- `src/huffman.rs`, `src/canonical.rs`, `src/kraft.rs`, `src/forest.rs`: code
  lengths from frequencies (the leaf depths of the Huffman tree
  `huffman_tree`, length-limited to 15 bits), the
  canonical codes and the decoder, with the mathematics of Kraft's inequality
  and of canonical prefix codes.
- `src/optimal.rs`: the proof that Huffman's lengths code the symbols in no
  more bits than any other prefix code.
- `src/codec.rs`: the payload bitstream; `compress` output unpacks back to its
  input.
- `src/format.rs`: the header layout; a header reads back from its bytes.
- `src/error.rs`: the error type and the message shown for each error.
- `src/checksum.rs`: CRC-32.
- `src/archive.rs`: whole archives, with the stored fallback for input that
  does not shrink, and the size and checksum checks on untying.
- `app/main.rs`: the `knot` command line (`tie`, `untie`, `inspect`): file I/O
  and printing around the library.
- `tests/`: tests run against the compiled library.

## File format

| offset | size | field                                    |
|-------:|-----:|------------------------------------------|
|      0 |    4 | magic bytes `KNOT`                       |
|      4 |    1 | format version (currently 1)             |
|      5 |    1 | flags (bit 0 = stored / uncompressed)    |
|      6 |    2 | filename length `N` (little-endian)      |
|      8 |    N | original filename (UTF-8, basename only) |
|    8+N |    8 | original size in bytes (little-endian)   |
|   16+N |    4 | CRC-32 of the original bytes             |
|   20+N |  ... | payload (compressed, or raw if stored)   |

The compressed payload is one MSB-first bitstream: 286 literal/length code
lengths and 30 distance code lengths (4 bits each), the token stream, and the
end-of-block symbol.
