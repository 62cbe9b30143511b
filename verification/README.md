# amiga-lzx

A compressor and decompressor for Amiga LZX archives, written in Rust and
verified with Verus. (Microsoft's LZX, the one in `.cab` files, is another
format.)

- `src/` is the library. Every function in it is verified against its contract.
- `tests/` runs the library on concrete inputs.
- `app/` is the `lzx` command: create, extract, list and test archives.

## What is proved

- The bits that a `BitWriter` takes are the bits that a `BitReader` gives.
- `build_lengths` gives lengths of a complete prefix code, than which none is
  cheaper, and a symbol that is written with such a code is the symbol that
  `decode_symbol` reads.
- A section of code lengths that `encode_section` writes is read back by
  `decode_section`.
- The match finder finds the longest match in reach, and the nearest of equally
  long ones, where its walk along the hash chain may be long enough.
- The tokens of `lz77::encode` expand to the data, at every level.
- A stream that `BlockWriter` writes decodes to the data
  (`roundtrip::lemma_round_trip`).
- An archive that `ArchiveWriter` writes gives its entries back from
  `ArchiveReader`: names, comments, dates, attributes and contents
  (`archive::roundtrip::lemma_archive_round_trip`). So do groups of entries that
  share one payload.
- Compressed data takes at most 17 bits for each byte, and 3002 bytes more.
- A sanitized path stays below the directory that it is joined to.

The contracts of the readers also say what happens on every other input: which
error comes, and when.

## What is trusted

The conversions between `SystemTime` and seconds, and `String::push`. The items
that state these contracts are marked in `src/archive/datetime.rs` and
`src/archive/latin1.rs`.
