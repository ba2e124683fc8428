# bzip2_verified

The bzip2 compressor and decompressor as a library verified with Verus, with the
`bzip2` and `bzip2recover` programs around it.

## Layout

- `src/` — the verified library:
  - `crc.rs`: the block and stream checksum, with its lookup table proved equal to
    the bitwise definition;
  - `bitstream.rs`: the bit writer, specified over the sequence of bits it puts down;
  - `blocksort.rs`: the block sorting (fallback and main sorts) of the Burrows–Wheeler
    transform; proved are the permutations, the key order of the fallback quicksort and
    insertion sort, and the order of the shell sort under the main sort's comparison,
    which is proved to be the byte order of rotations where the quadrant marks agree
    (and so is each single comparison of the main sort on such marks);
    the order of whole sorted blocks is not proved;
  - `huffman.rs`: code lengths, canonical code assignment and decode tables, with the
    proof that the decode tables lead from each symbol's canonical code back to the
    symbol, and that the codes fit in their lengths when the lengths satisfy the Kraft
    inequality (that the computed lengths satisfy it is not proved);
  - `compress.rs`: move-to-front and run-length coding of a sorted block, selectors and
    tables, and the bits of a compressed block;
  - `decompress.rs`: the resumable stream decoder and the set-up of the inverse
    transform, in both the fast and the small memory layout;
  - `bzlib.rs`: the streaming interface (`BZ2_bzCompress`, `BZ2_bzDecompress`, ...) and
    the one-shot buffer calls; proved for the compressor is that the bytes it hands out
    are, in order, the bytes of the blocks it compressed, and that a finishing call fails
    only when it could move nothing; for the decompressor, that a stream holding no block
    decodes to nothing exactly when its checksum is zero, and that blocks are accepted
    only with a matching checksum (what a well-formed stream decodes to is not proved);
  - `bzfile.rs`: compressed files read from memory and written in steps;
  - `cli.rs`, `recover.rs`: the decisions of the two programs (output names, how a read
    ended, block boundaries of a damaged file).
- `app/` — the programs: arguments, files, standard streams, signals.
- `tests/` — tests of the library, many of them compared with the
  `bzip2` crate.
