# jpegzip

A small JPEG-like image compressor. The library (`src/`) holds the parts that are
proved with Verus; `app/` holds the program around it.

- `bits`: bit strings and bit vectors that pack codes into 32-bit words, and the
  iterator that reads the bits back.
- `trie`: prefix trees keyed by code digits.
- `compressor`, `decoder`: encoding symbols with a code table, and decoding the bits
  with the prefix tree of the table. `lemma_compress_decode_roundtrip` proves that
  decoding gives back what was compressed when the table is prefix free.
- `huffman`: a Huffman encoder over integer weights, built level after level.
  `lemma_encoded_table` proves that its radix-2 codes are prefix free and well formed.
- `square_matrix`, `point_store`: square matrices, blocks, the zigzag walk over the
  anti-diagonals and its inverse (`lemma_zigzag_roundtrip`).
- `frequency_count` (crate root): counting the symbols to encode.

`app/` reads an image, cuts it into 8x8 blocks, runs the floating-point DCT and
quantisation on them in threads, and uses the library to count, encode, compress and
decode the coefficients.
