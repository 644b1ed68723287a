# sevenz_codecs

Codec building blocks for 7z archives, written in Verus and verified.

- `src/range_coding.rs`, `src/range_stream.rs`: the carry-less range coder of PPMd8,
  with the laws that normalisation settles, narrowing nests, and decoding the
  encoder's bytes recovers every coded sub-range.
- `src/ppmd8.rs`, `src/ppmd8_coding.rs`: the PPMd8 (PPMdI rev. 1) model over a
  bounds-checked byte arena (`src/arena.rs`), its sub-allocator and its symbol coding,
  with the laws that the decoder's first pass over a context stops at the state the
  encoder's coded (and likewise for the masked pass after an escape), and that both
  coders leave the same model after a first-state hit where the update takes its
  shortcut.
- `src/encoder_8.rs`, `src/decoder_8.rs`: the PPMd8 encoder and decoder over byte buffers,
  with what a fresh model codes first and the law that the first byte a fresh
  encoder writes is the first a fresh decoder reads back.
- `src/brotli_frame.rs`: the framing of plain and zstdmt Brotli streams.
- `src/lzma.rs`: LZMA/LZMA2 encoder options, the properties byte, the decoder memory
  estimate, LZMA-SDK status codes and the LZMA stream layout.
- `app/`: the `std::io` readers and writers around the library, the Brotli
  decompressor and the LZMA-SDK calls.
