# lib: a verified PNG and FLAC reader

A small decoder for PNG images and FLAC audio streams, written in Verus. The decoding logic
lives in `src/` and each function there carries a contract that Verus proves; `app/` is the
command-line program around it, which reads a file and prints what the library finds in it.

## PNG (`src/`)

- `chunk`: splitting the stream into chunks, CRC checks, the chunk property bits, and the
  checks on how many critical chunks there are and in what order they come.
- `header`: the IHDR fields, colour types, and undoing the five row filters.
- `bits`, `huffman`, `inflate`, `adler`: zlib and deflate decoding (stored, fixed and dynamic
  Huffman blocks) and the Adler-32 checksum.
- `crc`, `endian`: CRC-32 and big-endian numbers.
- `image`: decoding the image data of a chunk sequence (inflating the IDAT data and undoing
  the row filters).
- `ancillary`: the tEXt, iTXt, pHYs, sRGB, cHRM, gAMA, acTL, fcTL and fdAT chunks.

## FLAC (`src/flac/`)

- `bits`: a most-significant-bit-first bit reader with signed and unary reads.
- `metadata`: the metadata blocks (STREAMINFO, APPLICATION, VORBIS_COMMENT, PICTURE).
- `header`: frame headers, the coded frame number, CRC-8 and CRC-16.
- `subframe`: constant, verbatim, fixed and linear predictor subframes and the Rice-coded
  residual.
- `frame`: decoding whole frames.

Each module states its format as spec functions over byte sequences, and the executable code is
proved to compute them. Laws that relate several functions (for instance, that reading a chunk
stream gives back the chunks it was laid out from, or that restoring predicted samples undoes
the prediction) are proof functions next to the code they speak of.

Readers and checks come in two forms. The `try_` form (`try_zlib`, `try_read_chunk`,
`try_read_frame`, ...) takes any input and returns an error saying what is wrong with it. The
form without the prefix asks in its `requires` for an input on which the `try_` form succeeds
and returns the result itself; `app/` calls the `try_` forms and stops with the error.
