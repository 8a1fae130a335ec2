# raster

RGB images and a baseline JPEG codec (sequential, 8 bits per sample, one or three components),
verified with Verus.

- `src/` is the library. `image` holds images; `jpg` reads and writes JPEG files, from bits
  (`reader`, `writer`, `huffman`, `amplitude`) over segments and coefficients (`header`, `scan`) to
  pictures (`frame`, `decode`, `encode`); `jpg::round_trip` proves that what is encoded is what is
  decoded, `jpg::skipping` that other segments and bytes behind the scan do not matter, and
  `jpg::extension` that a picture is coded like its extension to whole squares; `platform` and
  `jpg::transport` say which system calls load and save a file.
- The cosine transforms and the colour conversions are floating point. The library takes them as
  functions, and its contracts say what each of them is handed and where its result goes.
- `app/` holds those functions, and makes the system calls.
- `tests/` runs the library.
