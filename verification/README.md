# entro_gd

Lossless compression of tables and images by generalized deduplication. Rows are packed into bits;
the bits with little entropy become a table of bases, and each row is stored as the number of its
base and the bits that deviate from it.

## Layout

- `src/`: the library. Every function carries a contract that Verus proves.
  - `bits`, `bytes`, `numbers`, `text`, `maps`, `utils`: bit streams, numbers and texts.
  - `data`, `dataset`: the description of features, and bit-packed rows.
  - `tabular_processor`, `image_preprocessor`: columns and pixels to rows and back.
  - `entropy`, `base_bits`, `base_table`, `base_table_builder`, `pipeline`: the choice of base bits,
    and the pipeline built on it.
  - `encoding`: plain, run-length and Huffman encodings of rows, and base tables as differences.
  - `decompression`, `decompression_rows`, `analytics`: all rows, some of them, or the condensed ones
    from compressed data.
  - `file_format`: the EGD, IGD and TGD files.
  - `pipeline_profiles`, `pipeline_runner`: profiles of experiments, sizes and reports.
  - `*_laws`: what holds of several functions together, first of all that nothing is lost.
- `tests/`: tests on concrete values.
- `app/`: CSV and image files, configuration files, logging and the experiment runner, in ordinary
  Rust on top of the library.

Bit streams, hash maps and threads come from the `bitvec`, `fxhash` and `rayon` crates. What the
library takes for granted about them is written above each function that calls into one of them.
