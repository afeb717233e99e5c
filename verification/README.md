# bitweaving

A column of `u32` values stored as a bit-sliced index ("bit groups") and
scanned for the values strictly between two constants, 32 values per machine
word, with the functions of the index proved in Verus.

Not everything is proved. The calls into the `bit_vec` crate (`BitVec::new`,
`push`, `from_bytes`, `append`, and what a `BitVec` holds) and into
`byteorder` (`BigEndian::read_u32`, `write_u32`, `read_u64`, `write_u64`), and
std's `Vec::into_boxed_slice`, sit behind small wrappers whose contracts
Verus assumes; each wrapper's doc comment says what it claims.

- `src/bitgroup.rs`, `src/bitgroup/`: the index type, how a column is turned
  into bit groups, and the scan one segment (32 values) at a time.
- `src/simd_scanner*.rs`, `src/lanes.rs`: the same scan, several segments
  side by side in the lanes of a word vector.
- `src/naivescan/`: the plain value-by-value scan.
- `src/codec.rs`: the byte layout of a stored index.
- `src/index_builder.rs`, `src/index_builder2.rs`: two other layouts of bit
  groups.
- `src/column_store.rs`: splitting CSV lines into trimmed fields and column
  stores.
- `src/compare.rs`, `src/bits.rs`: the model of the bit-parallel comparison
  and the bit-level facts it rests on.
- `src/laws.rs`: what holds across functions, such as that scanning the
  index built from a column marks exactly what the plain scan marks.
- `app/`: the program that reads the settings and files, builds the index
  and times the scans.
