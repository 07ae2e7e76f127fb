ser_write
=========

Writer-style serializers and deserializers with machine-checked contracts.

The library (`src/`) is written in Verus:

* `lib.rs` - the `SerWrite` trait for sinks of bytes, whose abstract state is
  the sequence of bytes written so far, the `SerError` type and `SliceWriter`,
  a writer into a mutable slice;
* `slice_fmt.rs` - `core::fmt::Write` for `SliceWriter`;
* `foreign.rs` - `SerWrite` for `Vec<u8>` and `VecDeque<u8>`;
* `bounded.rs` - `SerWrite` sinks over the vectors of `arrayvec`, `heapless`,
  `smallvec` and `tinyvec` (`ArrayVecWriter`, `HeaplessWriter`,
  `SmallVecWriter`, `TinyArrayVecWriter`, `SliceVecWriter`, `TinyVecWriter`).
  Each holds the vector with a ghost record of its bytes; the calls into the
  vector are trusted items that state how they change that record. There is
  no sink over `std::io::Cursor`: it writes through any `io::Write` impl of
  the cursor, a trait that verified code cannot be bound by;
* `text.rs` - UTF-8 validation and character conversions used by the
  deserializers;
* `json/` - base-64 coding, a compact JSON serializer (what each value is
  written as) and an in-place JSON deserializer (strings unescaped and bytes
  decoded inside the input slice), with the laws that what one writes the
  other reads back (`json/roundtrip.rs`);
* `msgpack/` - a MessagePack serializer in three flavours (structs as arrays,
  as maps with field indexes or with field names) and a deserializer, with
  the round-trip laws and the law that `eat_message` skips exactly one
  whole message, however nested (`msgpack/roundtrip.rs`).

`app/` adapts these to serde's `Serializer` and `Deserializer` traits and
provides the entry points `to_writer`, `to_string`, `to_vec`,
`from_mut_slice` and `from_slice`; it also formats and parses floats.

`tests/` exercise the library on concrete values.
