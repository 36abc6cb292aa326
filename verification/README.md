# wire-codec

Binary framing and encoding primitives — byte cursors, LEB128 varints,
zigzag, MSB-first bit cursors, and length-prefixed and delimited framers —
with contracts proved by Verus.

## Layout

- `src/buf.rs` — `ReadBuf` / `WriteBuf`, and the byte-order model
  (`be_value`, `le_value`, `be_bytes`, `le_bytes`, `splice`).
- `src/varint.rs` — LEB128 encoding (`leb128`) and decoding
  (`decode_outcome`), with round-trip, truncation and overlong laws.
- `src/zigzag.rs` — `zigzag` / `unzigzag` and the bijection laws.
- `src/bitfield.rs` — `BitReader` / `BitWriter` over the bit-stream model
  (`stream_bit`, `bits_value`, `bits_placed`).
- `src/framing/` — `Frame`, the `Framer` trait, `LengthPrefixed` and
  `Delimited`, each with a `spec_next_frame` model and round-trip laws.
- `src/error.rs` — `Error`, `Result`, and `Error::message`.
- `tests/` — example-based tests of every module and of whole protocol
  pipelines.

Laws are public proof functions named `law_*`.
