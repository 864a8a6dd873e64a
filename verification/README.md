# pg_array

Multi-dimensional PostgreSQL arrays with verified behaviour.

- `src/shape.rs`: the model of a shape (element count, row-major offsets) and
  its laws: offsets of valid multi-indices are in bounds and distinct.
- `src/ndarray.rs`: `NdArray`, its lookup by multi-index, element counts.
- `src/nested.rs`: `Vec2` … `Vec6` and the conversions between `NdArray` and
  rows (`Vec2`) or planes (`Vec3`).
- `src/text.rs`: decimal rendering and the conversion error messages.
- `src/wire.rs`: the binary array format: decoding to raw elements (`None`
  for NULL), encoding of one-dimensional arrays, and the round-trip law. The
  32-bit words are read and written with the `byteorder` crate.
- `src/laws.rs`: round trips between nested vectors and `NdArray`, and
  lookups after a conversion.

Element values are kept as their encoded bytes; turning them into Rust values
is up to the caller.
