# curvepress

Lossy time series compression: point reduction (RDP / VW / RDP-N),
quantization of the values to an integer grid, and integer packing
(delta + zigzag + LEB128 varint) into a byte stream.

## Layout

- `src/` — the verified library, everything that works on integers and bytes:
  - `series.rs`: the checks a series must pass (non-empty, one value per
    timestamp, strictly increasing timestamps) and the clamping of a target
    point count to `[2, n]`;
  - `varint.rs`: zigzag mapping and LEB128 varints, with the round-trip and
    prefix-uniqueness lemmas;
  - `packing.rs`: delta + zigzag + LEB128 packing of an `i64` stream;
  - `stream.rs`: the compressed stream (point count, quantization header,
    packed timestamps, packed quantized values), its writer and its reader,
    with the round-trip lemma;
  - `interp.rs`: locating a query timestamp among the support points;
  - `error.rs`: `CpError`.
- `app/` — the `f64` layer: RDP, VW and RDP-N point reduction, quantization,
  the `compress_*` / `decompress` / `interpolate` entry points and `Stats`.
- `tests/` — tests of the library.
