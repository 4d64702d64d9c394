# oxideav-musepack

The bit-level layers of the Musepack SV7 and SV8 formats as a Verus library: bit readers and
writers, entropy codes, band headers, scalefactors, levels, frames, packets, stream headers, the
seek layer and whole streams. Every function states in its contract what it returns, and when it
fails.

- `src/` is the verified library. Readers are specified as functions from bits and a position to
  a value and a position, writers as functions from a value to bits. The modules that end in
  `_laws` state what relates the two: what is written reads back, and, for SV8 frames, what is
  read writes back.
- `app/` is the floating-point signal path around it: scaling, quantisation, the stereo decision
  and the interface to the filterbanks.
- `tests/` run the library on concrete values.

The code tables of the formats are handed to the library as values (`Sv8TableSet`, `Sv7TableSet`,
`Sv8Vlcs`); the laws say what they need of them, and `is_canonical`, `is_reversible`,
`is_unambiguous` and `is_orderly` tell whether given tables have it.
