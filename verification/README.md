# denco

Base64 encoding and decoding with a configurable alphabet, with proofs that decoding
inverts encoding and that the parallel and sequential paths agree.

- `src/lib.rs`: `Config`, the traits `Encoder`, `Decoder`, `FromConfig` and
  `BaseAsciiConverter`, and the entry points (`encode`, `decode`, `url_encode`,
  `url_decode`, `encode_with_config`, `decode_with_config`, `parallel_encode`,
  `parallel_decode`).
- `src/model.rs`: what an encoding and a decoding are, as functions on byte sequences.
- `src/fast.rs`, `src/memory_efficient.rs`: the two converters between sextets and
  characters (tables built once, or computation on every call).
- `src/single.rs`: `Base64`, which works group by group on the calling thread.
- `src/parallel.rs`: `ParallelBase64`, which hands the groups to rayon's thread pool.
- `src/text.rs`: turning the encoded bytes into a `String`.
- `src/laws.rs`: decoding inverts encoding (padding optional), the parallel and sequential
  paths agree, encoding and decoding distribute over concatenation, and other alphabets
  are substitutions of the standard one.
