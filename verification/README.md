# ypir_wasm

Verified wire formats of the YPIR PIR client.

- `src/layout.rs`: the shape of a parameter set (`NttLayout`) and the word count of a matrix in NTT form.
- `src/le_bytes.rs`: little-endian encodings of `u32` fields and `u64` words, with their inverse lemmas.
- `src/query.rs`: the length-prefixed query format: `serialize_query`, `decode_query`, `deserialize_query`, and its specification.
- `src/query_laws.rs`: the round trip and canonical-form laws of the query format.
- `src/response.rs`: response framing (`serialize_response`, `response_ciphertexts`), plaintext assembly, ciphertext sizes, and their laws.
- `app/lib.rs`: the `wasm_bindgen` client and server helpers that call the lattice cryptography of `ypir` and `spiral_rs`.
