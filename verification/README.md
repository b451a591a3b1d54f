# nostringer

Ring signatures over secp256k1, verified with Verus.

A member of a ring of public keys signs a message so that anybody can check that some member
signed it. The signature does not tell which: `any_member_could_have_signed` in `src/laws.rs`
proves that each member's private key makes that same signature for suitable nonces.

- `src/sag.rs`: `sign`, `sign_with_rng`, `verify` with keys and signatures in hexadecimal;
  `sign_binary`, `verify_binary` on scalars and points; `sign_binary_with_nonces` for given
  nonces.
- `src/open_ring.rs`: a signature in the making, nonce by nonce.
- `src/protocol.rs`: what signing and verifying compute, over integers modulo the group order.
- `src/laws.rs`: what holds of them together.
- `src/scalar.rs`, `src/point.rs`: scalars and points, held as bytes, with their arithmetic by
  `k256` and `subtle`.
- `src/hash.rs`: SHA-256 by `sha2`.
- `src/types.rs`, `src/utils.rs`, `src/hex.rs`, `src/bytes.rs`: errors, signatures, keys and their
  hexadecimal forms, and random scalars.
- `app/`: signing with a random number generator of the caller's choice.

A point is a multiple of the generator, and the contracts speak of it as that number. The curve
arithmetic, SHA-256 and the random numbers are the outside crates'; what is believed of them
stands above each function whose body calls them.
