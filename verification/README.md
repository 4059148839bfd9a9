# secp256r1

ECDSA over NIST P-256 (secp256r1) with SHA-256, verified with Verus.

- `src/limbs.rs`, `src/modular.rs`: multi-limb arithmetic and big-endian byte strings,
  with the lemmas that relate them to mathematical integers.
- `src/field.rs`, `src/scalar.rs`: Montgomery arithmetic modulo `p` and `n`; every
  operation is stated over the residues it computes.
- `src/group.rs` and `src/group/`: Jacobian point formulas for `a = -3`, SEC1 encodings,
  precomputed tables with batch normalisation, windowed, interleaved and wNAF scalar
  multiplication. Each multiplication is stated as the exact sequence of point
  operations it performs; `src/group/curve.rs` proves that the Jacobian doubling,
  mixed addition and addition formulas implement tangent doubling and chord addition
  of affine points, that mixed addition agrees with general addition, and that tangent
  doubling keeps a point on the curve.
- `src/ecdsa.rs`, `src/ecdsa/der.rs`, `src/rfc6979.rs`: signatures and their fixed-width
  and strict DER encodings, RFC 6979 nonces, signing and verification.
- `src/hash.rs`, `src/wipe.rs`: the calls into `sha2`, `hmac` and `zeroize`, with the
  contracts that the verified code relies on.
- `src/laws.rs`: properties that relate operations to one another (round trips,
  ranges of signatures).
- `app/lib.rs`: random key generation and the `Display` form of errors.
