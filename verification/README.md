# token_ledger

A small token ledger for JAM services, with its logic verified by Verus.

Operations mint tokens or transfer them between 32-byte accounts. Refinement
validates a batch of signed operations and nets the transfers between each
pair of accounts; the state that the balances live in is a key/value store
committed to by a fixed-depth binary Merkle tree (2^15 leaves), whose reads
are recorded as a witness so that a service can replay a state transition on
the part of the state it touched.

## Layout

- `src/` — the verified library:
  - `hashing`, `order`, `encoding`: BLAKE2b-based hashes (through
    `blake2b_simd`), the byte order of accounts, little-endian and
    variable-length natural number encodings with their decoders;
  - `ledger`, `crypto`, `refine`: operations and their encoding, Ed25519
    checks (through `ed25519-consensus`), and refinement with transfer
    netting;
  - `external_client`: the Merkle tree with witness recording, the
    Merkle-committed store, the client state and its persisted files, the
    state transition, and refinement from a witness; `commitment` proves
    how a store's tree commits to its pairs, and `replay` proves that
    refinement from the witness of a transition reproduces the client's
    roots, for a client state whose tree commits to its balances (as every
    state built from an empty one or from the persisted files does) with
    distinct balance keys at distinct leaves;
  - `rollup`: the dense Merkle tree variant, its state, and the
    accumulation of state-root moves;
  - `laws`: properties across operations, stated and proved.
- `tests/` — tests of the library, against `jam-codec`, `blake2b_simd` and
  `ed25519-consensus` where their outputs are compared.
- `app/` — the external client program (files, arguments) and the JAM
  service entry points (payload decoding, host calls), around the library.
