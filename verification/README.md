# plonk-core

A verifier for PLONK proofs with lookups and custom gates, written in Verus.

`src/` is the library. Its functions state in their contracts what they compute, over the
integers that field elements stand for, and Verus proves that they do.

| module | what it holds |
| --- | --- |
| `proof_system` | proofs, `verify` and `try_verify` |
| `linearisation` | the linearisation commitment and the constant `r_0` |
| `challenges`, `transcript` | which challenges a proof draws, and from what |
| `openings`, `claims` | what the openings of a proof have to show |
| `lagrange`, `interpolation` | the first Lagrange polynomial and barycentric evaluation |
| `domain`, `field`, `residue`, `arithmetic`, `polynomial` | fields, subgroups and their arithmetic |
| `commitment`, `verifier_key`, `evaluations`, `public_inputs`, `error` | what a verifier works with |
| `bls12_381`, `g1`, `sponge`, `kzg` | BLS12-381, BLAKE2s transcripts and KZG commitments, through arkworks |
| `encoding`, `proof_encoding` | proofs as bytes |
| `proof_traits`, `equivalence` | copies and equality of proofs, and which proofs share a verdict |

The contracts of the functions that call arkworks are believed, not proved. They are private
functions whose doc comments name what they call and say what they claim of it.

The gates of a circuit are up to its author: they implement `verifier_key::GateConstraints`.

`app/` offers the verifier to callers that hold arkworks values. `tests/` runs the library.
