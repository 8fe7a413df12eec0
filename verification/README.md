# plonk

The PLONK proving system over BLS12-381, with KZG commitments, zero-knowledge
blinding, the linearisation trick and a Fiat-Shamir transcript, written in
Verus. Field, curve and FFT arithmetic come from arkworks, hashing from
`sha2`; every call into them goes through a small trusted item whose
contract says what the call returns. Proofs are 624 bytes.

Layout of `src/`:

- `field`, `curve`: scalars and group elements, modelled by their integer
  value and their encodings.
- `circuit`: the three-wire gate, the builder, union-find over variables.
- `permutation`: copy constraints as cycles over the wire slots, and the
  grand product identity.
- `poly`, `evaluation`: coefficient sequences, evaluation domains, and the
  identities of evaluation (sums, products with `X^n - 1`, trimming).
- `kzg`, `ceremony`: commitments and openings; the ceremony file format.
- `preprocess`: prover and verifier keys.
- `transcript`, `rounds`: the Fiat-Shamir transcript and its rounds.
- `prover`, `proof_format`, `proof_check`: proving, the proof encoding,
  and verification.
- `completeness`: a proof the prover emits meets the verifier's equation in
  the exponent, for a run whose linearisation vanishes at `zeta`.

`app/` holds what stays outside verification: printable error types and
reading the ceremony file from disk.
