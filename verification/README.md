# MAYA: a short shuffle argument, verified

A library for shuffle arguments with logarithmic proof size, over two groups:
Ristretto255 (curve25519-dalek) and NIST P-256 (arkworks). A prover shows that a
committed vector is a permutation of a public one and that a pair of group
elements is what this vector makes of a list of ciphertexts.

Everything under `src/` is written in Verus and proved against its contracts.
The groups, hash functions, transcripts and random number generators come from
outside crates, behind small functions whose contracts are believed.

## Layout

- `src/group.rs`: the traits `Field` and `Group`. A group element is modelled by
  its index with respect to a fixed generator, so that contracts are equations
  between integers modulo the order of the group.
- `src/sums.rs`, `modular.rs`, `bytes.rs`, `wire.rs`: sums, residues, little-endian
  numbers and joined byte strings.
- `src/transcript.rs`, `hashing.rs`: the Merlin transcript, SHA3-512 and SHAKE256.
- `src/util.rs`, `util_laws.rs`: polynomials and powers.
- `src/folding.rs`, `unfolding.rs`, `ipa.rs`, `ecp.rs` and their `_laws` files: the
  two folding arguments, for an inner product and for one vector under two sets
  of bases.
- `src/r1cs/`: linear combinations, constraint systems in the prover's and the
  verifier's role, the secrets that a prover overwrites in the end, the proof, and
  its completeness.
- `src/shuffle.rs`, `shuffle_laws.rs`: the constraints of a shuffle and what they
  say.
- `src/ristretto/`, `src/p256/`: the two groups, their generators, the byte
  formats of proofs, and the randomized proving and verifying.
- `app/`: errors with messages, and proofs that serde carries.
- `tests/`: the library on concrete values.

## Main statements

- `shuffle_laws::law_shuffle_accepted`: the proof of a shuffle is accepted.
- `shuffle_laws::law_shuffle_sound`: what satisfied shuffle constraints mean.
- `r1cs::completeness::law_r1cs_complete`: the proof of any satisfied constraint
  system is accepted.
- `r1cs::completeness::law_unsatisfied_rejected`: the proof of a constraint system
  that is not satisfied is rejected, unless the challenges make the violations
  cancel.
- `r1cs::rejection_laws`: a proof is accepted for only one value of each combined
  ciphertext component.
- `ipa_laws::law_ipa_complete`, `ecp_laws::law_ecp_complete`: completeness of the
  folding arguments.
- `ipa_laws::law_ipa_padding`, `ecp_laws::law_ecp_short_bases`: what is too short is
  filled up with neutral elements.
- `law_proof_round_trip` in both `proof_bytes` modules: reading gives back what
  was written.
- `law_ipa_prefix`, `law_ecp_prefix` in both `serialization` modules: no strict prefix
  of a written folding argument can be read.
