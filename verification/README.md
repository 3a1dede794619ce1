# Signet

A post-quantum authenticity layer for off-grid mesh networks, written in Verus:
every module's behaviour is stated in `requires`/`ensures` contracts over
mathematical models and proved.

- `src/` — the verified library: wire header, time bounds and the TESLA
  security condition, the last-write-wins fact store, TESLA hash chains,
  certificate encoding, erasure-coded fragmentation, the composed send and
  receive path, FN-DSA keys and certificate issue/verify, and a deterministic
  lossy channel. Hashing, HMAC, Reed–Solomon coding and FN-DSA come from their
  crates through small trusted functions whose contracts name their results.
- `tests/` — executable tests against the real crates.
- `app/` — the `signet` command line (`sim`, the airtime model, which is
  floating point; `demo`, two nodes over a simulated lossy link).

The laws the protocol rests on are public proof functions next to the code
they are about, for example `frag::lemma_split_fragments_reassemble`,
`reassembly::lemma_any_k_fragments_reassemble_interleaved`,
`session::lemma_genuine_frames_drain`, `session::lemma_refusal_changes_nothing`,
`store::lemma_merge_commutes` and `chain::lemma_keys_recover_backwards`.
