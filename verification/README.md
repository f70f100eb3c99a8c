# oxideav-g711

ITU-T G.711 µ-law and A-law companding as a Verus-verified library.

- `src/tables.rs` — the §2 / §3 decode and encode formulas, with their
  mathematical statement (`*_decode_spec`, `*_encode_spec`) as the contract.
- `src/mulaw.rs`, `src/alaw.rs` — per-sample and per-slice conversions,
  µ-law all-zero suppression (§3.2), and the stream decoder / encoder state
  machines (packet bookkeeping, channel-count checks, packet queue).
- `src/pcm.rs` — little-endian S16 byte pairs, frames, packets and codec errors.
- `src/laws.rs` — properties proved over the whole domains: sign symmetry,
  codeword recovery, projection, quantisation error bound, monotonicity,
  reconstruction lattice, the all-zero-octet inputs, stream round trips and
  cross-law transcoding.
- `src/tandem.rs` — tandem µ ↔ A conversion: the exact codewords a round
  trip changes (§3.6 equipment option), and that it settles after one crossing.
- `src/pipeline.rs` — whole-buffer encode-then-decode of S16 PCM.
- `app/` — the oxideav-core `Decoder` / `Encoder` objects over the library
  and `register`, which installs them under the G.711 codec ids.

Every function in `src/` is verified by Verus; the tests under `tests/` run
the library on the full 8-bit and 16-bit domains.
