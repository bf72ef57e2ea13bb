# bff

A binary fuse filter in Verus: a byte array of 8- or 16-bit fingerprints,
split into two segments, filled and queried through a 64-bit SipHash-style
hash of each item.

- `src/fingerprint.rs` — the fingerprint widths.
- `src/siphash.rs` — the hasher, its specification (`spec_write`,
  `spec_finish`, `sip_digest`), and what a write leaves pending
  (`lemma_write_pending`).
- `src/filter.rs` — the filter, its abstract state `FilterView`, and the
  operations stated over it. An addition stores a nonzero fingerprint at the
  first of `PROBE_COUNT` probed slots that is zero or already holds it, else
  it keeps the hash in an overflow set; nonzero slots are never changed by an
  addition. Merging xors the fingerprint arrays and the overflow sets.
- `src/laws.rs` — properties across operations: every hash added is found
  (no false negatives), a repeated addition changes only the count, fresh
  filters, seeds only change hashing, merging twice restores every lookup,
  merging is symmetric.
