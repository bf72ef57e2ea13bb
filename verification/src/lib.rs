//! A binary fuse filter: a compact, probabilistic set-membership structure
//! that stores small fingerprints of hashed items.

pub mod fingerprint;
pub mod siphash;
pub mod filter;

pub use fingerprint::FingerprintSize;
pub use filter::{BinaryFuseFilter, FilterStats, FilterView, NUM_SEGMENTS, PROBE_COUNT};
pub mod laws;
