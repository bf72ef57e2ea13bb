//! The filter itself: a byte array of fingerprints, split into segments.
//!
//! An item is hashed to 64 bits. Bit 48 of the hash picks one of the
//! segments; for each of `PROBE_COUNT` probes a mix of the hash picks a
//! position inside it. The top bits of the hash are the fingerprint (one
//! byte, or two bytes in little-endian order); a zero slot is a free slot.
//! An addition stores a nonzero fingerprint at the first probed slot that is
//! free or already holds it; a hash whose fingerprint is zero, or whose
//! probed slots all hold other fingerprints, goes to an overflow set. A
//! lookup answers yes when a probed slot holds the fingerprint or the hash
//! is in the overflow set. An addition never changes a nonzero slot, so
//! every hash added is found afterwards.
//!
//! The abstract state of a filter is a `FilterView`; every operation is
//! stated as a function on views.

use vstd::prelude::*;
use core::hash::{Hash, Hasher};
use crate::fingerprint::FingerprintSize;
use crate::siphash::{SipHasher, spec_new, spec_write_all, is_sip_digest, sip_digest, wadd, wmul, avalanche};

verus! {

/// Number of segments the hash space is divided into.
pub const NUM_SEGMENTS: usize = 2;

/// Number of alternative positions tried for an element, in order.
pub const PROBE_COUNT: usize = 3;

/// The fingerprint of a hash: its top `fingerprint_size` bits.
pub open spec fn fingerprint_of(hash: u64, fingerprint_size: FingerprintSize) -> u64 {
    (hash >> (64 - fingerprint_size.spec_bits()) as u64) & fingerprint_size.spec_mask()
}

/// The segment of a hash: bit 48 of the hash.
pub open spec fn segment_of(hash: u64) -> nat {
    ((hash >> 48u64) as usize % NUM_SEGMENTS) as nat
}

/// The position a hash takes inside a segment of `segment_length` slots, for
/// a given probe: the hash offset by the segment and the probe, mixed, and
/// reduced modulo the segment length (taken as at least 1).
#[verifier::opaque]
pub open spec fn position_of(hash: u64, segment: nat, segment_length: nat, probe: nat) -> nat {
    let h = wadd(
        wadd(hash, wmul(segment as u64, 0x9e3779b97f4a7c15u64)),
        wmul(probe as u64, 0x7f4a7c159e3779b7u64),
    );
    let mixed = avalanche(h ^ (h >> 33u64));
    let m = if segment_length > 1 { segment_length } else { 1 };
    ((mixed as usize) as nat) % m
}

/// The segment length of a filter made for `capacity` elements: half the
/// capacity rounded up, and at least 1.
pub open spec fn segment_length_for(capacity: nat) -> nat {
    let half = capacity / 2 + capacity % 2;
    if half > 1 {
        half
    } else {
        1
    }
}

/// The number of bytes of the fingerprint array of a filter made for `capacity`
/// elements.
pub open spec fn byte_len_for(capacity: nat, fingerprint_size: FingerprintSize) -> nat {
    segment_length_for(capacity) * NUM_SEGMENTS as nat * fingerprint_size.spec_bytes()
}

/// The abstract state of a filter.
#[verifier::ext_equal]
pub struct FilterView {
    /// The fingerprint array.
    pub bytes: Seq<u8>,
    /// Hashes kept outside the fingerprint array.
    pub overflow: Set<u64>,
    /// The number of elements added.
    pub size: nat,
    /// The number of fingerprint slots per segment.
    pub segment_length: nat,
    /// The hashing seed.
    pub seed: u64,
    /// The fingerprint width.
    pub fingerprint_size: FingerprintSize,
}

/// A fresh filter: all fingerprints zero, nothing added.
pub open spec fn new_view(capacity: nat, fingerprint_size: FingerprintSize, seed: u64) -> FilterView {
    FilterView {
        bytes: Seq::new(byte_len_for(capacity, fingerprint_size), |i: int| 0u8),
        overflow: Set::empty(),
        size: 0,
        segment_length: segment_length_for(capacity),
        seed,
        fingerprint_size,
    }
}

impl FilterView {
    /// Bytes per fingerprint.
    pub open spec fn bytes_per_fingerprint(self) -> nat {
        self.fingerprint_size.spec_bytes()
    }

    /// The number of fingerprint slots.
    pub open spec fn capacity(self) -> nat {
        self.segment_length * NUM_SEGMENTS as nat
    }

    /// The shape that every filter keeps: segments of at least one slot and
    /// a fingerprint array of exactly one fingerprint per slot.
    pub open spec fn wf(self) -> bool {
        &&& self.segment_length >= 1
        &&& self.bytes.len() == self.capacity() * self.bytes_per_fingerprint()
    }

    /// The slot that `hash` probes at probe number `probe`: its segment, then
    /// its position there for that probe.
    pub open spec fn probe_slot(self, hash: u64, probe: nat) -> nat {
        let segment = segment_of(hash);
        segment * self.segment_length + position_of(hash, segment, self.segment_length, probe)
            % self.segment_length
    }

    /// The fingerprint stored at byte offset `offset` (two bytes are read
    /// little-endian).
    pub open spec fn stored_at(self, offset: int) -> u64 {
        match self.fingerprint_size {
            FingerprintSize::Bits8 => self.bytes[offset] as u64,
            FingerprintSize::Bits16 => (self.bytes[offset] as u64) | ((self.bytes[offset + 1] as u64)
                << 8u64),
        }
    }

    /// The fingerprint stored in slot `slot`.
    pub open spec fn slot_fingerprint(self, slot: nat) -> u64 {
        self.stored_at((slot * self.bytes_per_fingerprint()) as int)
    }

    /// Slot `slot` can take `fingerprint`: it is free (zero) or already holds it.
    pub open spec fn fits_at(self, slot: nat, fingerprint: u64) -> bool {
        self.slot_fingerprint(slot) == 0 || self.slot_fingerprint(slot) == fingerprint
    }

    /// The first probe, from `probe` on, whose slot can take the fingerprint
    /// of `hash`.
    pub open spec fn first_fit(self, hash: u64, probe: nat) -> Option<nat>
        decreases PROBE_COUNT - probe,
    {
        if probe >= PROBE_COUNT {
            None
        } else if self.fits_at(self.probe_slot(hash, probe), fingerprint_of(hash, self.fingerprint_size)) {
            Some(probe)
        } else {
            self.first_fit(hash, probe + 1)
        }
    }

    /// One of the slots probed for `hash` holds its fingerprint.
    pub open spec fn probes_hold(self, hash: u64) -> bool {
        exists|p: nat|
            p < PROBE_COUNT && #[trigger] self.slot_fingerprint(self.probe_slot(hash, p))
                == fingerprint_of(hash, self.fingerprint_size)
    }

    /// A filter answers yes for `hash` when one of its probed slots holds its
    /// fingerprint, or when it is in the overflow set.
    pub open spec fn contains_hash(self, hash: u64) -> bool {
        self.probes_hold(hash) || self.overflow.contains(hash)
    }

    /// `hash` is held for good: in the overflow set, or by a probed slot whose
    /// (nonzero) fingerprint no addition changes.
    pub open spec fn holds_hash(self, hash: u64) -> bool {
        ||| fingerprint_of(hash, self.fingerprint_size) != 0 && self.probes_hold(hash)
        ||| self.overflow.contains(hash)
    }

    /// The fingerprint array with `fingerprint` written at byte offset `offset`.
    pub open spec fn store_at(self, offset: int, fingerprint: u64) -> Seq<u8> {
        match self.fingerprint_size {
            FingerprintSize::Bits8 => self.bytes.update(offset, fingerprint as u8),
            FingerprintSize::Bits16 => self.bytes.update(offset, fingerprint as u8).update(
                offset + 1,
                (fingerprint >> 8u64) as u8,
            ),
        }
    }

    /// The filter after adding `hash`: a nonzero fingerprint goes to the first
    /// probed slot that can take it; a zero fingerprint, or one that no probed
    /// slot can take, puts the hash in the overflow set. One more element is
    /// counted.
    pub open spec fn add_hash(self, hash: u64) -> FilterView {
        let fingerprint = fingerprint_of(hash, self.fingerprint_size);
        match self.first_fit(hash, 0) {
            Some(p) if fingerprint != 0 => {
                let slot = self.probe_slot(hash, p);
                FilterView {
                    bytes: self.store_at((slot * self.bytes_per_fingerprint()) as int, fingerprint),
                    size: self.size + 1,
                    ..self
                }
            },
            _ => FilterView { overflow: self.overflow.insert(hash), size: self.size + 1, ..self },
        }
    }

    /// The filter after merging `other` into it: the common prefix of the two
    /// fingerprint arrays is xored into this one, the overflow sets are
    /// combined by symmetric difference (the xor of sets), and the sizes add
    /// up, saturating at `usize::MAX`.
    pub open spec fn merge(self, other: FilterView) -> FilterView {
        FilterView {
            bytes: Seq::new(
                self.bytes.len(),
                |i: int|
                    if i < other.bytes.len() {
                        self.bytes[i] ^ other.bytes[i]
                    } else {
                        self.bytes[i]
                    },
            ),
            overflow: self.overflow.difference(other.overflow).union(
                other.overflow.difference(self.overflow),
            ),
            size: if self.size + other.size > usize::MAX {
                usize::MAX as nat
            } else {
                self.size + other.size
            },
            ..self
        }
    }

    /// Within a well-formed view every slot's fingerprint lies inside the
    /// fingerprint array.
    pub proof fn lemma_slot_in_bounds(self, slot: nat)
        requires
            self.wf(),
            slot < self.capacity(),
        ensures
            self.capacity() <= self.bytes.len(),
            slot * self.bytes_per_fingerprint() + self.bytes_per_fingerprint() <= self.bytes.len(),
    {
        let b = self.bytes_per_fingerprint();
        let c = self.capacity();
        assert(b == 1 || b == 2);
        assert(c <= c * b) by (nonlinear_arith)
            requires
                b >= 1,
        ;
        assert(slot * b + b == (slot + 1) * b) by (nonlinear_arith);
        assert((slot + 1) * b <= c * b) by (nonlinear_arith)
            requires
                slot + 1 <= c,
                b >= 1,
        ;
    }

    /// Every probe of every hash lands on a slot of the filter, whose
    /// fingerprint lies inside the fingerprint array.
    pub proof fn lemma_probe_in_range(self, hash: u64, probe: nat)
        requires
            self.wf(),
        ensures
            self.probe_slot(hash, probe) < self.capacity(),
            self.probe_slot(hash, probe) * self.bytes_per_fingerprint() + self.bytes_per_fingerprint()
                <= self.bytes.len(),
    {
        let seg = segment_of(hash);
        let len = self.segment_length;
        let p = position_of(hash, seg, len, probe) % len;
        assert(seg * len + p < len * 2) by (nonlinear_arith)
            requires
                seg < 2,
                p < len,
        ;
        self.lemma_slot_in_bounds(self.probe_slot(hash, probe));
    }
}

/// A binary fuse filter with configurable fingerprint size.
///
/// False positives are possible (the filter may answer yes for an element
/// never added), false negatives are not: every hash added is found, so an
/// item is found whenever its `Hash` impl writes the bytes it wrote when the
/// item was added.
pub struct BinaryFuseFilter {
    /// The fingerprint array - stores fingerprints (u8 or u16 based on size)
    fingerprints: Vec<u8>,
    /// Hashes kept outside the fingerprint array, each once
    overflow: Vec<u64>,
    /// The size of the filter (number of elements added)
    size: usize,
    /// Segment length (fingerprints per segment)
    segment_length: usize,
    /// Salt for hashing to create variation between filters
    seed: u64,
    /// Fingerprint size (8 or 16 bits)
    fingerprint_size: FingerprintSize,
}

impl View for BinaryFuseFilter {
    type V = FilterView;

    closed spec fn view(&self) -> FilterView {
        FilterView {
            bytes: self.fingerprints@,
            overflow: self.overflow@.to_set(),
            size: self.size as nat,
            segment_length: self.segment_length as nat,
            seed: self.seed,
            fingerprint_size: self.fingerprint_size,
        }
    }
}

/// Statistics about a BinaryFuseFilter.
#[derive(Debug, Clone)]
pub struct FilterStats {
    /// Number of elements in the filter
    pub size: usize,
    /// Maximum capacity
    pub capacity: usize,
    /// Fingerprint size in bits
    pub fingerprint_bits: usize,
    /// Number of segments
    pub num_segments: usize,
    /// Memory usage in bytes
    pub memory_bytes: usize,
}

/// Feeds `item` to `hasher` through `item`'s `Hash` impl.
///
/// Calls `<T as core::hash::Hash>::hash`. The contract claims only that the
/// hasher ends in the state that some sequence of `write` calls leads to:
/// `hash` receives nothing but `&mut SipHasher`, whose only state-changing
/// method is `write` (every other `Hasher` method defaults to it). Which bytes
/// are written depends on `T`'s impl and is left unsaid.
#[verifier::external_body]
fn feed_item<T: Hash>(item: &T, hasher: &mut SipHasher)
    ensures
        exists|writes: Seq<Seq<u8>>|
            final(hasher).state() == spec_write_all(old(hasher).state(), writes),
{
    item.hash(hasher)
}

impl BinaryFuseFilter {
    #[verifier::type_invariant]
    spec fn well_formed(self) -> bool {
        &&& self@.wf()
        &&& self.fingerprints@.len() <= usize::MAX
        &&& self.overflow@.no_duplicates()
    }

    /// Creates an empty filter for `capacity` elements with the given
    /// fingerprint size and seed 0.
    ///
    /// The segment length is half the capacity rounded up (at least 1); there
    /// are `NUM_SEGMENTS` segments, and every fingerprint is zero. The capacity is at most 2^53 and the fingerprint array at most
    /// `isize::MAX` bytes: no larger array can be allocated.
    pub fn new(capacity: usize, fingerprint_size: FingerprintSize) -> (r: Self)
        requires
            capacity <= 0x20_0000_0000_0000,
            byte_len_for(capacity as nat, fingerprint_size) <= isize::MAX,
        ensures
            r@ == new_view(capacity as nat, fingerprint_size, 0),
            r@.wf(),
    {
        let half = capacity / 2 + capacity % 2;
        let segment_length: usize = if half > 1 { half } else { 1 };
        proof {
            let b = fingerprint_size.spec_bytes();
            assert(segment_length * 2 <= segment_length * 2 * b) by (nonlinear_arith)
                requires
                    b >= 1,
            ;
        }
        let fingerprint_count: usize = segment_length * NUM_SEGMENTS;
        let bytes_per_fp: usize = fingerprint_size.bits() / 8;
        assert(fingerprint_count * bytes_per_fp == byte_len_for(capacity as nat, fingerprint_size));
        let total_bytes: usize = fingerprint_count * bytes_per_fp;
        let fingerprints = vec![0u8; total_bytes];
        let overflow: Vec<u64> = Vec::new();
        assert(fingerprints@ =~= Seq::new(total_bytes as nat, |i: int| 0u8));
        assert(overflow@.to_set() =~= Set::<u64>::empty());
        BinaryFuseFilter {
            fingerprints,
            overflow,
            size: 0,
            segment_length,
            seed: 0,
            fingerprint_size,
        }
    }

    /// Creates an empty filter like `new`, hashing with `seed`.
    pub fn with_seed(capacity: usize, fingerprint_size: FingerprintSize, seed: u64) -> (r: Self)
        requires
            capacity <= 0x20_0000_0000_0000,
            byte_len_for(capacity as nat, fingerprint_size) <= isize::MAX,
        ensures
            r@ == new_view(capacity as nat, fingerprint_size, seed),
            r@.wf(),
    {
        let mut filter = Self::new(capacity, fingerprint_size);
        proof {
            use_type_invariant(&filter);
        }
        filter.seed = seed;
        filter
    }

    /// Returns the number of elements added.
    pub fn len(&self) -> (r: usize)
        ensures
            r == self@.size,
            self@.wf(),
    {
        proof {
            use_type_invariant(self);
        }
        self.size
    }

    /// Returns true if no elements have been added.
    pub fn is_empty(&self) -> (r: bool)
        ensures
            r == (self@.size == 0),
    {
        self.size == 0
    }

    /// Returns the fingerprint size used by this filter.
    pub fn fingerprint_size(&self) -> (r: FingerprintSize)
        ensures
            r == self@.fingerprint_size,
    {
        self.fingerprint_size
    }

    /// Returns the number of fingerprint slots.
    pub fn capacity(&self) -> (r: usize)
        ensures
            r == self@.capacity(),
    {
        proof {
            use_type_invariant(self);
            self@.lemma_slot_in_bounds(0);
        }
        self.segment_length * NUM_SEGMENTS
    }

    /// Returns the number of bytes of the fingerprint array.
    pub fn memory_usage(&self) -> (r: usize)
        ensures
            r == self@.bytes.len(),
    {
        self.fingerprints.len()
    }

    /// Computes the fingerprint of a hash: its top `fingerprint_size` bits.
    fn fingerprint(hash: u64, fingerprint_size: FingerprintSize) -> (r: u64)
        ensures
            r == fingerprint_of(hash, fingerprint_size),
    {
        (hash >> (64 - fingerprint_size.bits())) & fingerprint_size.mask()
    }

    /// Computes the segment index of a hash (0 to NUM_SEGMENTS-1).
    fn get_segment_index(hash: u64) -> (r: usize)
        ensures
            r == segment_of(hash),
            r < NUM_SEGMENTS,
    {
        ((hash >> 48u64) as usize) % NUM_SEGMENTS
    }

    /// Computes the position within a segment for a given hash and probe.
    fn get_position(hash: u64, segment: usize, segment_length: usize, probe: usize) -> (r: usize)
        ensures
            r == position_of(hash, segment as nat, segment_length as nat, probe as nat),
            r < if segment_length > 1 { segment_length } else { 1 },
    {
        let mut h = hash.wrapping_add((segment as u64).wrapping_mul(0x9e3779b97f4a7c15u64)).wrapping_add(
            (probe as u64).wrapping_mul(0x7f4a7c159e3779b7u64),
        );
        h = h ^ (h >> 33u64);
        h = h.wrapping_mul(0xff51afd7ed558ccdu64);
        h = h ^ (h >> 33u64);
        h = h.wrapping_mul(0xc4ceb9fe1a85ec53u64);
        h = h ^ (h >> 33u64);
        let m: usize = if segment_length > 1 { segment_length } else { 1 };
        proof {
            reveal(position_of);
        }
        (h as usize) % m
    }

    /// Computes the slot that `hash` probes at probe number `probe`.
    fn get_probe_slot(&self, hash: u64, probe: usize) -> (r: usize)
        ensures
            r == self@.probe_slot(hash, probe as nat),
            r < self@.capacity(),
            r * self@.bytes_per_fingerprint() + self@.bytes_per_fingerprint() <= self@.bytes.len(),
    {
        proof {
            use_type_invariant(self);
            self@.lemma_probe_in_range(hash, probe as nat);
        }
        let segment = Self::get_segment_index(hash);
        let position = Self::get_position(hash, segment, self.segment_length, probe);
        let pos = position % self.segment_length;
        proof {
            let len = self@.segment_length;
            assert(segment * len + pos < len * 2) by (nonlinear_arith)
                requires
                    segment < 2,
                    pos < len,
            ;
            self@.lemma_slot_in_bounds(0);
        }
        segment * self.segment_length + pos
    }

    /// Computes the byte offset in the fingerprint array of a slot.
    fn get_fingerprint_index(&self, slot: usize) -> (r: usize)
        requires
            slot < self@.capacity(),
        ensures
            r == slot * self@.bytes_per_fingerprint(),
            r + self@.bytes_per_fingerprint() <= self@.bytes.len(),
    {
        proof {
            use_type_invariant(self);
            self@.lemma_slot_in_bounds(slot as nat);
        }
        let bytes_per_fp = self.fingerprint_size.bits() / 8;
        slot * bytes_per_fp
    }

    /// Reads the fingerprint stored at byte offset `index`.
    fn read_fingerprint(&self, index: usize) -> (r: u64)
        requires
            index + self@.bytes_per_fingerprint() <= self@.bytes.len(),
        ensures
            r == self@.stored_at(index as int),
    {
        proof {
            use_type_invariant(self);
        }
        match self.fingerprint_size {
            FingerprintSize::Bits8 => self.fingerprints[index] as u64,
            FingerprintSize::Bits16 => {
                // For 16-bit, read two bytes (little-endian)
                let low = self.fingerprints[index] as u64;
                let high = self.fingerprints[index + 1] as u64;
                low | (high << 8u64)
            },
        }
    }

    /// Computes the 64-bit hash of `item` under `seed`.
    fn compute_hash<T: Hash>(item: &T, seed: u64) -> (h: u64)
        ensures
            is_sip_digest(seed, h),
    {
        let mut hasher = SipHasher::new(seed);
        feed_item(item, &mut hasher);
        let h = hasher.finish();
        proof {
            let writes = choose|writes: Seq<Seq<u8>>|
                hasher.state() == spec_write_all(spec_new(seed), writes);
            assert(h == sip_digest(seed, writes));
        }
        h
    }

    /// Returns the 64-bit hash this filter uses for `item`.
    pub fn hash_item<T: Hash>(&self, item: &T) -> (h: u64)
        ensures
            is_sip_digest(self@.seed, h),
    {
        Self::compute_hash(item, self.seed)
    }

    /// Checks whether `hash` is in the overflow set.
    fn overflow_contains(&self, hash: u64) -> (r: bool)
        ensures
            r == self@.overflow.contains(hash),
    {
        find_index(&self.overflow, hash).is_some()
    }

    /// Adds the element whose hash is `hash`: a nonzero fingerprint goes to
    /// the first probed slot that is free or already holds it; otherwise the
    /// hash joins the overflow set. The element count goes up by one.
    pub fn add_hash(&mut self, hash: u64)
        requires
            old(self)@.size < usize::MAX,
        ensures
            final(self)@ == old(self)@.add_hash(hash),
            final(self)@.wf(),
    {
        proof {
            use_type_invariant(&*self);
        }
        let fingerprint = Self::fingerprint(hash, self.fingerprint_size);
        if fingerprint != 0 {
            let mut probe: usize = 0;
            while probe < PROBE_COUNT
                invariant
                    self@ == old(self)@,
                    old(self)@.wf(),
                    old(self)@.size < usize::MAX,
                    fingerprint == fingerprint_of(hash, old(self)@.fingerprint_size),
                    fingerprint != 0,
                    probe <= PROBE_COUNT,
                    old(self)@.first_fit(hash, 0) == old(self)@.first_fit(hash, probe as nat),
                decreases PROBE_COUNT - probe,
            {
                proof {
                    use_type_invariant(&*self);
                }
                let slot = self.get_probe_slot(hash, probe);
                let index = self.get_fingerprint_index(slot);
                let stored = self.read_fingerprint(index);
                if stored == 0 || stored == fingerprint {
                    // Store fingerprint (the slot is free or already holds it)
                    match self.fingerprint_size {
                        FingerprintSize::Bits8 => {
                            self.fingerprints[index] = fingerprint as u8;
                        },
                        FingerprintSize::Bits16 => {
                            // For 16-bit, store as two bytes (little-endian)
                            self.fingerprints[index] = fingerprint as u8;
                            self.fingerprints[index + 1] = (fingerprint >> 8u64) as u8;
                        },
                    }
                    self.size = self.size + 1;
                    assert(self@.bytes =~= old(self)@.add_hash(hash).bytes);
                    return;
                }
                probe = probe + 1;
            }
        }
        proof {
            use_type_invariant(&*self);
        }
        if !self.overflow_contains(hash) {
            let mut overflow: Vec<u64> = Vec::new();
            core::mem::swap(&mut overflow, &mut self.overflow);
            proof {
                lemma_push_to_set(overflow@, hash);
            }
            overflow.push(hash);
            self.overflow = overflow;
        } else {
            assert(self@.overflow.insert(hash) =~= self@.overflow);
        }
        self.size = self.size + 1;
    }

    /// Adds an element to the filter.
    ///
    /// The element is hashed with the filter's seed and added as by `add_hash`.
    pub fn add<T: Hash>(&mut self, item: &T)
        requires
            old(self)@.size < usize::MAX,
        ensures
            exists|h: u64|
                is_sip_digest(old(self)@.seed, h) && final(self)@ == old(self)@.add_hash(h),
            final(self)@.wf(),
    {
        let hash = Self::compute_hash(item, self.seed);
        self.add_hash(hash);
    }

    /// Checks whether one of the slots probed for `hash` holds its
    /// fingerprint, or whether `hash` is in the overflow set.
    pub fn contains_hash(&self, hash: u64) -> (r: bool)
        ensures
            r == self@.contains_hash(hash),
    {
        proof {
            use_type_invariant(self);
        }
        let expected_fingerprint = Self::fingerprint(hash, self.fingerprint_size);
        let mut probe: usize = 0;
        while probe < PROBE_COUNT
            invariant
                self@.wf(),
                expected_fingerprint == fingerprint_of(hash, self@.fingerprint_size),
                probe <= PROBE_COUNT,
                forall|p: nat|
                    p < probe ==> #[trigger] self@.slot_fingerprint(self@.probe_slot(hash, p))
                        != expected_fingerprint,
            decreases PROBE_COUNT - probe,
        {
            let slot = self.get_probe_slot(hash, probe);
            let index = self.get_fingerprint_index(slot);
            if self.read_fingerprint(index) == expected_fingerprint {
                assert(self@.slot_fingerprint(self@.probe_slot(hash, probe as nat))
                    == expected_fingerprint);
                return true;
            }
            probe = probe + 1;
        }
        self.overflow_contains(hash)
    }

    /// Checks if the filter might contain the given element. The element is
    /// hashed with the filter's seed and looked up as by `contains_hash`:
    /// every hash added is found; a hash never added may be found too (a false
    /// positive).
    pub fn contains<T: Hash>(&self, item: &T) -> (r: bool)
        ensures
            exists|h: u64| is_sip_digest(self@.seed, h) && r == self@.contains_hash(h),
    {
        let hash = Self::compute_hash(item, self.seed);
        self.contains_hash(hash)
    }

    /// Merges another filter into this one: the common prefix of the two
    /// fingerprint arrays is xored into this one, the overflow sets are
    /// combined by symmetric difference, and the element counts add up,
    /// saturating.
    pub fn merge(&mut self, other: &BinaryFuseFilter)
        ensures
            final(self)@ == old(self)@.merge(other@),
            final(self)@.wf(),
    {
        proof {
            use_type_invariant(&*self);
            use_type_invariant(other);
        }
        let ghost old_bytes = self.fingerprints@;
        let n: usize = if self.fingerprints.len() < other.fingerprints.len() {
            self.fingerprints.len()
        } else {
            other.fingerprints.len()
        };
        let mut i: usize = 0;
        while i < n
            invariant
                n <= self.fingerprints.len(),
                n <= other.fingerprints.len(),
                n == self.fingerprints.len() || n == other.fingerprints.len(),
                i <= n,
                self.fingerprints@.len() == old_bytes.len(),
                self.overflow == old(self).overflow,
                self.size == old(self).size,
                self.segment_length == old(self).segment_length,
                self.seed == old(self).seed,
                self.fingerprint_size == old(self).fingerprint_size,
                old_bytes == old(self)@.bytes,
                forall|j: int|
                    0 <= j < i ==> #[trigger] self.fingerprints@[j] == old_bytes[j]
                        ^ other.fingerprints@[j],
                forall|j: int| i <= j < old_bytes.len() ==> #[trigger] self.fingerprints@[j] == old_bytes[j],
            decreases n - i,
        {
            proof {
                use_type_invariant(&*self);
            }
            let b = self.fingerprints[i] ^ other.fingerprints[i];
            self.fingerprints[i] = b;
            i = i + 1;
        }
        assert(self.fingerprints@ =~= old(self)@.merge(other@).bytes);
        let mut overflow: Vec<u64> = Vec::new();
        core::mem::swap(&mut overflow, &mut self.overflow);
        let ghost mine = overflow@.to_set();
        let mut t: usize = 0;
        while t < other.overflow.len()
            invariant
                t <= other.overflow@.len(),
                other.overflow@.no_duplicates(),
                overflow@.no_duplicates(),
                mine == old(self)@.overflow,
                overflow@.to_set() == mine.difference(other.overflow@.subrange(0, t as int).to_set()).union(
                    other.overflow@.subrange(0, t as int).to_set().difference(mine),
                ),
            decreases other.overflow@.len() - t,
        {
            let x = other.overflow[t];
            let ghost before = overflow@;
            let ghost pre = other.overflow@.subrange(0, t as int);
            let ghost pre1 = other.overflow@.subrange(0, (t + 1) as int);
            let ghost done = pre.to_set();
            let ghost next = pre1.to_set();
            proof {
                assert(!done.contains(x)) by {
                    if done.contains(x) {
                        let k = choose|k: int| 0 <= k < pre.len() && #[trigger] pre[k] == x;
                        assert(other.overflow@[k] == other.overflow@[t as int]);
                    }
                }
                assert forall|y: u64| #[trigger] next.contains(y) implies done.insert(x).contains(y) by {
                    let k = choose|k: int| 0 <= k < pre1.len() && #[trigger] pre1[k] == y;
                    if k < t {
                        assert(pre[k] == y);
                    }
                }
                assert forall|y: u64| #[trigger] done.insert(x).contains(y) implies next.contains(y) by {
                    if y == x {
                        assert(pre1[t as int] == x);
                    } else {
                        let k = choose|k: int| 0 <= k < pre.len() && #[trigger] pre[k] == y;
                        assert(pre1[k] == y);
                    }
                }
                assert(next =~= done.insert(x));
            }
            match find_index(&overflow, x) {
                Some(j) => {
                    proof {
                        lemma_remove_to_set(overflow@, j as int);
                    }
                    overflow.remove(j);
                    assert(overflow@.to_set() =~= before.to_set().remove(x));
                    assert(before.to_set().contains(x));
                    assert(mine.contains(x));
                },
                None => {
                    proof {
                        lemma_push_to_set(overflow@, x);
                    }
                    overflow.push(x);
                    assert(overflow@.to_set() =~= before.to_set().insert(x));
                    assert(!before.to_set().contains(x));
                    assert(!mine.contains(x));
                },
            }
            t = t + 1;
            assert(overflow@.to_set() =~= mine.difference(next).union(next.difference(mine)));
        }
        assert(other.overflow@.subrange(0, other.overflow@.len() as int) =~= other.overflow@);
        self.overflow = overflow;
        self.size = self.size.saturating_add(other.size);
    }

    /// Returns basic statistics about the filter.
    pub fn stats(&self) -> (r: FilterStats)
        ensures
            r.size == self@.size,
            r.capacity == self@.capacity(),
            r.fingerprint_bits == self@.fingerprint_size.spec_bits(),
            r.num_segments == NUM_SEGMENTS,
            r.memory_bytes == self@.bytes.len(),
    {
        FilterStats {
            size: self.size,
            capacity: self.capacity(),
            fingerprint_bits: self.fingerprint_size.bits(),
            num_segments: NUM_SEGMENTS,
            memory_bytes: self.memory_usage(),
        }
    }
}

/// The index of `x` in `v`, if it occurs.
fn find_index(v: &Vec<u64>, x: u64) -> (r: Option<usize>)
    ensures
        match r {
            Some(i) => i < v@.len() && v@[i as int] == x,
            None => !v@.contains(x),
        },
{
    let mut i: usize = 0;
    while i < v.len()
        invariant
            i <= v@.len(),
            forall|j: int| 0 <= j < i ==> v@[j] != x,
        decreases v@.len() - i,
    {
        if v[i] == x {
            return Some(i);
        }
        i = i + 1;
    }
    None
}

/// Pushing `x` onto a sequence without it adds `x` to its set and keeps it
/// free of duplicates.
proof fn lemma_push_to_set(s: Seq<u64>, x: u64)
    requires
        !s.contains(x),
        s.no_duplicates(),
    ensures
        s.push(x).to_set() =~= s.to_set().insert(x),
        s.push(x).no_duplicates(),
{
    let t = s.push(x);
    assert forall|y: u64| t.contains(y) implies s.to_set().insert(x).contains(y) by {
        let k = choose|k: int| 0 <= k < t.len() && t[k] == y;
        if k < s.len() {
            assert(s[k] == y);
        }
    }
    assert forall|y: u64| s.to_set().insert(x).contains(y) implies t.contains(y) by {
        if y == x {
            assert(t[s.len() as int] == x);
        } else {
            let k = choose|k: int| 0 <= k < s.len() && s[k] == y;
            assert(t[k] == y);
        }
    }
}

/// Removing the element at `i` from a sequence without duplicates removes
/// it from its set and keeps it free of duplicates.
proof fn lemma_remove_to_set(s: Seq<u64>, i: int)
    requires
        0 <= i < s.len(),
        s.no_duplicates(),
    ensures
        s.remove(i).to_set() =~= s.to_set().remove(s[i]),
        s.remove(i).no_duplicates(),
{
    let t = s.remove(i);
    assert forall|y: u64| t.contains(y) implies s.to_set().remove(s[i]).contains(y) by {
        let k = choose|k: int| 0 <= k < t.len() && t[k] == y;
        if k < i {
            assert(s[k] == y);
        } else {
            assert(s[k + 1] == y);
        }
    }
    assert forall|y: u64| s.to_set().remove(s[i]).contains(y) implies t.contains(y) by {
        let k = choose|k: int| 0 <= k < s.len() && s[k] == y;
        if k < i {
            assert(t[k] == y);
        } else {
            assert(k != i);
            assert(t[k - 1] == y);
        }
    }
    assert forall|a: int, b: int| 0 <= a < t.len() && 0 <= b < t.len() && a != b implies t[a] != t[b] by {
        let a2 = if a < i { a } else { a + 1 };
        let b2 = if b < i { b } else { b + 1 };
        assert(t[a] == s[a2]);
        assert(t[b] == s[b2]);
    }
}

} // verus!
