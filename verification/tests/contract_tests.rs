use bff::BinaryFuseFilter;
use bff::FingerprintSize;

// Two hashes whose first probe lands on the same slot of a 16-bit filter made for 100
// elements, with different top 16 bits.
const SLOT_A: u64 = 0x1234;
const SLOT_A_OTHER_FP: u64 = 0x34ecf2ede4cd6075;
// A hash with the same first slot whose top 16 bits are zero, like SLOT_A's.
const SLOT_A_SAME_FP: u64 = 0x89996ec15d38;
// A third hash with the same first slot, and another nonzero fingerprint.
const SLOT_A_SHARED: u64 = 0xc76abf436fa84dca;
// A hash in another slot.
const SLOT_B: u64 = 0x0c6e5973286bef29;
// A hash in SLOT_B's slot whose top 16 bits are zero.
const SLOT_B_ZERO_FP: u64 = 0xfbb442553a33;

#[test]
fn fingerprint_size_bits_mask_default() {
    assert_eq!(FingerprintSize::Bits8.bits(), 8);
    assert_eq!(FingerprintSize::Bits16.bits(), 16);
    assert_eq!(FingerprintSize::Bits8.mask(), 0xff);
    assert_eq!(FingerprintSize::Bits16.mask(), 0xffff);
    assert_eq!(FingerprintSize::default(), FingerprintSize::Bits16);
}

#[test]
fn capacity_and_memory_are_exact() {
    let f = BinaryFuseFilter::new(100, FingerprintSize::Bits16);
    assert_eq!(f.capacity(), 100);
    assert_eq!(f.memory_usage(), 200);
    let f = BinaryFuseFilter::new(101, FingerprintSize::Bits16);
    assert_eq!(f.capacity(), 102);
    assert_eq!(f.memory_usage(), 204);
    let f = BinaryFuseFilter::new(0, FingerprintSize::Bits8);
    assert_eq!(f.capacity(), 2);
    assert_eq!(f.memory_usage(), 2);
    assert_eq!(f.fingerprint_size(), FingerprintSize::Bits8);
}

#[test]
fn narrow_fingerprints_take_half_the_memory() {
    for capacity in [0usize, 1, 7, 100, 1001] {
        let f8 = BinaryFuseFilter::new(capacity, FingerprintSize::Bits8);
        let f16 = BinaryFuseFilter::new(capacity, FingerprintSize::Bits16);
        assert_eq!(f8.memory_usage() * 2, f16.memory_usage());
    }
}

#[test]
fn hash_item_values() {
    let f = BinaryFuseFilter::new(100, FingerprintSize::Bits16);
    assert_eq!(f.hash_item(&"hello"), 0xaa8b32e17ecd5dc6);
    assert_eq!(f.hash_item(&42u32), 0xd7c60549b5ffe56f);
    assert_eq!(f.hash_item(&vec![1, 2, 3]), 0x05211b919342eca0);
    assert_eq!(f.hash_item(&"binary fuse filter"), 0xeaef4cead5e21730);
    let g = BinaryFuseFilter::with_seed(100, FingerprintSize::Bits16, 12345);
    assert_eq!(g.hash_item(&"binary fuse filter"), 0xa8e13f8384bd880b);
}

#[test]
fn add_goes_through_the_item_hash() {
    let mut f = BinaryFuseFilter::new(100, FingerprintSize::Bits16);
    let h = f.hash_item(&"hello");
    assert!(!f.contains_hash(h));
    f.add(&"hello");
    assert!(f.contains_hash(h));
    assert_eq!(f.len(), 1);
    assert!(!f.is_empty());
}

#[test]
fn fresh_filter_finds_zero_fingerprints() {
    let f = BinaryFuseFilter::new(100, FingerprintSize::Bits16);
    assert!(f.contains_hash(0));
    assert!(f.contains_hash(SLOT_A));
    assert!(!f.contains_hash(SLOT_A_OTHER_FP));
    assert!(!f.contains_hash(SLOT_B));
}

#[test]
fn added_hash_is_found() {
    let mut f = BinaryFuseFilter::new(100, FingerprintSize::Bits16);
    f.add_hash(SLOT_B);
    assert!(f.contains_hash(SLOT_B));
    f.add_hash(SLOT_A_OTHER_FP);
    assert!(f.contains_hash(SLOT_A_OTHER_FP));
    assert!(f.contains_hash(SLOT_B));
    assert_eq!(f.len(), 2);
}

#[test]
fn shared_slot_keeps_both_elements() {
    let mut f = BinaryFuseFilter::new(100, FingerprintSize::Bits16);
    f.add_hash(SLOT_A_OTHER_FP);
    assert!(!f.contains_hash(SLOT_A_SHARED));
    f.add_hash(SLOT_A_SHARED);
    assert!(f.contains_hash(SLOT_A_SHARED));
    assert!(f.contains_hash(SLOT_A_OTHER_FP));
}

#[test]
fn adding_twice_changes_only_the_count() {
    let mut f = BinaryFuseFilter::new(100, FingerprintSize::Bits16);
    f.add_hash(SLOT_B);
    let memory = f.memory_usage();
    f.add_hash(SLOT_B);
    assert_eq!(f.len(), 2);
    assert_eq!(f.memory_usage(), memory);
    assert!(f.contains_hash(SLOT_B));
    assert!(!f.contains_hash(SLOT_A_OTHER_FP));
}

#[test]
fn full_slots_overflow_without_losing_elements() {
    // Two segments of one slot each: every probe of a hash lands in the same slot.
    let mut f = BinaryFuseFilter::new(2, FingerprintSize::Bits16);
    // The first has a zero fingerprint, the third finds the slot taken.
    let hashes = [0x1u64, 0x1110_0000_0000_0000, 0x2220_0000_0000_0000];
    for h in hashes {
        f.add_hash(h);
    }
    for h in hashes {
        assert!(f.contains_hash(h));
    }
    assert!(!f.contains_hash(0x3330_0000_0000_0000));
    assert_eq!(f.len(), 3);
    assert_eq!(f.memory_usage(), 4);
}

#[test]
fn eight_bit_fingerprint_is_top_byte() {
    let mut f = BinaryFuseFilter::new(100, FingerprintSize::Bits8);
    f.add_hash(0xab00_0000_0000_0000);
    assert!(f.contains_hash(0xab00_0000_0000_0000));
    assert_eq!(f.stats().memory_bytes, 100);
}

#[test]
fn merge_twice_restores() {
    let mut a = BinaryFuseFilter::new(100, FingerprintSize::Bits16);
    let mut b = BinaryFuseFilter::new(100, FingerprintSize::Bits16);
    a.add(&"hello");
    b.add(&"world");
    a.merge(&b);
    assert_eq!(a.len(), 2);
    a.merge(&b);
    assert_eq!(a.len(), 3);
    assert!(a.contains(&"hello"));
}

#[test]
fn merge_xors_fingerprints() {
    let mut a = BinaryFuseFilter::new(100, FingerprintSize::Bits16);
    let mut b = BinaryFuseFilter::new(100, FingerprintSize::Bits16);
    a.add_hash(SLOT_B);
    b.add_hash(SLOT_B);
    a.merge(&b);
    // The fingerprint xored with itself leaves zero in the slot.
    assert!(!a.contains_hash(SLOT_B));
    assert!(a.contains_hash(SLOT_B_ZERO_FP));
}

#[test]
fn merge_with_fresh_filter_keeps_lookups() {
    let mut a = BinaryFuseFilter::new(100, FingerprintSize::Bits16);
    a.add(&"hello");
    let fresh = BinaryFuseFilter::new(40, FingerprintSize::Bits8);
    a.merge(&fresh);
    assert!(a.contains(&"hello"));
    assert_eq!(a.len(), 1);
    assert_eq!(a.memory_usage(), 200);
}

#[test]
fn stats_report_the_filter() {
    let mut f = BinaryFuseFilter::with_seed(10, FingerprintSize::Bits8, 7);
    f.add(&1u8);
    let s = f.stats();
    assert_eq!(s.size, 1);
    assert_eq!(s.capacity, 10);
    assert_eq!(s.fingerprint_bits, 8);
    assert_eq!(s.num_segments, 2);
    assert_eq!(s.memory_bytes, 10);
}

#[test]
fn seed_only_changes_hashing() {
    let mut a = BinaryFuseFilter::new(100, FingerprintSize::Bits16);
    let mut b = BinaryFuseFilter::with_seed(100, FingerprintSize::Bits16, 99);
    for h in [SLOT_A, SLOT_A_OTHER_FP, SLOT_B] {
        a.add_hash(h);
        b.add_hash(h);
    }
    for h in [SLOT_A, SLOT_A_OTHER_FP, SLOT_B, SLOT_A_SAME_FP, SLOT_B_ZERO_FP] {
        assert_eq!(a.contains_hash(h), b.contains_hash(h));
    }
    assert_eq!(a.len(), b.len());
    assert_eq!(a.memory_usage(), b.memory_usage());
}

#[test]
fn merge_twice_restores_lookups() {
    let mut f = BinaryFuseFilter::new(100, FingerprintSize::Bits16);
    let mut g = BinaryFuseFilter::new(100, FingerprintSize::Bits16);
    g.add_hash(SLOT_B);
    g.add_hash(1);
    assert!(!f.contains_hash(SLOT_B));
    f.merge(&g);
    assert!(f.contains_hash(SLOT_B));
    f.merge(&g);
    assert!(!f.contains_hash(SLOT_B));
    assert!(f.contains_hash(1));
    assert!(!f.contains_hash(SLOT_A_OTHER_FP));
    assert_eq!(f.len(), 4);
}

#[test]
fn merge_order_does_not_matter() {
    let mut a = BinaryFuseFilter::new(100, FingerprintSize::Bits16);
    let mut b = BinaryFuseFilter::new(100, FingerprintSize::Bits16);
    a.add_hash(SLOT_A_OTHER_FP);
    a.add_hash(1);
    b.add_hash(SLOT_B);
    b.add_hash(2);
    let mut ab = BinaryFuseFilter::new(100, FingerprintSize::Bits16);
    ab.merge(&a);
    ab.merge(&b);
    let mut ba = BinaryFuseFilter::new(100, FingerprintSize::Bits16);
    ba.merge(&b);
    ba.merge(&a);
    for h in [SLOT_A, SLOT_A_OTHER_FP, SLOT_A_SHARED, SLOT_B, SLOT_B_ZERO_FP, 1, 2, 3] {
        assert_eq!(ab.contains_hash(h), ba.contains_hash(h));
    }
    assert_eq!(ab.len(), ba.len());
}
