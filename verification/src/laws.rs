//! What holds of the filter across operations: additions never lose a hash,
//! repeated additions change only the count, the shape every operation
//! keeps, fresh filters, seeds, and merging.

use vstd::prelude::*;
use crate::fingerprint::FingerprintSize;
use crate::filter::{FilterView, PROBE_COUNT, fingerprint_of, new_view, byte_len_for, segment_length_for};

verus! {

/// The filter after adding each hash of `hashes`, in order.
pub open spec fn add_all(v: FilterView, hashes: Seq<u64>) -> FilterView
    decreases hashes.len(),
{
    if hashes.len() == 0 {
        v
    } else {
        add_all(v, hashes.drop_last()).add_hash(hashes.last())
    }
}

/// A fingerprint is at most the mask of its width.
pub proof fn lemma_fingerprint_fits(hash: u64, fingerprint_size: FingerprintSize)
    ensures
        fingerprint_of(hash, fingerprint_size) <= fingerprint_size.spec_mask(),
{
    match fingerprint_size {
        FingerprintSize::Bits8 => {
            assert((hash >> 56u64) & 0xffu64 <= 0xffu64) by (bit_vector);
        },
        FingerprintSize::Bits16 => {
            assert((hash >> 48u64) & 0xffffu64 <= 0xffffu64) by (bit_vector);
        },
    }
}

/// Writing a fingerprint into a slot: that slot then reads back the
/// fingerprint, and every other slot reads as before.
pub proof fn lemma_store_then_read(v: FilterView, slot: nat, fingerprint: u64, other: nat)
    requires
        v.wf(),
        slot < v.capacity(),
        other < v.capacity(),
        fingerprint <= v.fingerprint_size.spec_mask(),
    ensures
        ({
            let w = FilterView { bytes: v.store_at((slot * v.bytes_per_fingerprint()) as int, fingerprint), ..v };
            &&& w.slot_fingerprint(slot) == fingerprint
            &&& other != slot ==> w.slot_fingerprint(other) == v.slot_fingerprint(other)
        }),
{
    v.lemma_slot_in_bounds(slot);
    v.lemma_slot_in_bounds(other);
    let w = FilterView { bytes: v.store_at((slot * v.bytes_per_fingerprint()) as int, fingerprint), ..v };
    match v.fingerprint_size {
        FingerprintSize::Bits8 => {
            assert(fingerprint <= 0xffu64 ==> fingerprint as u8 as u64 == fingerprint) by (bit_vector);
            assert(slot * 1 == slot);
            assert(other * 1 == other);
        },
        FingerprintSize::Bits16 => {
            assert(fingerprint <= 0xffffu64 ==> ((fingerprint as u8) as u64) | (((fingerprint >> 8u64) as u8
                as u64) << 8u64) == fingerprint) by (bit_vector);
            if other != slot {
                assert(other * 2 != slot * 2 && other * 2 != slot * 2 + 1 && other * 2 + 1 != slot * 2);
                assert(w.bytes[(other * 2) as int] == v.bytes[(other * 2) as int]);
                assert(w.bytes[(other * 2 + 1) as int] == v.bytes[(other * 2 + 1) as int]);
            }
        },
    }
}

/// Writing into a slot the fingerprint it already holds changes nothing.
proof fn lemma_store_same(v: FilterView, slot: nat, fingerprint: u64)
    requires
        v.wf(),
        slot < v.capacity(),
        fingerprint <= v.fingerprint_size.spec_mask(),
        v.slot_fingerprint(slot) == fingerprint,
    ensures
        v.store_at((slot * v.bytes_per_fingerprint()) as int, fingerprint) == v.bytes,
{
    v.lemma_slot_in_bounds(slot);
    let b = v.bytes;
    match v.fingerprint_size {
        FingerprintSize::Bits8 => {
            let x = b[slot as int];
            assert((x as u64) as u8 == x) by (bit_vector);
            assert(slot * 1 == slot);
            assert(b.update(slot as int, fingerprint as u8) =~= b);
        },
        FingerprintSize::Bits16 => {
            let lo = b[(slot * 2) as int];
            let hi = b[(slot * 2 + 1) as int];
            assert(((lo as u64) | ((hi as u64) << 8u64)) as u8 == lo && (((lo as u64) | ((hi as u64)
                << 8u64)) >> 8u64) as u8 == hi) by (bit_vector);
            assert(b.update((slot * 2) as int, fingerprint as u8).update(
                (slot * 2 + 1) as int,
                (fingerprint >> 8u64) as u8,
            ) =~= b);
        },
    }
}

/// The probe that `first_fit` returns is one of the probes, its slot can take
/// the fingerprint, and no earlier probe's slot can.
proof fn lemma_first_fit_is_a_probe(v: FilterView, h: u64, from: nat)
    ensures
        v.first_fit(h, from) matches Some(p) ==> {
            &&& from <= p < PROBE_COUNT
            &&& v.fits_at(v.probe_slot(h, p), fingerprint_of(h, v.fingerprint_size))
            &&& forall|q: nat|
                from <= q < p ==> !v.fits_at(
                    #[trigger] v.probe_slot(h, q),
                    fingerprint_of(h, v.fingerprint_size),
                )
        },
        v.first_fit(h, from) is None ==> forall|q: nat|
            from <= q < PROBE_COUNT ==> !v.fits_at(
                #[trigger] v.probe_slot(h, q),
                fingerprint_of(h, v.fingerprint_size),
            ),
    decreases PROBE_COUNT - from,
{
    if from < PROBE_COUNT {
        lemma_first_fit_is_a_probe(v, h, from + 1);
    }
}

/// Adding a hash keeps everything but the fingerprint array, the overflow
/// set and the count, and the filter stays well formed.
pub proof fn lemma_add_keeps_shape(v: FilterView, h: u64)
    requires
        v.wf(),
    ensures
        v.add_hash(h).wf(),
        v.add_hash(h).bytes.len() == v.bytes.len(),
        v.add_hash(h).segment_length == v.segment_length,
        v.add_hash(h).seed == v.seed,
        v.add_hash(h).fingerprint_size == v.fingerprint_size,
        v.add_hash(h).size == v.size + 1,
{
    lemma_first_fit_is_a_probe(v, h, 0);
    match v.first_fit(h, 0) {
        Some(p) => {
            v.lemma_probe_in_range(h, p);
        },
        None => {},
    }
}

/// A hash held for good is found.
pub proof fn lemma_held_is_found(v: FilterView, h: u64)
    requires
        v.holds_hash(h),
    ensures
        v.contains_hash(h),
{
}

/// A hash just added is held for good.
pub proof fn lemma_add_then_held(v: FilterView, h: u64)
    requires
        v.wf(),
    ensures
        v.add_hash(h).holds_hash(h),
        v.add_hash(h).contains_hash(h),
{
    let w = v.add_hash(h);
    let fp = fingerprint_of(h, v.fingerprint_size);
    lemma_fingerprint_fits(h, v.fingerprint_size);
    lemma_first_fit_is_a_probe(v, h, 0);
    match v.first_fit(h, 0) {
        Some(p) => {
            if fp != 0 {
                let slot = v.probe_slot(h, p);
                v.lemma_probe_in_range(h, p);
                lemma_store_then_read(v, slot, fp, slot);
                assert(w.slot_fingerprint(w.probe_slot(h, p)) == fp);
            } else {
                assert(w.overflow.contains(h));
            }
        },
        None => {
            assert(w.overflow.contains(h));
        },
    }
}

/// Adding never loses a hash held for good.
pub proof fn lemma_add_keeps_held(v: FilterView, h: u64, g: u64)
    requires
        v.wf(),
        v.holds_hash(g),
    ensures
        v.add_hash(h).holds_hash(g),
{
    let w = v.add_hash(h);
    let fh = fingerprint_of(h, v.fingerprint_size);
    let fg = fingerprint_of(g, v.fingerprint_size);
    lemma_fingerprint_fits(h, v.fingerprint_size);
    lemma_first_fit_is_a_probe(v, h, 0);
    if v.overflow.contains(g) {
        assert(w.overflow.contains(g));
    } else {
        let q = choose|q: nat| q < PROBE_COUNT && #[trigger] v.slot_fingerprint(v.probe_slot(g, q)) == fg;
        let t = v.probe_slot(g, q);
        v.lemma_probe_in_range(g, q);
        match v.first_fit(h, 0) {
            Some(p) => {
                if fh != 0 {
                    let s = v.probe_slot(h, p);
                    v.lemma_probe_in_range(h, p);
                    lemma_store_then_read(v, s, fh, t);
                }
                assert(w.slot_fingerprint(w.probe_slot(g, q)) == fg);
            },
            None => {
                assert(w.slot_fingerprint(w.probe_slot(g, q)) == fg);
            },
        }
    }
}

/// No false negatives: after adding `hashes` in order, each of them is held
/// for good and found, and so is every hash held before. The count grows by
/// the number of additions and the shape is kept.
pub proof fn lemma_no_false_negatives(v: FilterView, hashes: Seq<u64>)
    requires
        v.wf(),
    ensures
        add_all(v, hashes).wf(),
        add_all(v, hashes).size == v.size + hashes.len(),
        add_all(v, hashes).segment_length == v.segment_length,
        add_all(v, hashes).seed == v.seed,
        add_all(v, hashes).fingerprint_size == v.fingerprint_size,
        forall|k: int|
            0 <= k < hashes.len() ==> #[trigger] add_all(v, hashes).holds_hash(hashes[k]) && add_all(
                v,
                hashes,
            ).contains_hash(hashes[k]),
        forall|g: u64| v.holds_hash(g) ==> #[trigger] add_all(v, hashes).holds_hash(g),
    decreases hashes.len(),
{
    if hashes.len() > 0 {
        let pre = hashes.drop_last();
        let last = hashes.last();
        lemma_no_false_negatives(v, pre);
        let w = add_all(v, pre);
        lemma_add_keeps_shape(w, last);
        assert forall|k: int| 0 <= k < hashes.len() implies #[trigger] add_all(v, hashes).holds_hash(
            hashes[k],
        ) && add_all(v, hashes).contains_hash(hashes[k]) by {
            if k < hashes.len() - 1 {
                assert(pre[k] == hashes[k]);
                assert(w.holds_hash(pre[k]));
                lemma_add_keeps_held(w, last, hashes[k]);
            } else {
                lemma_add_then_held(w, last);
            }
        }
        assert forall|g: u64| v.holds_hash(g) implies #[trigger] add_all(v, hashes).holds_hash(g) by {
            assert(w.holds_hash(g));
            lemma_add_keeps_held(w, last, g);
        }
    }
}

/// After a write into the first fitting slot, the search finds the same slot.
proof fn lemma_first_fit_after_store(v: FilterView, h: u64, from: nat, p: nat)
    requires
        v.wf(),
        from <= p,
        v.first_fit(h, 0) == Some(p),
        fingerprint_of(h, v.fingerprint_size) != 0,
    ensures
        v.add_hash(h).first_fit(h, from) == Some(p),
    decreases p - from,
{
    let fp = fingerprint_of(h, v.fingerprint_size);
    let s = v.probe_slot(h, p);
    let w = v.add_hash(h);
    lemma_fingerprint_fits(h, v.fingerprint_size);
    lemma_first_fit_is_a_probe(v, h, 0);
    v.lemma_probe_in_range(h, p);
    v.lemma_probe_in_range(h, from);
    lemma_store_then_read(v, s, fp, v.probe_slot(h, from));
    assert(w.probe_slot(h, from) == v.probe_slot(h, from));
    if from < p {
        assert(!v.fits_at(v.probe_slot(h, from), fp));
        assert(v.probe_slot(h, from) != s);
        lemma_first_fit_after_store(v, h, from + 1, p);
    }
}

/// Adding a hash a second time changes nothing but the count.
pub proof fn lemma_add_twice(v: FilterView, h: u64)
    requires
        v.wf(),
    ensures
        v.add_hash(h).add_hash(h) == (FilterView { size: v.size + 2, ..v.add_hash(h) }),
{
    let w = v.add_hash(h);
    let fp = fingerprint_of(h, v.fingerprint_size);
    lemma_fingerprint_fits(h, v.fingerprint_size);
    lemma_first_fit_is_a_probe(v, h, 0);
    match v.first_fit(h, 0) {
        Some(p) => {
            if fp != 0 {
                let s = v.probe_slot(h, p);
                v.lemma_probe_in_range(h, p);
                lemma_first_fit_after_store(v, h, 0, p);
                lemma_add_keeps_shape(v, h);
                lemma_store_then_read(v, s, fp, s);
                lemma_store_same(w, s, fp);
                assert(w.add_hash(h) =~= FilterView { size: v.size + 2, ..w });
            } else {
                assert(w.overflow.insert(h) =~= w.overflow);
                assert(w.add_hash(h) =~= FilterView { size: v.size + 2, ..w });
            }
        },
        None => {
            assert(w.bytes == v.bytes);
            assert(w.first_fit(h, 0) == v.first_fit(h, 0)) by {
                lemma_first_fit_ignores_overflow(v, w.overflow, w.size, h, 0);
            }
            assert(w.overflow.insert(h) =~= w.overflow);
            assert(w.add_hash(h) =~= FilterView { size: v.size + 2, ..w });
        },
    }
}

/// Where an addition goes depends on neither the overflow set nor the count.
proof fn lemma_first_fit_ignores_overflow(v: FilterView, overflow: Set<u64>, size: nat, h: u64, from: nat)
    ensures
        (FilterView { overflow, size, ..v }).first_fit(h, from) == v.first_fit(h, from),
    decreases PROBE_COUNT - from,
{
    if from < PROBE_COUNT {
        lemma_first_fit_ignores_overflow(v, overflow, size, h, from + 1);
    }
}

/// A fresh filter is well formed and empty, has an even number of slots, at
/// least two and at least as many as asked for, and finds exactly the hashes
/// whose fingerprint is zero.
pub proof fn lemma_fresh_filter(capacity: nat, fingerprint_size: FingerprintSize, seed: u64, h: u64)
    ensures
        new_view(capacity, fingerprint_size, seed).wf(),
        new_view(capacity, fingerprint_size, seed).size == 0,
        new_view(capacity, fingerprint_size, seed).capacity() % 2 == 0,
        new_view(capacity, fingerprint_size, seed).capacity() >= 2,
        new_view(capacity, fingerprint_size, seed).capacity() >= capacity,
        new_view(capacity, fingerprint_size, seed).contains_hash(h) == (fingerprint_of(
            h,
            fingerprint_size,
        ) == 0),
{
    let v = new_view(capacity, fingerprint_size, seed);
    assert(v.wf());
    v.lemma_probe_in_range(h, 0);
    let o = (v.probe_slot(h, 0) * v.bytes_per_fingerprint()) as int;
    assert(v.bytes[o] == 0u8);
    if fingerprint_size == FingerprintSize::Bits16 {
        assert(v.bytes[o + 1] == 0u8);
        assert((0u8 as u64) | ((0u8 as u64) << 8u64) == 0u64) by (bit_vector);
    }
    assert(v.slot_fingerprint(v.probe_slot(h, 0)) == 0);
    assert forall|p: nat| p < PROBE_COUNT implies #[trigger] v.slot_fingerprint(v.probe_slot(h, p)) == 0 by {
        v.lemma_probe_in_range(h, p);
        let o = (v.probe_slot(h, p) * v.bytes_per_fingerprint()) as int;
        assert(v.bytes[o] == 0u8);
        if fingerprint_size == FingerprintSize::Bits16 {
            assert(v.bytes[o + 1] == 0u8);
        }
    }
}

/// Where an addition goes does not depend on the seed.
proof fn lemma_first_fit_ignores_seed(v: FilterView, seed: u64, h: u64, from: nat)
    ensures
        (FilterView { seed, ..v }).first_fit(h, from) == v.first_fit(h, from),
    decreases PROBE_COUNT - from,
{
    if from < PROBE_COUNT {
        lemma_first_fit_ignores_seed(v, seed, h, from + 1);
    }
}

/// The seed only decides which hash an item gets: filters made with
/// different seeds and given the same hashes differ in nothing but the seed.
pub proof fn lemma_seed_only_changes_hashing(
    capacity: nat,
    fingerprint_size: FingerprintSize,
    seed: u64,
    hashes: Seq<u64>,
)
    ensures
        add_all(new_view(capacity, fingerprint_size, seed), hashes) == (FilterView {
            seed,
            ..add_all(new_view(capacity, fingerprint_size, 0), hashes)
        }),
    decreases hashes.len(),
{
    if hashes.len() > 0 {
        lemma_seed_only_changes_hashing(capacity, fingerprint_size, seed, hashes.drop_last());
        let w0 = add_all(new_view(capacity, fingerprint_size, 0), hashes.drop_last());
        let ws = add_all(new_view(capacity, fingerprint_size, seed), hashes.drop_last());
        assert(ws == FilterView { seed, ..w0 });
        lemma_first_fit_ignores_seed(w0, seed, hashes.last(), 0);
        assert(ws.add_hash(hashes.last()) =~= FilterView { seed, ..w0.add_hash(hashes.last()) });
    } else {
        assert(new_view(capacity, fingerprint_size, seed) =~= FilterView {
            seed,
            ..new_view(capacity, fingerprint_size, 0)
        });
    }
}

/// With 8-bit fingerprints a filter takes exactly half the bytes it takes
/// with 16-bit fingerprints, for the same capacity.
pub proof fn lemma_narrow_fingerprints_halve_memory(capacity: nat)
    ensures
        byte_len_for(capacity, FingerprintSize::Bits8) * 2 == byte_len_for(
            capacity,
            FingerprintSize::Bits16,
        ),
{
    let s = segment_length_for(capacity);
    assert(s * 2 * 1 * 2 == s * 2 * 2);
}

/// Merging keeps the shape (and so the capacity), the seed and the
/// fingerprint size.
pub proof fn lemma_merge_keeps_shape(a: FilterView, b: FilterView)
    requires
        a.wf(),
    ensures
        a.merge(b).wf(),
        a.merge(b).bytes.len() == a.bytes.len(),
        a.merge(b).segment_length == a.segment_length,
        a.merge(b).seed == a.seed,
        a.merge(b).fingerprint_size == a.fingerprint_size,
{
}

/// Merging the same filter in twice restores the fingerprint array and the
/// overflow set, and so every lookup.
pub proof fn lemma_merge_twice_restores(a: FilterView, b: FilterView)
    ensures
        a.merge(b).merge(b).bytes == a.bytes,
        a.merge(b).merge(b).overflow == a.overflow,
        forall|h: u64| #[trigger] a.merge(b).merge(b).contains_hash(h) == a.contains_hash(h),
{
    let m = a.merge(b).merge(b);
    assert forall|i: int| 0 <= i < a.bytes.len() implies m.bytes[i] == a.bytes[i] by {
        let x = a.bytes[i];
        if i < b.bytes.len() {
            let y = b.bytes[i];
            assert((x ^ y) ^ y == x) by (bit_vector);
        }
    }
    assert(m.bytes =~= a.bytes);
    assert(m.overflow =~= a.overflow);
    assert forall|h: u64| #[trigger] m.contains_hash(h) == a.contains_hash(h) by {
        let fp = fingerprint_of(h, a.fingerprint_size);
        assert forall|p: nat| #[trigger] m.slot_fingerprint(m.probe_slot(h, p)) == a.slot_fingerprint(
            a.probe_slot(h, p),
        ) by {}
        if m.probes_hold(h) {
            let p = choose|p: nat| p < PROBE_COUNT && #[trigger] m.slot_fingerprint(m.probe_slot(h, p)) == fp;
            assert(a.slot_fingerprint(a.probe_slot(h, p)) == fp);
        }
        if a.probes_hold(h) {
            let p = choose|p: nat| p < PROBE_COUNT && #[trigger] a.slot_fingerprint(a.probe_slot(h, p)) == fp;
            assert(m.slot_fingerprint(m.probe_slot(h, p)) == fp);
        }
    }
}

/// Merging is symmetric for filters of the same shape and seed: either
/// order gives the same filter.
pub proof fn lemma_merge_commutes(a: FilterView, b: FilterView)
    requires
        a.wf(),
        b.wf(),
        a.segment_length == b.segment_length,
        a.fingerprint_size == b.fingerprint_size,
        a.seed == b.seed,
    ensures
        a.merge(b) == b.merge(a),
{
    let m1 = a.merge(b);
    let m2 = b.merge(a);
    assert forall|i: int| 0 <= i < a.bytes.len() implies m1.bytes[i] == m2.bytes[i] by {
        let x = a.bytes[i];
        let y = b.bytes[i];
        assert(x ^ y == y ^ x) by (bit_vector);
    }
    assert(m1.bytes =~= m2.bytes);
    assert(m1.overflow =~= m2.overflow);
    assert(m1 =~= m2);
}

/// Merging a fresh filter in changes nothing.
pub proof fn lemma_merge_fresh_is_identity(
    a: FilterView,
    capacity: nat,
    fingerprint_size: FingerprintSize,
    seed: u64,
)
    requires
        a.size <= usize::MAX,
    ensures
        a.merge(new_view(capacity, fingerprint_size, seed)) == a,
{
    let b = new_view(capacity, fingerprint_size, seed);
    let m = a.merge(b);
    assert forall|i: int| 0 <= i < a.bytes.len() implies m.bytes[i] == a.bytes[i] by {
        let x = a.bytes[i];
        if i < b.bytes.len() {
            assert(b.bytes[i] == 0u8);
            assert(x ^ 0u8 == x) by (bit_vector);
        }
    }
    assert(m.bytes =~= a.bytes);
    assert(m.overflow =~= a.overflow);
    assert(m =~= a);
}

} // verus!
