//! The 64-bit SipHash-style hasher that turns items into filter hashes.
//!
//! The hasher keeps four words of state, a tail of at most seven pending
//! bytes and a byte counter. Its whole behaviour is given by the spec
//! functions of this module: `spec_new`, `spec_write` and `spec_finish`;
//! `sip_digest` folds them over a sequence of writes.

use vstd::prelude::*;
use core::hash::Hasher;
use vstd::arithmetic::power2::{pow2, lemma2_to64, lemma2_to64_rest, lemma_pow2_adds, lemma_pow2_pos};

verus! {

/// Wrapping 64-bit addition.
pub open spec fn wadd(x: u64, y: u64) -> u64 {
    vstd::wrapping::u64_specs::wrapping_add(x, y)
}

/// Wrapping 64-bit multiplication.
pub open spec fn wmul(x: u64, y: u64) -> u64 {
    vstd::wrapping::u64_specs::wrapping_mul(x, y)
}

/// Left rotation of a 64-bit word by `n` bits, for `0 < n < 64`.
pub open spec fn rotl(x: u64, n: u64) -> u64 {
    (x << n) | (x >> (64 - n) as u64)
}

/// The avalanche step shared by the position mixer and the hasher's finish:
/// multiply, fold the high half down, multiply, fold again.
pub open spec fn avalanche(h: u64) -> u64 {
    let h1 = wmul(h, 0xff51afd7ed558ccdu64);
    let h2 = h1 ^ (h1 >> 33u64);
    let h3 = wmul(h2, 0xc4ceb9fe1a85ec53u64);
    h3 ^ (h3 >> 33u64)
}

/// The little-endian 64-bit word made of `bytes[i..i + 8]`.
pub open spec fn le_word(bytes: Seq<u8>, i: int) -> u64 {
    (bytes[i] as u64)
        | ((bytes[i + 1] as u64) << 8u64)
        | ((bytes[i + 2] as u64) << 16u64)
        | ((bytes[i + 3] as u64) << 24u64)
        | ((bytes[i + 4] as u64) << 32u64)
        | ((bytes[i + 5] as u64) << 40u64)
        | ((bytes[i + 6] as u64) << 48u64)
        | ((bytes[i + 7] as u64) << 56u64)
}

pub(crate) struct SipHasher {
    v0: u64,
    v1: u64,
    v2: u64,
    v3: u64,
    /// Number of bytes written so far (wrapping).
    length: usize,
    /// Pending bytes, the most recent in the low byte.
    tail: u64,
    /// Number of pending bytes in `tail`.
    ntail: usize,
}

impl SipHasher {
    #[verifier::type_invariant]
    spec fn pending_fits(self) -> bool {
        self.ntail < 8
    }

    /// The hasher's state as a plain value.
    pub closed spec fn state(self) -> SipState {
        SipState {
            v0: self.v0,
            v1: self.v1,
            v2: self.v2,
            v3: self.v3,
            length: self.length,
            tail: self.tail,
            ntail: self.ntail as nat,
        }
    }
}

/// The mathematical state of a `SipHasher`.
pub struct SipState {
    pub v0: u64,
    pub v1: u64,
    pub v2: u64,
    pub v3: u64,
    pub length: usize,
    pub tail: u64,
    pub ntail: nat,
}

/// The state right after `SipHasher::new(seed)`.
pub open spec fn spec_new(seed: u64) -> SipState {
    let k0 = seed ^ 0x9e3779b97f4a7c15u64;
    let k1 = rotl(seed, 17);
    SipState {
        v0: 0x736f6d6570736575u64 ^ k0,
        v1: 0x646f72616e646f6du64 ^ k1,
        v2: 0x6c7967656e657261u64 ^ k0,
        v3: 0x7465646279746573u64 ^ k1,
        length: 0,
        tail: 0,
        ntail: 0,
    }
}

/// One round of the compression function.
pub open spec fn spec_round(s: SipState) -> SipState {
    let v0 = wadd(s.v0, s.v1);
    let v1 = rotl(s.v1, 13) ^ v0;
    let v0 = rotl(v0, 32);
    let v2 = wadd(s.v2, s.v3);
    let v3 = rotl(s.v3, 16) ^ v2;
    let v0 = wadd(v0, v3);
    let v1 = wadd(v1, v2);
    let v2 = rotl(v2, 21) ^ v1;
    let v1 = rotl(v1, 17);
    SipState { v0, v1, v2, v3, ..s }
}

/// Absorbs one 64-bit message word: two rounds between the two xors.
pub open spec fn spec_compress(s: SipState, m: u64) -> SipState {
    let s1 = SipState { v3: s.v3 ^ m, ..s };
    let s2 = spec_round(spec_round(s1));
    SipState { v0: s2.v0 ^ m, ..s2 }
}

/// Appends one byte to the pending tail.
pub open spec fn spec_push_tail(s: SipState, b: u8) -> SipState {
    SipState { tail: (s.tail << 8u64) | (b as u64), ntail: s.ntail + 1, ..s }
}

/// Completes a pending tail with bytes from `bytes[i..]`, up to eight pending bytes.
pub open spec fn spec_fill(s: SipState, bytes: Seq<u8>, i: nat) -> (SipState, nat)
    decreases bytes.len() - i,
{
    if s.ntail < 8 && i < bytes.len() {
        spec_fill(spec_push_tail(s, bytes[i as int]), bytes, i + 1)
    } else {
        (s, i)
    }
}

/// The first phase of a write: a tail left over from an earlier write is
/// completed first, and absorbed once it holds eight bytes.
pub open spec fn spec_first_phase(s: SipState, bytes: Seq<u8>) -> (SipState, nat) {
    if s.ntail != 0 {
        let (t, i) = spec_fill(s, bytes, 0);
        if t.ntail == 8 {
            (SipState { ntail: 0, ..spec_compress(t, t.tail) }, i)
        } else {
            (t, i)
        }
    } else {
        (s, 0)
    }
}

/// The second phase: whole little-endian words of `bytes[i..]`.
pub open spec fn spec_words(s: SipState, bytes: Seq<u8>, i: nat) -> (SipState, nat)
    decreases bytes.len() - i,
{
    if i + 8 <= bytes.len() {
        spec_words(spec_compress(s, le_word(bytes, i as int)), bytes, i + 8)
    } else {
        (s, i)
    }
}

/// The third phase: the remaining bytes go to the tail.
pub open spec fn spec_rest(s: SipState, bytes: Seq<u8>, i: nat) -> SipState
    decreases bytes.len() - i,
{
    if i < bytes.len() {
        spec_rest(spec_push_tail(s, bytes[i as int]), bytes, i + 1)
    } else {
        s
    }
}

/// The state after `write(bytes)`.
pub open spec fn spec_write(s: SipState, bytes: Seq<u8>) -> SipState {
    let s0 = SipState { length: vstd::wrapping::usize_specs::wrapping_add(s.length, bytes.len() as usize), ..s };
    let (s1, i1) = spec_first_phase(s0, bytes);
    let (s2, i2) = spec_words(s1, bytes, i1);
    spec_rest(s2, bytes, i2)
}

/// The state after a sequence of writes, in order.
pub open spec fn spec_write_all(s: SipState, writes: Seq<Seq<u8>>) -> SipState
    decreases writes.len(),
{
    if writes.len() == 0 {
        s
    } else {
        spec_write(spec_write_all(s, writes.drop_last()), writes.last())
    }
}

/// The xor of the four state words.
pub open spec fn spec_end(s: SipState) -> u64 {
    s.v0 ^ s.v1 ^ s.v2 ^ s.v3
}

/// The digest that `finish` returns.
pub open spec fn spec_finish(s: SipState) -> u64 {
    let h = spec_end(s);
    let h = if s.ntail > 0 {
        let h1 = h ^ (s.tail << (64 - s.ntail * 8) as u64);
        h1 ^ (h1 >> s.ntail as u64)
    } else {
        h
    };
    avalanche(h)
}

/// The digest of a hasher made with `seed` and fed `writes`.
pub open spec fn sip_digest(seed: u64, writes: Seq<Seq<u8>>) -> u64 {
    spec_finish(spec_write_all(spec_new(seed), writes))
}

/// `h` is the digest of some sequence of writes to a hasher made with `seed`.
pub open spec fn is_sip_digest(seed: u64, h: u64) -> bool {
    exists|writes: Seq<Seq<u8>>| h == sip_digest(seed, writes)
}

/// The value of `bytes` read as a big-endian number.
pub open spec fn be_value(bytes: Seq<u8>) -> nat
    decreases bytes.len(),
{
    if bytes.len() == 0 {
        0
    } else {
        bytes[0] as nat * pow2((8 * (bytes.len() - 1)) as nat) + be_value(bytes.drop_first())
    }
}

/// The pending bytes of a state as a number: the low `8 * ntail` bits of the
/// tail, the oldest pending byte most significant.
pub open spec fn pending_value(s: SipState) -> nat {
    (s.tail as nat) % pow2(8 * s.ntail)
}

/// Appending a byte to a tail of fewer than eight bytes appends it to the
/// pending value.
proof fn lemma_push_pending(s: SipState, b: u8)
    requires
        s.ntail < 8,
    ensures
        pending_value(spec_push_tail(s, b)) == pending_value(s) * 256 + b,
{
    lemma2_to64();
    lemma2_to64_rest();
    let t = s.tail;
    let t2 = spec_push_tail(s, b).tail;
    assert(t2 == (t << 8u64) | (b as u64));
    let k = s.ntail;
    let m0 = pow2(8 * k);
    let m1 = pow2(8 * (k + 1));
    if k == 0 {
        assert(m0 == 1 && m1 == 0x100);
        assert(((t << 8u64) | (b as u64)) % 0x100u64 == (t % 1u64) * 256u64 + (b as u64)) by (bit_vector);
    } else if k == 1 {
        assert(m0 == 0x100 && m1 == 0x10000);
        assert(((t << 8u64) | (b as u64)) % 0x10000u64 == (t % 0x100u64) * 256u64 + (b as u64)) by (bit_vector);
    } else if k == 2 {
        assert(m0 == 0x10000 && m1 == 0x1000000);
        assert(((t << 8u64) | (b as u64)) % 0x1000000u64 == (t % 0x10000u64) * 256u64 + (b as u64))
            by (bit_vector);
    } else if k == 3 {
        assert(m0 == 0x1000000 && m1 == 0x100000000);
        assert(((t << 8u64) | (b as u64)) % 0x100000000u64 == (t % 0x1000000u64) * 256u64 + (b as u64))
            by (bit_vector);
    } else if k == 4 {
        assert(m0 == 0x100000000 && m1 == 0x10000000000);
        assert(((t << 8u64) | (b as u64)) % 0x10000000000u64 == (t % 0x100000000u64) * 256u64 + (b
            as u64)) by (bit_vector);
    } else if k == 5 {
        assert(m0 == 0x10000000000 && m1 == 0x1000000000000);
        assert(((t << 8u64) | (b as u64)) % 0x1000000000000u64 == (t % 0x10000000000u64) * 256u64 + (b
            as u64)) by (bit_vector);
    } else if k == 6 {
        assert(m0 == 0x1000000000000 && m1 == 0x100000000000000);
        assert(((t << 8u64) | (b as u64)) % 0x100000000000000u64 == (t % 0x1000000000000u64) * 256u64
            + (b as u64)) by (bit_vector);
    } else {
        assert(m0 == 0x100000000000000 && m1 == 0x10000000000000000);
        assert(((t << 8u64) | (b as u64)) == (t % 0x100000000000000u64) * 256u64 + (b as u64))
            by (bit_vector);
        assert((t2 as nat) % m1 == t2 as nat);
    }
}

/// The third phase appends the remaining bytes to the pending value.
proof fn lemma_rest_pending(s: SipState, bytes: Seq<u8>, i: nat)
    requires
        i <= bytes.len(),
        s.ntail + (bytes.len() - i) < 8,
    ensures
        spec_rest(s, bytes, i).ntail == s.ntail + (bytes.len() - i),
        spec_rest(s, bytes, i).length == s.length,
        pending_value(spec_rest(s, bytes, i)) == pending_value(s) * pow2((8 * (bytes.len() - i)) as nat)
            + be_value(bytes.subrange(i as int, bytes.len() as int)),
    decreases bytes.len() - i,
{
    let len = bytes.len();
    if i < len {
        let b = bytes[i as int];
        let s1 = spec_push_tail(s, b);
        lemma_push_pending(s, b);
        lemma_rest_pending(s1, bytes, i + 1);
        let m = (len - i - 1) as nat;
        let sub = bytes.subrange(i as int, len as int);
        assert(sub.drop_first() =~= bytes.subrange((i + 1) as int, len as int));
        assert(sub[0] == b);
        assert(sub.len() == m + 1);
        assert((8 * (sub.len() - 1)) as nat == 8 * m);
        let rest = bytes.subrange((i + 1) as int, len as int);
        assert(be_value(sub) == b as nat * pow2(8 * m) + be_value(rest));
        lemma_pow2_adds(8, 8 * m);
        lemma2_to64();
        assert((8 * (len - i)) as nat == 8 + 8 * m);
        let p = pending_value(s);
        let x = pow2(8 * m);
        assert(pow2((8 * (len - i)) as nat) == 256 * x);
        assert(spec_rest(s, bytes, i) == spec_rest(s1, bytes, i + 1));
        assert(pending_value(spec_rest(s1, bytes, i + 1)) == (p * 256 + b) * x + be_value(rest));
        assert((p * 256 + b) * x == p * (256 * x) + b * x) by (nonlinear_arith);
        assert(pending_value(spec_rest(s, bytes, i)) == p * pow2((8 * (len - i)) as nat) + be_value(sub));
    } else {
        lemma2_to64();
        assert(bytes.subrange(i as int, len as int) =~= Seq::<u8>::empty());
        assert(be_value(bytes.subrange(i as int, len as int)) == 0);
        assert(spec_rest(s, bytes, i) == s);
        assert(pow2((8 * (len - i)) as nat) == 1);
    }
}

/// The first phase tops up the tail: it stops at eight pending bytes or at
/// the end of `bytes`, and below eight the new bytes are appended to the
/// pending value.
proof fn lemma_fill_pending(s: SipState, bytes: Seq<u8>, i: nat)
    requires
        i <= bytes.len(),
        s.ntail <= 8,
    ensures
        ({
            let (t, j) = spec_fill(s, bytes, i);
            &&& i <= j <= bytes.len()
            &&& t.ntail == s.ntail + (j - i)
            &&& t.ntail == 8 || j == bytes.len()
            &&& t.ntail <= 8
            &&& t.length == s.length
            &&& t.v0 == s.v0 && t.v1 == s.v1 && t.v2 == s.v2 && t.v3 == s.v3
            &&& pending_value(t) == pending_value(s) * pow2((8 * (j - i)) as nat)
                + be_value(bytes.subrange(i as int, j as int))
        }),
    decreases bytes.len() - i,
{
    let len = bytes.len();
    lemma2_to64();
    if s.ntail < 8 && i < len {
        let b = bytes[i as int];
        let s1 = spec_push_tail(s, b);
        lemma_push_pending(s, b);
        lemma_fill_pending(s1, bytes, i + 1);
        let (t, j) = spec_fill(s1, bytes, i + 1);
        assert(spec_fill(s, bytes, i) == (t, j));
        {
            let m = (j - i - 1) as nat;
            let sub = bytes.subrange(i as int, j as int);
            let rest = bytes.subrange((i + 1) as int, j as int);
            assert(sub.drop_first() =~= rest);
            assert(sub[0] == b);
            assert(sub.len() == m + 1);
            assert((8 * (sub.len() - 1)) as nat == 8 * m);
            assert(be_value(sub) == b as nat * pow2(8 * m) + be_value(rest));
            lemma_pow2_adds(8, 8 * m);
            assert((8 * (j - i)) as nat == 8 + 8 * m);
            let p = pending_value(s);
            let x = pow2(8 * m);
            assert(pow2((8 * (j - i)) as nat) == 256 * x);
            assert(pending_value(t) == (p * 256 + b) * x + be_value(rest));
            assert((p * 256 + b) * x == p * (256 * x) + b * x) by (nonlinear_arith);
            assert(pending_value(t) == p * pow2((8 * (j - i)) as nat) + be_value(sub));
        }
    } else {
        assert(bytes.subrange(i as int, i as int) =~= Seq::<u8>::empty());
        assert(be_value(bytes.subrange(i as int, i as int)) == 0);
        assert(spec_fill(s, bytes, i) == (s, i));
        assert(pow2(0) == 1);
        assert((8 * (i - i)) as nat == 0);
        assert(pow2((8 * (i - i)) as nat) == 1);
        assert(pending_value(s) * pow2((8 * (i - i)) as nat) == pending_value(s));
        assert(pending_value(s) == pending_value(s) * pow2((8 * (i - i)) as nat) + be_value(
            bytes.subrange(i as int, i as int),
        ));
    }
}

/// The second phase consumes whole words and leaves the tail alone.
proof fn lemma_words_keep_tail(s: SipState, bytes: Seq<u8>, i: nat)
    requires
        i <= bytes.len(),
    ensures
        ({
            let (t, j) = spec_words(s, bytes, i);
            &&& j == i + 8 * ((bytes.len() - i) / 8)
            &&& t.tail == s.tail
            &&& t.ntail == s.ntail
            &&& t.length == s.length
        }),
    decreases bytes.len() - i,
{
    if i + 8 <= bytes.len() {
        lemma_words_keep_tail(spec_compress(s, le_word(bytes, i as int)), bytes, i + 8);
    }
}

/// What a write leaves pending: the byte counter grows by the number of
/// bytes (wrapping), the pending count is the old one plus the number of
/// bytes, modulo 8, and the pending value holds the last pending-count bytes
/// of the old pending bytes followed by `bytes`.
pub proof fn lemma_write_pending(s: SipState, bytes: Seq<u8>)
    requires
        s.ntail < 8,
    ensures
        spec_write(s, bytes).length == vstd::wrapping::usize_specs::wrapping_add(
            s.length,
            bytes.len() as usize,
        ),
        spec_write(s, bytes).ntail == (s.ntail + bytes.len()) % 8,
        pending_value(spec_write(s, bytes)) == if s.ntail + bytes.len() < 8 {
            pending_value(s) * pow2(8 * bytes.len()) + be_value(bytes)
        } else {
            be_value(
                bytes.subrange(bytes.len() - spec_write(s, bytes).ntail, bytes.len() as int),
            )
        },
{
    lemma2_to64();
    let len = bytes.len();
    let n = s.ntail;
    let s0 = SipState {
        length: vstd::wrapping::usize_specs::wrapping_add(s.length, bytes.len() as usize),
        ..s
    };
    let (s1, i1) = spec_first_phase(s0, bytes);
    assert(bytes.subrange(0, len as int) =~= bytes);
    assert(pending_value(s0) == pending_value(s));
    if n != 0 {
        lemma_fill_pending(s0, bytes, 0);
        let (t, j) = spec_fill(s0, bytes, 0);
        if t.ntail == 8 {
            assert(s1.ntail == 0 && i1 == j && j == 8 - n);
        } else {
            assert(j == len && s1 == t && i1 == len);
        }
    } else {
        assert(s1 == s0 && i1 == 0);
    }
    lemma_words_keep_tail(s1, bytes, i1);
    let (s2, i2) = spec_words(s1, bytes, i1);
    assert(len - i2 == (len - i1) % 8);
    assert(s2.ntail + (len - i2) < 8);
    lemma_rest_pending(s2, bytes, i2);
    let r = spec_write(s, bytes);
    assert(r == spec_rest(s2, bytes, i2));
    let tail_value = be_value(bytes.subrange(i2 as int, len as int));
    let x = pow2((8 * (len - i2)) as nat);
    assert(pending_value(r) == pending_value(s2) * x + tail_value);
    if n == 0 || n + len >= 8 {
        assert(s2.ntail == 0);
        assert(pending_value(s2) == 0);
        assert(pending_value(s2) * x == 0) by (nonlinear_arith)
            requires
                pending_value(s2) == 0,
        ;
        assert(r.ntail == (n + len) % 8);
        if n + len < 8 {
            assert(i2 == 0);
            assert(pending_value(s) == 0);
            assert(pending_value(s) * pow2(8 * len) == 0) by (nonlinear_arith)
                requires
                    pending_value(s) == 0,
            ;
            assert(pending_value(r) == be_value(bytes));
        } else {
            assert(i2 == len - r.ntail);
            assert(pending_value(r) == tail_value);
        }
    } else {
        assert(i2 == len && s2 == s1);
        assert(x == 1);
        assert(bytes.subrange(len as int, len as int) =~= Seq::<u8>::empty());
        assert(tail_value == 0);
        assert(pending_value(r) == pending_value(s2));
        assert(pending_value(s2) == pending_value(s0) * pow2(8 * len) + be_value(bytes));
    }
}

/// The digest reads the tail only through the pending value: states with
/// equal state words, equal pending counts and equal pending values give the
/// same digest, whatever stale bits lie above the pending bytes.
pub proof fn lemma_finish_reads_pending(s1: SipState, s2: SipState)
    requires
        s1.v0 == s2.v0,
        s1.v1 == s2.v1,
        s1.v2 == s2.v2,
        s1.v3 == s2.v3,
        s1.ntail == s2.ntail,
        s1.ntail < 8,
        pending_value(s1) == pending_value(s2),
    ensures
        spec_finish(s1) == spec_finish(s2),
{
    lemma2_to64();
    lemma2_to64_rest();
    let a = s1.tail;
    let b = s2.tail;
    let n = s1.ntail;
    if n == 0 {
    } else if n == 1 {
        assert(a % 0x100u64 == b % 0x100u64 ==> (a << 56u64) == (b << 56u64)) by (bit_vector);
    } else if n == 2 {
        assert(a % 0x10000u64 == b % 0x10000u64 ==> (a << 48u64) == (b << 48u64)) by (bit_vector);
    } else if n == 3 {
        assert(a % 0x1000000u64 == b % 0x1000000u64 ==> (a << 40u64) == (b << 40u64)) by (bit_vector);
    } else if n == 4 {
        assert(a % 0x100000000u64 == b % 0x100000000u64 ==> (a << 32u64) == (b << 32u64)) by (bit_vector);
    } else if n == 5 {
        assert(a % 0x10000000000u64 == b % 0x10000000000u64 ==> (a << 24u64) == (b << 24u64)) by (bit_vector);
    } else if n == 6 {
        assert(a % 0x1000000000000u64 == b % 0x1000000000000u64 ==> (a << 16u64) == (b << 16u64)) by (bit_vector);
    } else if n == 7 {
        assert(a % 0x100000000000000u64 == b % 0x100000000000000u64 ==> (a << 8u64) == (b << 8u64)) by (bit_vector);
    }
}

/// Wrapping 64-bit subtraction.
pub open spec fn wsub(x: u64, y: u64) -> u64 {
    vstd::wrapping::u64_specs::wrapping_sub(x, y)
}

/// One round of the compression function run backwards: the rotations
/// undone by the complementary rotations, the additions by subtractions.
pub open spec fn spec_unround(s: SipState) -> SipState {
    let v1b = rotl(s.v1, 47);
    let v2a = rotl(s.v2 ^ v1b, 43);
    let v1a = wsub(v1b, v2a);
    let v3a = s.v3;
    let v0b = wsub(s.v0, v3a);
    let v0a = rotl(v0b, 32);
    let v1 = rotl(v1a ^ v0a, 51);
    let v0 = wsub(v0a, v1);
    let v3 = rotl(v3a ^ v2a, 48);
    let v2 = wsub(v2a, v3);
    SipState { v0, v1, v2, v3, ..s }
}

/// Absorbing a message word run backwards: from the state after absorbing
/// `m`, and `m`, the state before.
pub open spec fn spec_uncompress(c: SipState, m: u64) -> SipState {
    let y = SipState { v0: c.v0 ^ m, ..c };
    let x = spec_unround(spec_unround(y));
    SipState { v3: x.v3 ^ m, ..x }
}

proof fn lemma_rotl_back(x: u64)
    ensures
        rotl(rotl(x, 17), 47) == x,
        rotl(rotl(x, 21), 43) == x,
        rotl(rotl(x, 32), 32) == x,
        rotl(rotl(x, 13), 51) == x,
        rotl(rotl(x, 16), 48) == x,
{
    assert(((((x << 17u64) | (x >> 47u64)) << 47u64) | (((x << 17u64) | (x >> 47u64)) >> 17u64)) == x)
        by (bit_vector);
    assert(((((x << 21u64) | (x >> 43u64)) << 43u64) | (((x << 21u64) | (x >> 43u64)) >> 21u64)) == x)
        by (bit_vector);
    assert(((((x << 32u64) | (x >> 32u64)) << 32u64) | (((x << 32u64) | (x >> 32u64)) >> 32u64)) == x)
        by (bit_vector);
    assert(((((x << 13u64) | (x >> 51u64)) << 51u64) | (((x << 13u64) | (x >> 51u64)) >> 13u64)) == x)
        by (bit_vector);
    assert(((((x << 16u64) | (x >> 48u64)) << 48u64) | (((x << 16u64) | (x >> 48u64)) >> 16u64)) == x)
        by (bit_vector);
}

proof fn lemma_xor_cancel(a: u64, b: u64)
    ensures
        (a ^ b) ^ b == a,
{
    assert((a ^ b) ^ b == a) by (bit_vector);
}

proof fn lemma_sub_undoes_add(x: u64, y: u64)
    ensures
        wsub(wadd(x, y), y) == x,
{
}

/// A round loses no information: running it backwards gives back the state.
pub proof fn lemma_round_invertible(s: SipState)
    ensures
        spec_unround(spec_round(s)) == s,
{
    let v0a = wadd(s.v0, s.v1);
    let v1a = rotl(s.v1, 13) ^ v0a;
    let v0b = rotl(v0a, 32);
    let v2a = wadd(s.v2, s.v3);
    let v3a = rotl(s.v3, 16) ^ v2a;
    let v0c = wadd(v0b, v3a);
    let v1b = wadd(v1a, v2a);
    let v2b = rotl(v2a, 21) ^ v1b;
    let v1c = rotl(v1b, 17);
    lemma_rotl_back(v1b);
    lemma_rotl_back(v2a);
    lemma_rotl_back(v0a);
    lemma_rotl_back(s.v1);
    lemma_rotl_back(s.v3);
    lemma_sub_undoes_add(v1a, v2a);
    lemma_sub_undoes_add(v0b, v3a);
    lemma_sub_undoes_add(s.v0, s.v1);
    lemma_sub_undoes_add(s.v2, s.v3);
    lemma_xor_cancel(rotl(v2a, 21), v1b);
    lemma_xor_cancel(rotl(s.v1, 13), v0a);
    lemma_xor_cancel(rotl(s.v3, 16), v2a);
    let r = spec_round(s);
    assert(r.v0 == v0c && r.v1 == v1c && r.v2 == v2b && r.v3 == v3a);
    assert(spec_unround(r) =~= s);
}

/// Absorbing a message word loses no information and depends on the word:
/// the state before is recovered from the state after and the word, so two
/// different states never absorb a word into the same state, and a word
/// that absorbs into a state is the one that comes back out.
pub proof fn lemma_compress_invertible(s: SipState, m: u64)
    ensures
        spec_uncompress(spec_compress(s, m), m) == s,
{
    let s1 = SipState { v3: s.v3 ^ m, ..s };
    let r1 = spec_round(s1);
    let r2 = spec_round(r1);
    lemma_round_invertible(s1);
    lemma_round_invertible(r1);
    let c = spec_compress(s, m);
    let y = SipState { v0: c.v0 ^ m, ..c };
    lemma_xor_cancel(r2.v0, m);
    assert(y =~= r2);
    lemma_xor_cancel(s.v3, m);
    assert(spec_uncompress(c, m) =~= s);
}

/// A write that completes a pending tail absorbs the eight completed bytes
/// as one message word: the state words afterwards are those of the old
/// state after absorbing the big-endian word made of the pending bytes
/// followed by `bytes`, and nothing is left pending.
pub proof fn lemma_write_completing_tail(s: SipState, bytes: Seq<u8>)
    requires
        0 < s.ntail,
        s.ntail + bytes.len() == 8,
    ensures
        ({
            let r = spec_write(s, bytes);
            let word = (pending_value(s) * pow2(8 * bytes.len()) + be_value(bytes)) as u64;
            let c = spec_compress(s, word);
            &&& r.v0 == c.v0
            &&& r.v1 == c.v1
            &&& r.v2 == c.v2
            &&& r.v3 == c.v3
            &&& r.ntail == 0
        }),
{
    lemma2_to64();
    lemma2_to64_rest();
    let len = bytes.len();
    let s0 = SipState {
        length: vstd::wrapping::usize_specs::wrapping_add(s.length, bytes.len() as usize),
        ..s
    };
    lemma_fill_pending(s0, bytes, 0);
    let (t, j) = spec_fill(s0, bytes, 0);
    assert(t.ntail == 8 && j == len);
    assert(bytes.subrange(0, len as int) =~= bytes);
    assert(pending_value(s0) == pending_value(s));
    assert(pow2(8 * t.ntail) == pow2(64));
    assert((t.tail as nat) < pow2(64));
    vstd::arithmetic::div_mod::lemma_small_mod(t.tail as nat, pow2(64));
    assert(pending_value(t) == t.tail as nat);
    let word = (pending_value(s) * pow2(8 * bytes.len()) + be_value(bytes)) as u64;
    assert(t.tail == word);
    let (s1, i1) = spec_first_phase(s0, bytes);
    assert(i1 == len);
    let c = spec_compress(t, t.tail);
    assert(c.v0 == spec_compress(s, word).v0 && c.v1 == spec_compress(s, word).v1 && c.v2
        == spec_compress(s, word).v2 && c.v3 == spec_compress(s, word).v3);
    let (s2, i2) = spec_words(s1, bytes, i1);
    assert(s2 == s1 && i2 == len);
    assert(spec_write(s, bytes) == spec_rest(s2, bytes, i2));
}

/// A write of exactly one word with nothing pending absorbs that word, read
/// little-endian, and leaves nothing pending.
pub proof fn lemma_write_whole_word(s: SipState, bytes: Seq<u8>)
    requires
        s.ntail == 0,
        bytes.len() == 8,
    ensures
        ({
            let r = spec_write(s, bytes);
            let c = spec_compress(s, le_word(bytes, 0));
            &&& r.v0 == c.v0
            &&& r.v1 == c.v1
            &&& r.v2 == c.v2
            &&& r.v3 == c.v3
            &&& r.ntail == 0
        }),
{
    let s0 = SipState {
        length: vstd::wrapping::usize_specs::wrapping_add(s.length, bytes.len() as usize),
        ..s
    };
    assert(spec_first_phase(s0, bytes) == (s0, 0nat));
    let c0 = spec_compress(s0, le_word(bytes, 0));
    assert(spec_words(s0, bytes, 0) == spec_words(c0, bytes, 8));
    assert(spec_words(c0, bytes, 8) == (c0, 8nat));
    assert(spec_rest(c0, bytes, 8) == c0);
}

/// The hasher is keyed by the whole seed: different seeds give different
/// initial states.
pub proof fn lemma_new_keyed_by_whole_seed(seed1: u64, seed2: u64)
    ensures
        spec_new(seed1) == spec_new(seed2) ==> seed1 == seed2,
        seed1 != seed2 ==> spec_new(seed1).v0 != spec_new(seed2).v0,
{
    assert(seed1 != seed2 ==> (0x736f6d6570736575u64 ^ (seed1 ^ 0x9e3779b97f4a7c15u64))
        != (0x736f6d6570736575u64 ^ (seed2 ^ 0x9e3779b97f4a7c15u64))) by (bit_vector);
}

impl SipHasher {
    /// Creates a hasher keyed by `seed`.
    pub fn new(seed: u64) -> (r: Self)
        ensures
            r.state() == spec_new(seed),
    {
        let k0 = seed ^ 0x9e3779b97f4a7c15u64;
        let k1 = (seed << 17u64) | (seed >> 47u64);
        SipHasher {
            v0: 0x736f6d6570736575u64 ^ k0,
            v1: 0x646f72616e646f6du64 ^ k1,
            v2: 0x6c7967656e657261u64 ^ k0,
            v3: 0x7465646279746573u64 ^ k1,
            length: 0,
            tail: 0,
            ntail: 0,
        }
    }

    /// Performs one round of the compression function.
    fn sip_round(&mut self)
        ensures
            final(self).state() == spec_round(old(self).state()),
    {
        proof {
            use_type_invariant(&*self);
        }
        self.v0 = self.v0.wrapping_add(self.v1);
        self.v1 = (self.v1 << 13u64) | (self.v1 >> 51u64);
        self.v1 = self.v1 ^ self.v0;
        self.v0 = (self.v0 << 32u64) | (self.v0 >> 32u64);
        self.v2 = self.v2.wrapping_add(self.v3);
        self.v3 = (self.v3 << 16u64) | (self.v3 >> 48u64);
        self.v3 = self.v3 ^ self.v2;
        self.v0 = self.v0.wrapping_add(self.v3);
        self.v1 = self.v1.wrapping_add(self.v2);
        self.v2 = (self.v2 << 21u64) | (self.v2 >> 43u64);
        self.v2 = self.v2 ^ self.v1;
        self.v1 = (self.v1 << 17u64) | (self.v1 >> 47u64);
    }

    /// Absorbs one message word.
    fn compress(&mut self, m: u64)
        ensures
            final(self).state() == spec_compress(old(self).state(), m),
    {
        proof {
            use_type_invariant(&*self);
        }
        self.v3 = self.v3 ^ m;
        self.sip_round();
        self.sip_round();
        self.v0 = self.v0 ^ m;
    }

    /// Returns the xor of the four state words.
    fn sip_end(&self) -> (r: u64)
        ensures
            r == spec_end(self.state()),
    {
        self.v0 ^ self.v1 ^ self.v2 ^ self.v3
    }
}

impl Hasher for SipHasher {
    /// Feeds `bytes` to the hasher: a pending tail is completed (and absorbed
    /// once it holds eight bytes), then whole little-endian words are
    /// absorbed, and what remains becomes the new tail.
    fn write(&mut self, bytes: &[u8])
        ensures
            final(self).state() == spec_write(old(self).state(), bytes@),
    {
        proof {
            use_type_invariant(&*self);
        }
        self.length = self.length.wrapping_add(bytes.len());
        let ghost s0 = self.state();
        let mut i: usize = 0;
        if self.ntail != 0 {
            let mut tail: u64 = self.tail;
            let mut ntail: usize = self.ntail;
            while ntail < 8 && i < bytes.len()
                invariant
                    self.state() == s0,
                    ntail <= 8,
                    i <= bytes.len(),
                    spec_fill(SipState { tail, ntail: ntail as nat, ..s0 }, bytes@, i as nat)
                        == spec_fill(s0, bytes@, 0),
                decreases bytes.len() - i,
            {
                tail = (tail << 8u64) | (bytes[i] as u64);
                ntail = ntail + 1;
                i = i + 1;
            }
            if ntail == 8 {
                self.tail = tail;
                self.compress(tail);
                self.ntail = 0;
            } else {
                self.tail = tail;
                self.ntail = ntail;
            }
        }
        let ghost s1 = self.state();
        let ghost i1 = i as nat;
        assert(spec_first_phase(s0, bytes@) == (s1, i1));
        while bytes.len() - i >= 8
            invariant
                i <= bytes.len(),
                self.ntail == 0 || i == bytes.len(),
                self.ntail == s1.ntail,
                spec_words(self.state(), bytes@, i as nat) == spec_words(s1, bytes@, i1),
            decreases bytes.len() - i,
        {
            let chunk: u64 = (bytes[i] as u64)
                | ((bytes[i + 1] as u64) << 8u64)
                | ((bytes[i + 2] as u64) << 16u64)
                | ((bytes[i + 3] as u64) << 24u64)
                | ((bytes[i + 4] as u64) << 32u64)
                | ((bytes[i + 5] as u64) << 40u64)
                | ((bytes[i + 6] as u64) << 48u64)
                | ((bytes[i + 7] as u64) << 56u64);
            self.compress(chunk);
            i = i + 8;
        }
        let ghost s2 = self.state();
        let ghost i2 = i as nat;
        while i < bytes.len()
            invariant
                i <= bytes.len(),
                self.ntail + (bytes.len() - i) < 8,
                spec_rest(self.state(), bytes@, i as nat) == spec_rest(s2, bytes@, i2),
            decreases bytes.len() - i,
        {
            self.tail = (self.tail << 8u64) | (bytes[i] as u64);
            self.ntail = self.ntail + 1;
            i = i + 1;
        }
    }

    /// Returns the digest: the xor of the state words, mixed with the
    /// pending tail, then avalanched.
    fn finish(&self) -> (h: u64)
        ensures
            h == spec_finish(self.state()),
    {
        proof {
            use_type_invariant(self);
        }
        let mut h = self.sip_end();
        if self.ntail > 0 {
            h = h ^ (self.tail << (64 - self.ntail * 8));
            h = h ^ (h >> self.ntail);
        }
        h = h.wrapping_mul(0xff51afd7ed558ccdu64);
        h = h ^ (h >> 33u64);
        h = h.wrapping_mul(0xc4ceb9fe1a85ec53u64);
        h = h ^ (h >> 33u64);
        h
    }
}

} // verus!
