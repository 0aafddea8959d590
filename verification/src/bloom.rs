//! Bloom filter used for semi-join pruning in scans.
//!
//! An element is hashed twice with SipHash (keys (0, 0) and (1, 1)); the
//! `i`-th probe is bit `(h1 + i * h2) mod m` (with wrapping arithmetic on
//! `usize`), for `i < num_hashes`, where `m` is the number of bits.
use vstd::prelude::*;
use siphasher::sip::SipHasher;
use std::hash::{Hash, Hasher};

verus! {

/// The 64-bit SipHash-2-4 value that `siphasher`'s `SipHasher` keyed with
/// `(k0, k1)` produces for a byte slice hashed through `Hash` (its length
/// prefix, then its bytes), on the build target.
pub uninterp spec fn sip_hash_bytes(k0: u64, k1: u64, data: Seq<u8>) -> u64;

/// Calls `siphasher::sip::SipHasher::new_with_keys(k0, k1)`, feeds `key`
/// through `Hash::hash`, and returns `Hasher::finish`.  Claimed: the result
/// is `sip_hash_bytes(k0, k1, key)`, i.e. it depends on the keys and the
/// bytes alone.
#[verifier::external_body]
fn sip_hash(k0: u64, k1: u64, key: &[u8]) -> (r: u64)
    ensures
        r == sip_hash_bytes(k0, k1, key@),
{
    let mut hasher = SipHasher::new_with_keys(k0, k1);
    key.hash(&mut hasher);
    hasher.finish()
}

/// First hash of an element.
pub open spec fn hash1(key: Seq<u8>) -> usize {
    sip_hash_bytes(0, 0, key) as usize
}

/// Second hash of an element.
pub open spec fn hash2(key: Seq<u8>) -> usize {
    sip_hash_bytes(1, 1, key) as usize
}

/// The bit probed by the `i`-th hash of an element in a filter of `m` bits.
pub open spec fn probe(h1: usize, h2: usize, i: usize, m: nat) -> nat {
    (vstd::wrapping::usize_specs::wrapping_add(h1, vstd::wrapping::usize_specs::wrapping_mul(i, h2)) as nat) % m
}

/// The bit probed by the `i`-th hash of `key` in a filter of `m` bits.
pub open spec fn key_probe(key: Seq<u8>, i: usize, m: nat) -> nat {
    probe(hash1(key), hash2(key), i, m)
}

/// Whether bit `p` (bit `p % 8` of byte `p / 8`) is set.
pub open spec fn bit_set(bits: Seq<u8>, p: nat) -> bool {
    bits[(p / 8) as int] & (1u8 << ((p % 8) as u8)) != 0
}

/// Plain-value model of a filter.
pub struct BloomModel {
    pub bits: Seq<u8>,
    pub num_bits: nat,
    pub num_hashes: nat,
}

/// Whether every probe of `key` hits a set bit.
pub open spec fn model_may_contain(b: BloomModel, key: Seq<u8>) -> bool {
    forall|i: usize| i < b.num_hashes ==> #[trigger] bit_set(b.bits, key_probe(key, i, b.num_bits))
}

/// Whether bit `p` is one of the probes of `key`.
pub open spec fn is_probe_of(key: Seq<u8>, k: nat, m: nat, p: nat) -> bool {
    exists|i: usize| i < k && #[trigger] key_probe(key, i, m) == p
}

/// `new` is `old` with every probe of `key` set and nothing else changed.
pub open spec fn inserted(old: BloomModel, new: BloomModel, key: Seq<u8>) -> bool {
    &&& new.bits.len() == old.bits.len()
    &&& new.num_bits == old.num_bits
    &&& new.num_hashes == old.num_hashes
    &&& forall|p: nat| p < 8 * old.bits.len() ==> (#[trigger] bit_set(new.bits, p)
        <==> (bit_set(old.bits, p) || is_probe_of(key, old.num_hashes, old.num_bits, p)))
}

/// Whether the filter can be probed without dividing by zero.
pub open spec fn probeable(b: BloomModel) -> bool {
    b.num_hashes == 0 || b.num_bits > 0
}

/// A Bloom filter over byte strings.
#[derive(Clone, Debug)]
pub struct BloomFilter {
    bits: Vec<u8>,
    num_bits: usize,
    num_hashes: u8,
}

impl View for BloomFilter {
    type V = BloomModel;

    closed spec fn view(&self) -> BloomModel {
        BloomModel { bits: self.bits@, num_bits: self.num_bits as nat, num_hashes: self.num_hashes as nat }
    }
}

fn hash_pair(key: &[u8]) -> (r: (usize, usize))
    ensures
        r.0 == hash1(key@),
        r.1 == hash2(key@),
{
    let h1 = sip_hash(0, 0, key);
    let h2 = sip_hash(1, 1, key);
    (h1 as usize, h2 as usize)
}

/// Setting bit `j` of a byte sets exactly that bit.
proof fn lemma_or_bit(b: u8, j: u8, t: u8)
    requires
        j < 8,
        t < 8,
    ensures
        ((b | (1u8 << j)) & (1u8 << t) != 0) <==> ((b & (1u8 << t) != 0) || j == t),
{
    assert(j < 8 && t < 8 ==> (((b | (1u8 << j)) & (1u8 << t) != 0) <==> ((b & (1u8 << t) != 0) || j == t))) by (bit_vector);
}

impl BloomFilter {
    /// Whether the fields are consistent: the bytes are exactly those that
    /// hold the bit positions, so every position lies in a byte and the last
    /// byte holds at least one.
    pub closed spec fn wf(&self) -> bool {
        &&& self.num_bits as nat <= 8 * self.bits@.len()
        &&& 8 * self.bits@.len() < self.num_bits as nat + 8
    }

    /// A consistent filter has just the bytes its bit positions need: the
    /// bound that the laws on insertion and membership start from, and the
    /// one that tells when its bytes can be read back (`from_bytes`).
    pub proof fn lemma_wf_bits(&self)
        requires
            self.wf(),
        ensures
            self@.num_bits <= 8 * self@.bits.len(),
            8 * self@.bits.len() < self@.num_bits + 8,
    {
    }

    /// A filter of `num_bits` cleared bits probed by `num_hashes` hashes.
    /// (The sizing from an expected element count and a false-positive rate
    /// is done by the caller.)
    pub fn with_size(num_bits: usize, num_hashes: u8) -> (r: Self)
        ensures
            r.wf(),
            r@.num_bits == num_bits,
            r@.num_hashes == num_hashes,
            r@.bits == Seq::new((num_bits as nat + 7) / 8, |i: int| 0u8),
    {
        let num_bytes = num_bits / 8 + if num_bits % 8 != 0 { 1 } else { 0 };
        let bits = vec![0u8; num_bytes];
        let r = BloomFilter { bits, num_bits, num_hashes };
        assert(r@.bits =~= Seq::new((num_bits as nat + 7) / 8, |i: int| 0u8));
        r
    }

    /// A filter over the given bytes (all of their bits), probed by
    /// `num_hashes` hashes.
    pub fn from_bytes(bytes: Vec<u8>, num_hashes: u8) -> (r: Self)
        requires
            8 * bytes@.len() <= usize::MAX,
        ensures
            r.wf(),
            r@.bits == bytes@,
            r@.num_bits == 8 * bytes@.len(),
            r@.num_hashes == num_hashes,
    {
        let num_bits = bytes.len() * 8;
        BloomFilter { bits: bytes, num_bits, num_hashes }
    }

    /// Adds an element.
    pub fn insert(&mut self, key: &[u8])
        requires
            old(self).wf(),
            probeable(old(self)@),
        ensures
            final(self).wf(),
            inserted(old(self)@, final(self)@, key@),
    {
        let (h1, h2) = hash_pair(key);
        let k = self.num_hashes as usize;
        let ghost start = self@;
        let mut i: usize = 0;
        while i < k
            invariant
                self.wf(),
                self@.bits.len() == start.bits.len(),
                self@.num_bits == start.num_bits,
                self@.num_hashes == start.num_hashes,
                start.num_bits > 0 || k == 0,
                k == start.num_hashes,
                h1 == hash1(key@),
                h2 == hash2(key@),
                i <= k,
                forall|p: nat| p < 8 * start.bits.len() ==> (#[trigger] bit_set(self@.bits, p)
                    <==> (bit_set(start.bits, p) || exists|t: usize| t < i && #[trigger] key_probe(key@, t, start.num_bits) == p)),
            decreases k - i,
        {
            let bit_pos = h1.wrapping_add(i.wrapping_mul(h2)) % self.num_bits;
            assert(bit_pos == key_probe(key@, i, start.num_bits));
            let idx = bit_pos / 8;
            let shift = (bit_pos % 8) as u8;
            let ghost before = self@.bits;
            let byte = self.bits[idx];
            self.bits.set(idx, byte | (1u8 << shift));
            proof {
                assert forall|p: nat| p < 8 * start.bits.len() implies (#[trigger] bit_set(self@.bits, p)
                    <==> (bit_set(start.bits, p) || exists|t: usize| t < i + 1 && #[trigger] key_probe(key@, t, start.num_bits) == p)) by {
                    let was = bit_set(before, p);
                    assert(was <==> (bit_set(start.bits, p) || exists|t: usize| t < i && #[trigger] key_probe(key@, t, start.num_bits) == p));
                    let hit = p == bit_pos;
                    if p / 8 == idx {
                        lemma_or_bit(byte, shift, (p % 8) as u8);
                        assert(bit_set(self@.bits, p) <==> (was || shift == (p % 8) as u8));
                        assert((shift == (p % 8) as u8) <==> hit);
                    } else {
                        assert(self@.bits[(p / 8) as int] == before[(p / 8) as int]);
                        assert(!hit);
                        assert(bit_set(self@.bits, p) == was);
                    }
                    assert(bit_set(self@.bits, p) <==> (was || hit));
                    if exists|t: usize| t < i + 1 && #[trigger] key_probe(key@, t, start.num_bits) == p {
                        let t = choose|t: usize| t < i + 1 && #[trigger] key_probe(key@, t, start.num_bits) == p;
                        if t == i {
                            assert(hit);
                        } else {
                            assert(exists|t: usize| t < i && #[trigger] key_probe(key@, t, start.num_bits) == p);
                        }
                    }
                    if hit {
                        assert(key_probe(key@, i, start.num_bits) == p);
                    }
                    if exists|t: usize| t < i && #[trigger] key_probe(key@, t, start.num_bits) == p {
                        let t = choose|t: usize| t < i && #[trigger] key_probe(key@, t, start.num_bits) == p;
                        assert(t < i + 1);
                    }
                }
            }
            i = i + 1;
        }
    }

    /// Whether every probe of the element hits a set bit (no false negatives:
    /// an inserted element always answers `true`).
    pub fn may_contain(&self, key: &[u8]) -> (r: bool)
        requires
            self.wf(),
            probeable(self@),
        ensures
            r == model_may_contain(self@, key@),
    {
        let (h1, h2) = hash_pair(key);
        let k = self.num_hashes as usize;
        let mut i: usize = 0;
        while i < k
            invariant
                self.wf(),
                self@.num_bits > 0 || k == 0,
                k == self@.num_hashes,
                h1 == hash1(key@),
                h2 == hash2(key@),
                i <= k,
                forall|t: usize| t < i ==> #[trigger] bit_set(self@.bits, key_probe(key@, t, self@.num_bits)),
            decreases k - i,
        {
            let bit_pos = h1.wrapping_add(i.wrapping_mul(h2)) % self.num_bits;
            assert(bit_pos == key_probe(key@, i, self@.num_bits));
            let shift = (bit_pos % 8) as u8;
            if self.bits[bit_pos / 8] & (1u8 << shift) == 0 {
                assert(!bit_set(self@.bits, key_probe(key@, i, self@.num_bits)));
                return false;
            }
            i = i + 1;
        }
        true
    }

    /// The filter's bytes.
    pub fn to_bytes(&self) -> (r: &[u8])
        ensures
            r@ == self@.bits,
    {
        self.bits.as_slice()
    }

    /// The number of hash functions.
    pub fn num_hashes(&self) -> (r: u8)
        ensures
            r == self@.num_hashes,
    {
        self.num_hashes
    }
}

/// No false negatives: once an element is inserted, the filter reports that
/// it may contain it.
pub proof fn lemma_inserted_may_contain(old: BloomModel, new: BloomModel, key: Seq<u8>)
    requires
        old.num_bits <= 8 * old.bits.len(),
        probeable(old),
        inserted(old, new, key),
    ensures
        model_may_contain(new, key),
{
    assert forall|i: usize| i < new.num_hashes implies #[trigger] bit_set(new.bits, key_probe(key, i, new.num_bits)) by {
        let p = key_probe(key, i, old.num_bits);
        assert(p < old.num_bits);
        assert(is_probe_of(key, old.num_hashes, old.num_bits, p));
    }
}

/// Inserting never turns a positive answer into a negative one.
pub proof fn lemma_insert_keeps_members(old: BloomModel, new: BloomModel, key: Seq<u8>, other: Seq<u8>)
    requires
        old.num_bits <= 8 * old.bits.len(),
        probeable(old),
        inserted(old, new, key),
        model_may_contain(old, other),
    ensures
        model_may_contain(new, other),
{
    assert forall|i: usize| i < new.num_hashes implies #[trigger] bit_set(new.bits, key_probe(other, i, new.num_bits)) by {
        let p = key_probe(other, i, old.num_bits);
        assert(p < old.num_bits);
        assert(bit_set(old.bits, key_probe(other, i, old.num_bits)));
    }
}

/// Rebuilding a filter from its bytes and hash count answers every query
/// the same way, when its bit count is the full byte length.
pub proof fn lemma_bytes_roundtrip_same_answers(b: BloomModel, key: Seq<u8>)
    requires
        b.num_bits == 8 * b.bits.len(),
    ensures
        model_may_contain(BloomModel { bits: b.bits, num_bits: 8 * b.bits.len(), num_hashes: b.num_hashes }, key)
            == model_may_contain(b, key),
{
    assert(BloomModel { bits: b.bits, num_bits: 8 * b.bits.len(), num_hashes: b.num_hashes } == b);
}

} // verus!
