use vstd::prelude::*;

use vstd::string::StringSliceAdditionalSpecFns;

verus! {

/// The 128-bit MurmurHash3 (x64 variant) of `bytes` with `seed`, by
/// `murmurhash3::murmurhash3_x64_128`. Nothing is stated of the result: the
/// crate reads each 16-byte block as two machine words in the machine's
/// own byte order, so the value differs between machines.
#[verifier::external_body]
fn murmur_hash(bytes: &[u8], seed: u64) -> (u64, u64) {
    murmurhash3::murmurhash3_x64_128(bytes, seed)
}

/// The position that a drawn hash gives in a filter of `size` bits: the
/// hash modulo the size.
pub fn position_of_hash(h: u64, size: usize) -> (p: usize)
    requires
        size > 0,
    ensures
        p == (h as int) % (size as int),
        p < size,
{
    (h % (size as u64)) as usize
}

/// Bit `b` (counted from the least significant) of `x` is set.
pub open spec fn word_bit(x: u64, b: u64) -> bool {
    (x >> b) & 1u64 == 1u64
}

proof fn lemma_set_bit(x: u64, b: u64, c: u64)
    requires
        b < 64,
        c < 64,
    ensures
        word_bit(x | (1u64 << b), c) == (c == b || word_bit(x, c)),
{
    assert(((x | (1u64 << b)) >> c) & 1u64 == 1u64 <==> (c == b || (x >> c) & 1u64 == 1u64)) by (bit_vector)
        requires
            b < 64,
            c < 64,
    ;
}

proof fn lemma_test_bit(x: u64, b: u64)
    requires
        b < 64,
    ensures
        ((x & (1u64 << b)) == 0u64) == !word_bit(x, b),
{
    assert(((x & (1u64 << b)) == 0u64) == !((x >> b) & 1u64 == 1u64)) by (bit_vector)
        requires
            b < 64,
    ;
}

/// A Bloom filter over strings: a bit array of `size` bits and a number of
/// hash functions. It may report an item it never saw, but never misses one
/// it did.
#[derive(Clone, Debug)]
pub struct BloomFilter {
    bits: Vec<u64>,
    num_hash_functions: usize,
    size: usize,
}

impl BloomFilter {
    /// The number of bits.
    pub closed spec fn spec_size(&self) -> nat {
        self.size as nat
    }

    /// The number of hash functions.
    pub closed spec fn hash_count(&self) -> nat {
        self.num_hash_functions as nat
    }

    /// Whether bit `p` is set.
    pub closed spec fn bit(&self, p: nat) -> bool {
        word_bit(self.bits@[(p / 64) as int], (p % 64) as u64)
    }

    /// The representation invariant.
    pub closed spec fn wf(&self) -> bool {
        &&& self.bits@.len() == (self.size + 63) / 64
        &&& (self.size > 0 || self.num_hash_functions == 0)
    }

    /// Every one of the positions is a bit of the filter.
    pub open spec fn in_range(&self, ps: Seq<usize>) -> bool {
        forall|k: int| 0 <= k < ps.len() ==> #[trigger] ps[k] < self.spec_size()
    }

    /// Every one of the positions is set.
    pub open spec fn all_set_at(&self, ps: Seq<usize>) -> bool {
        forall|k: int| 0 <= k < ps.len() ==> #[trigger] self.bit(ps[k] as nat)
    }

    /// An empty filter of `size` bits with `num_hash_functions` hash
    /// functions (the sizes follow from the expected number of items and
    /// the wanted false positive rate, which the caller computes).
    pub fn with_parameters(size: usize, num_hash_functions: usize) -> (f: Self)
        requires
            size + 63 <= usize::MAX,
            size > 0 || num_hash_functions == 0,
        ensures
            f.wf(),
            f.spec_size() == size,
            f.hash_count() == num_hash_functions,
            forall|p: nat| p < size ==> !#[trigger] f.bit(p),
    {
        let words = (size + 63) / 64;
        let mut bits: Vec<u64> = Vec::new();
        let mut i: usize = 0;
        while i < words
            invariant
                i <= words,
                bits@.len() == i,
                forall|k: int| 0 <= k < i ==> bits@[k] == 0u64,
            decreases words - i,
        {
            bits.push(0u64);
            i += 1;
        }
        let f = BloomFilter { bits, num_hash_functions, size };
        assert forall|p: nat| p < size implies !#[trigger] f.bit(p) by {
            assert(p / 64 < words) by (nonlinear_arith)
                requires
                    p < size,
                    words == (size + 63) / 64,
            ;
            let pb = (p % 64) as u64;
            assert(((0u64 >> pb) & 1u64) == 0u64) by (bit_vector);
        }
        f
    }

    /// The positions of `item`, one for each hash function `i` (from 0):
    /// the first half of the MurmurHash3 of its UTF-8 bytes seeded with
    /// `i` as a 32-bit number (see `murmur_hash`), taken modulo the size
    /// (see `position_of_hash`). The hashes themselves are not stated:
    /// they differ between machines.
    pub fn positions(&self, item: &str) -> (ps: Vec<usize>)
        requires
            self.wf(),
        ensures
            ps@.len() == self.hash_count(),
            self.in_range(ps@),
            exists|hs: Seq<u64>| hs.len() == self.hash_count()
                && forall|i: int| 0 <= i < hs.len() ==> #[trigger] ps@[i] == (hs[i] as int) % (self.spec_size() as int),
    {
        let n = self.num_hash_functions;
        let mut ps: Vec<usize> = Vec::new();
        let ghost mut hs: Seq<u64> = Seq::empty();
        let mut i: usize = 0;
        while i < n
            invariant
                i <= n,
                n == self.hash_count(),
                self.wf(),
                ps@.len() == i,
                hs.len() == i,
                self.in_range(ps@),
                forall|k: int| 0 <= k < i ==> #[trigger] ps@[k] == (hs[k] as int) % (self.spec_size() as int),
            decreases n - i,
        {
            let (h1, _h2) = murmur_hash(item.as_bytes(), (i as u32) as u64);
            let p = position_of_hash(h1, self.size);
            ps.push(p);
            proof {
                hs = hs.push(h1);
            }
            i += 1;
        }
        ps
    }

    /// Sets the bits at the positions.
    pub fn insert_positions(&mut self, ps: &Vec<usize>)
        requires
            old(self).wf(),
            old(self).in_range(ps@),
        ensures
            final(self).wf(),
            final(self).spec_size() == old(self).spec_size(),
            final(self).hash_count() == old(self).hash_count(),
            marks(*old(self), *final(self), ps@),
    {
        let ghost b0 = *self;
        let mut i: usize = 0;
        while i < ps.len()
            invariant
                i <= ps@.len(),
                self.wf(),
                self.size == b0.size,
                self.num_hash_functions == b0.num_hash_functions,
                b0.wf(),
                b0.in_range(ps@),
                forall|p: nat| p < b0.spec_size() ==> #[trigger] self.bit(p) == (b0.bit(p)
                    || exists|k: int| 0 <= k < i && p == ps@[k]),
            decreases ps.len() - i,
        {
            let index = ps[i];
            assert(index < self.size);
            let word_index = index / 64;
            let bit_index = index % 64;
            proof {
                assert(word_index < self.bits@.len()) by (nonlinear_arith)
                    requires
                        index < self.size,
                        word_index == index / 64,
                        self.bits@.len() == (self.size + 63) / 64,
                ;
            }
            let ghost before = *self;
            let w = self.bits[word_index] | (1u64 << (bit_index as u64));
            self.bits.set(word_index, w);
            proof {
                assert forall|p: nat| p < b0.spec_size() implies #[trigger] self.bit(p) == (b0.bit(p)
                    || exists|k: int| 0 <= k < i + 1 && p == ps@[k]) by {
                    let pw = p / 64;
                    let pb = (p % 64) as u64;
                    assert(pw < self.bits@.len()) by (nonlinear_arith)
                        requires
                            p < self.size,
                            pw == p / 64,
                            self.bits@.len() == (self.size + 63) / 64,
                    ;
                    if pw == word_index {
                        lemma_set_bit(before.bits@[pw as int], bit_index as u64, pb);
                        if pb == bit_index as u64 {
                            assert(p == index) by (nonlinear_arith)
                                requires
                                    pw == p / 64,
                                    pb == p % 64,
                                    pw == index / 64,
                                    pb == index % 64,
                            ;
                        } else {
                            assert(p != index) by (nonlinear_arith)
                                requires
                                    pb == p % 64,
                                    pb != index % 64,
                            ;
                        }
                    } else {
                        assert(p != index) by (nonlinear_arith)
                            requires
                                pw == p / 64,
                                pw != index / 64,
                        ;
                        assert(self.bits@[pw as int] == before.bits@[pw as int]);
                    }
                    assert(before.bit(p) == (b0.bit(p) || exists|k: int| 0 <= k < i && p == ps@[k]));
                    if exists|k: int| 0 <= k < i + 1 && p == ps@[k] {
                        let k = choose|k: int| 0 <= k < i + 1 && p == ps@[k];
                        if k < i {
                            assert(exists|k2: int| 0 <= k2 < i && p == ps@[k2]);
                        }
                    }
                    if p == index {
                        assert(p == ps@[i as int]);
                    }
                }
            }
            i += 1;
        }
    }

    /// Whether every one of the positions is set.
    pub fn contains_positions(&self, ps: &Vec<usize>) -> (b: bool)
        requires
            self.wf(),
            self.in_range(ps@),
        ensures
            b == self.all_set_at(ps@),
    {
        let mut i: usize = 0;
        while i < ps.len()
            invariant
                i <= ps@.len(),
                self.wf(),
                self.in_range(ps@),
                forall|k: int| 0 <= k < i ==> #[trigger] self.bit(ps@[k] as nat),
            decreases ps.len() - i,
        {
            let index = ps[i];
            assert(index < self.size);
            let word_index = index / 64;
            let bit_index = index % 64;
            proof {
                assert(word_index < self.bits@.len()) by (nonlinear_arith)
                    requires
                        index < self.size,
                        word_index == index / 64,
                        self.bits@.len() == (self.size + 63) / 64,
                ;
                lemma_test_bit(self.bits@[word_index as int], bit_index as u64);
            }
            if (self.bits[word_index] & (1u64 << (bit_index as u64))) == 0 {
                assert(!self.bit(index as nat));
                return false;
            }
            i += 1;
        }
        true
    }

    /// Sets the bits of every position of `item` (see `positions`).
    pub fn insert(&mut self, item: &str)
        requires
            old(self).wf(),
        ensures
            final(self).wf(),
            final(self).spec_size() == old(self).spec_size(),
            final(self).hash_count() == old(self).hash_count(),
            exists|ps: Seq<usize>| #![trigger marks(*old(self), *final(self), ps)]
                ps.len() == old(self).hash_count() && old(self).in_range(ps) && marks(*old(self), *final(self), ps),
    {
        let ps = self.positions(item);
        self.insert_positions(&ps);
        assert(marks(*old(self), *self, ps@));
    }

    /// Whether every position of `item` is set (see `positions`): false
    /// means the item was never inserted.
    pub fn contains(&self, item: &str) -> (b: bool)
        requires
            self.wf(),
        ensures
            exists|ps: Seq<usize>| #![trigger self.all_set_at(ps)]
                ps.len() == self.hash_count() && self.in_range(ps) && b == self.all_set_at(ps),
    {
        let ps = self.positions(item);
        let b = self.contains_positions(&ps);
        assert(b == self.all_set_at(ps@));
        b
    }
}

/// `after` is `before` with the bits at the positions set, and no others.
pub open spec fn marks(before: BloomFilter, after: BloomFilter, ps: Seq<usize>) -> bool {
    forall|p: nat| p < before.spec_size() ==> #[trigger] after.bit(p) == (before.bit(p)
        || exists|k: int| 0 <= k < ps.len() && p == ps[k])
}

/// No false negatives: right after positions are set, the filter reports
/// them, and it keeps reporting every set of positions it reported before,
/// whatever else is set in between.
pub proof fn lemma_insert_then_contains(before: BloomFilter, after: BloomFilter, ps: Seq<usize>, qs: Seq<usize>)
    requires
        before.wf(),
        after.spec_size() == before.spec_size(),
        before.in_range(ps),
        before.in_range(qs),
        marks(before, after, ps),
    ensures
        after.all_set_at(ps),
        before.all_set_at(qs) ==> after.all_set_at(qs),
{
    assert forall|k: int| 0 <= k < ps.len() implies #[trigger] after.bit(ps[k] as nat) by {
        assert(ps[k] < before.spec_size());
        assert(exists|j: int| 0 <= j < ps.len() && (ps[k] as nat) == ps[j]);
    }
    if before.all_set_at(qs) {
        assert forall|k: int| 0 <= k < qs.len() implies #[trigger] after.bit(qs[k] as nat) by {
            assert(before.bit(qs[k] as nat));
            assert(qs[k] < before.spec_size());
        }
    }
}

} // verus!
