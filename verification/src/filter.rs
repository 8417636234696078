//! The membership filter that lets the engine skip disk work on misses.
//! The contract every filter obeys: false positives allowed, false
//! negatives never — once a key is inserted, contains answers true for
//! it. A Bloom filter over seeded 32-bit MurmurHash is provided.

use vstd::prelude::*;

verus! {

/// What MurmurHash3's 32-bit variant yields for a byte string and a
/// seed: a function of the characters and the seed alone. The hash reads
/// its input in native byte order, so the value is fixed per target;
/// nothing here carries a hash value across machines.
pub uninterp spec fn murmur3_hash(s: Seq<char>, seed: u32) -> u32;

/// Relies on fasthash's murmur3::hash32_with_seed: the seeded 32-bit
/// MurmurHash3 of the string's bytes, a pure function of its arguments.
/// That routine hands its byte count to the hashing code as a 32-bit
/// signed number, so only strings whose UTF-8 form stays below 2^31
/// bytes are admitted here: under 2^29 characters, at the UTF-8 maximum
/// of four bytes each.
#[verifier::external_body]
fn murmur3(item: &str, seed: u32) -> (r: u32)
    requires
        item@.len() < 0x20000000,
    ensures
        r == murmur3_hash(item@, seed),
{
    fasthash::murmur3::hash32_with_seed(item, seed)
}

/// The longest key the hash admits, in characters.
pub open spec fn hashable_len() -> nat {
    0x20000000
}

/// The capability set the engine needs of a membership filter. An
/// implementation answers through a ghost set of the keys inserted so
/// far: contains may err toward true, never toward false.
pub trait Filter: Sized {
    /// The keys inserted so far.
    spec fn keys(&self) -> Set<Seq<char>>;

    /// The implementation's internal invariant.
    spec fn inv(&self) -> bool;

    fn insert(&mut self, item: &str)
        requires
            old(self).inv(),
        ensures
            final(self).inv(),
            final(self).keys() == old(self).keys().insert(item@),
    ;

    fn contains(&self, item: &str) -> (r: bool)
        requires
            self.inv(),
        ensures
            self.keys().contains(item@) ==> r,
    ;
}

/// Where a key's hash lands in a bit vector of len bytes: the hash
/// reduced modulo the bit count.
pub open spec fn bloom_bit_pos(len: nat, h: u32) -> nat {
    (h as nat) % (8 * len)
}

/// The single-bit mask a bit position selects within its byte.
pub open spec fn bloom_mask(pos: nat) -> u8 {
    1u8 << ((pos % 8) as u8)
}

/// Whether the bit a hash selects is set in the vector.
pub open spec fn bloom_bit_set(bits: Seq<u8>, len: nat, h: u32) -> bool {
    let pos = bloom_bit_pos(len, h);
    bits[(pos / 8) as int] & bloom_mask(pos) != 0
}

/// A Bloom filter: a byte vector of fixed size and a hash count. Each
/// insertion sets one bit per hash; a lookup reads the same bits.
pub struct BloomFilter {
    bit_vec: Vec<u8>,
    hashes: usize,
    keys: Ghost<Set<Seq<char>>>,
}

impl BloomFilter {
    /// Builds a filter of num_bytes bytes and hash_count hashes. The
    /// sizes for a target capacity and false-positive rate are chosen by
    /// the caller.
    pub fn new(num_bytes: usize, hash_count: usize) -> (r: Self)
        requires
            num_bytes >= 1,
            num_bytes <= usize::MAX / 8,
        ensures
            r.inv(),
            r.keys() == Set::<Seq<char>>::empty(),
    {
        let mut bit_vec: Vec<u8> = Vec::new();
        let mut i: usize = 0;
        while i < num_bytes
            invariant
                i <= num_bytes,
                bit_vec@.len() == i,
            decreases num_bytes - i,
        {
            bit_vec.push(0);
            i = i + 1;
        }
        BloomFilter { bit_vec, hashes: hash_count, keys: Ghost(Set::empty()) }
    }

    /// The default sizing of the original configuration: a capacity of
    /// two keys at a false-positive rate of one in a thousand, which the
    /// standard Bloom formulas round up to 29 bytes and 11 hashes.
    pub fn with_default_size() -> (r: Self)
        ensures
            r.inv(),
            r.keys() == Set::<Seq<char>>::empty(),
    {
        BloomFilter::new(29, 11)
    }
}

impl Filter for BloomFilter {
    closed spec fn keys(&self) -> Set<Seq<char>> {
        self.keys@
    }

    closed spec fn inv(&self) -> bool {
        &&& self.bit_vec@.len() >= 1
        &&& self.bit_vec@.len() <= usize::MAX / 8
        &&& forall|k: Seq<char>, i: int|
            self.keys@.contains(k) && k.len() < hashable_len() && 0 <= i < self.hashes
                ==> #[trigger] bloom_bit_set(
                self.bit_vec@,
                self.bit_vec@.len(),
                murmur3_hash(k, i as u32),
            )
    }

    fn insert(&mut self, item: &str)
        ensures
            final(self).inv(),
            final(self).keys() == old(self).keys().insert(item@),
    {
        if item.unicode_len() >= 0x20000000 {
            // too long to hash: remember the key and let contains answer
            // true for it without consulting the bits
            proof {
                self.keys@ = self.keys@.insert(item@);
            }
            return ;
        }
        let len: usize = self.bit_vec.len();
        let mut i: usize = 0;
        while i < self.hashes
            invariant
                item@.len() < 0x20000000,
                i <= self.hashes,
                self.bit_vec@.len() == len,
                1 <= len <= usize::MAX / 8,
                self.hashes == old(self).hashes,
                self.keys@ == old(self).keys@,
                forall|k: Seq<char>, j: int|
                    self.keys@.contains(k) && k.len() < hashable_len() && 0 <= j < self.hashes
                        ==> #[trigger] bloom_bit_set(
                        self.bit_vec@,
                        len as nat,
                        murmur3_hash(k, j as u32),
                    ),
                forall|j: int|
                    0 <= j < i ==> #[trigger] bloom_bit_set(
                        self.bit_vec@,
                        len as nat,
                        murmur3_hash(item@, j as u32),
                    ),
            decreases self.hashes - i,
        {
            let h: u32 = murmur3(item, i as u32);
            let pos: usize = (h as usize) % (8 * len);
            let byte_at: usize = pos / 8;
            let sb: u8 = (pos % 8) as u8;
            let mask: u8 = 1u8 << sb;
            let ghost pre_bits = self.bit_vec@;
            let old_byte: u8 = self.bit_vec[byte_at];
            let new_byte: u8 = old_byte | mask;
            self.bit_vec.set(byte_at, new_byte);
            proof {
                assert(mask == bloom_mask(pos as nat));
                assert((old_byte | mask) & mask != 0) by (bit_vector)
                    requires
                        sb < 8,
                        mask == 1u8 << sb,
                ;
                assert forall|k: Seq<char>, j: int|
                    self.keys@.contains(k) && k.len() < hashable_len() && 0 <= j
                        < self.hashes implies #[trigger] bloom_bit_set(
                    self.bit_vec@,
                    len as nat,
                    murmur3_hash(k, j as u32),
                ) by {
                    let h2 = murmur3_hash(k, j as u32);
                    let p2 = bloom_bit_pos(len as nat, h2);
                    assert(bloom_bit_set(pre_bits, len as nat, h2));
                    if (p2 / 8) as int == byte_at as int {
                        let b2 = bloom_mask(p2);
                        assert(old_byte & b2 != 0 ==> (old_byte | mask) & b2 != 0)
                            by (bit_vector);
                    } else {
                        assert(self.bit_vec@[(p2 / 8) as int] == pre_bits[(p2 / 8) as int]);
                    }
                }
                assert forall|j: int|
                    0 <= j < i + 1 implies #[trigger] bloom_bit_set(
                    self.bit_vec@,
                    len as nat,
                    murmur3_hash(item@, j as u32),
                ) by {
                    let h2 = murmur3_hash(item@, j as u32);
                    let p2 = bloom_bit_pos(len as nat, h2);
                    if j < i {
                        assert(bloom_bit_set(pre_bits, len as nat, h2));
                        if (p2 / 8) as int == byte_at as int {
                            let b2 = bloom_mask(p2);
                            assert(old_byte & b2 != 0 ==> (old_byte | mask) & b2 != 0)
                                by (bit_vector);
                        } else {
                            assert(self.bit_vec@[(p2 / 8) as int] == pre_bits[(p2 / 8) as int]);
                        }
                    } else {
                        assert(h2 == h);
                        assert(p2 == pos as nat);
                        assert(self.bit_vec@[(p2 / 8) as int] == new_byte);
                    }
                }
            }
            i = i + 1;
        }
        proof {
            self.keys@ = self.keys@.insert(item@);
        }
    }

    fn contains(&self, item: &str) -> (r: bool)
        ensures
            self.keys().contains(item@) ==> r,
    {
        if item.unicode_len() >= 0x20000000 {
            // too long to hash: it may have been inserted, so err toward
            // presence, which a membership filter is allowed to do
            return true;
        }
        let len: usize = self.bit_vec.len();
        let mut i: usize = 0;
        while i < self.hashes
            invariant
                item@.len() < 0x20000000,
                i <= self.hashes,
                self.bit_vec@.len() == len,
                1 <= len <= usize::MAX / 8,
                self.inv(),
            decreases self.hashes - i,
        {
            let h: u32 = murmur3(item, i as u32);
            let pos: usize = (h as usize) % (8 * len);
            let byte_at: usize = pos / 8;
            let sb: u8 = (pos % 8) as u8;
            let mask: u8 = 1u8 << sb;
            if self.bit_vec[byte_at] & mask == 0 {
                proof {
                    if self.keys@.contains(item@) {
                        assert(bloom_bit_set(
                            self.bit_vec@,
                            len as nat,
                            murmur3_hash(item@, i as u32),
                        ));
                        assert(mask == bloom_mask(bloom_bit_pos(
                            len as nat,
                            murmur3_hash(item@, i as u32),
                        )));
                    }
                }
                return false;
            }
            i = i + 1;
        }
        true
    }
}

} // verus!
