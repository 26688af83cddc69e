use vstd::prelude::*;

verus! {

/// Number of bits reserved per expected key.
pub const BITS_PER_KEY: usize = 10;

/// Number of probe positions derived from one key hash.
pub const HASH_COUNT: usize = 7;

/// Seed handed to the 128-bit hash; fixed so that filters round-trip
/// across restarts.
pub const HASH_SEED: u32 = 0;

/// The 128-bit MurmurHash3 (x64 variant) of `key` under `seed`.
pub uninterp spec fn murmur3_x64_128_of(key: Seq<u8>, seed: u32) -> u128;

/// Relies on murmur3::murmur3_x64_128: the hash is a pure function of the
/// bytes read from the source and of the seed, and reading from a byte
/// slice consumes the whole slice and cannot fail.
#[verifier::external_body]
fn murmur3_hash(key: &[u8], seed: u32) -> (r: u128)
    ensures
        r == murmur3_x64_128_of(key@, seed),
{
    let mut source = key;
    match murmur3::murmur3_x64_128(&mut source, seed) {
        Ok(h) => h,
        Err(_) => 0,
    }
}

/// Low 64-bit half of the key hash.
pub open spec fn spec_hash_hi(key: Seq<u8>) -> u64 {
    murmur3_x64_128_of(key, HASH_SEED) as u64
}

/// High 64-bit half of the key hash.
pub open spec fn spec_hash_lo(key: Seq<u8>) -> u64 {
    (murmur3_x64_128_of(key, HASH_SEED) >> 64) as u64
}

/// Splits the 128-bit key hash into its two 64-bit halves.
pub fn hash_key_split(key: &[u8]) -> (r: (u64, u64))
    ensures
        r.0 == spec_hash_hi(key@),
        r.1 == spec_hash_lo(key@),
{
    let hash = murmur3_hash(key, HASH_SEED);
    let hi = #[verifier::truncate] (hash as u64);
    let lo = #[verifier::truncate] ((hash >> 64) as u64);
    (hi, lo)
}

/// Bit position probed by hash number `i` for `key` in a filter of
/// `bit_size` bits: `(hi + i * lo) mod bit_size` with wrapping arithmetic.
pub open spec fn spec_probe(key: Seq<u8>, i: int, bit_size: nat) -> int
    recommends
        bit_size > 0,
{
    vstd::wrapping::u64_specs::wrapping_add(
        spec_hash_hi(key),
        vstd::wrapping::u64_specs::wrapping_mul(i as u64, spec_hash_lo(key)),
    ) as int % bit_size as int
}

/// Whether bit `idx` is set in the packed little-endian bit array `bits`.
pub open spec fn bit_is_set(bits: Seq<u8>, idx: int) -> bool
    recommends
        0 <= idx < 8 * bits.len(),
{
    (bits[idx / 8] >> (idx % 8) as u8) & 1u8 == 1u8
}

/// Whether all probe bits of `key` are set: the filter's membership answer.
pub open spec fn spec_bloom_contains(bits: Seq<u8>, bit_size: nat, key: Seq<u8>) -> bool {
    &&& bit_size > 0
    &&& forall|i: int| 0 <= i < HASH_COUNT ==> bit_is_set(bits, #[trigger] spec_probe(key, i, bit_size))
}

/// The bits of `cur` are those of `orig` plus exactly the probe bits of
/// `key` numbered below `upto`.
pub open spec fn bits_with_probes(
    orig: Seq<u8>,
    cur: Seq<u8>,
    key: Seq<u8>,
    bsz: nat,
    upto: int,
) -> bool {
    &&& cur.len() == orig.len()
    &&& forall|idx: int|
        0 <= idx < 8 * orig.len() ==> (bit_is_set(cur, idx) <==> (bit_is_set(orig, idx)
            || probe_hit(key, bsz, idx, upto)))
}

/// Whether `idx` is one of the probe positions of `key` numbered below
/// `upto`.
pub open spec fn probe_hit(key: Seq<u8>, bsz: nat, idx: int, upto: int) -> bool
    decreases upto,
{
    if upto <= 0 {
        false
    } else {
        idx == spec_probe(key, upto - 1, bsz) || probe_hit(key, bsz, idx, upto - 1)
    }
}

/// Every probe position numbered below `upto` is a probe hit.
pub proof fn lemma_probe_within(key: Seq<u8>, bsz: nat, j: int, upto: int)
    requires
        0 <= j < upto,
    ensures
        probe_hit(key, bsz, spec_probe(key, j, bsz), upto),
    decreases upto,
{
    if j < upto - 1 {
        lemma_probe_within(key, bsz, j, upto - 1);
    }
}

/// Probabilistic key-membership filter serialized beside each on-disk table.
pub struct BloomFilter {
    bits: Vec<u8>,
    bit_size: usize,
}

impl BloomFilter {
    /// The packed bit bytes.
    pub closed spec fn spec_bits(&self) -> Seq<u8> {
        self.bits@
    }

    /// The number of usable bits.
    pub closed spec fn spec_bit_size(&self) -> nat {
        self.bit_size as nat
    }

    /// The byte array holds exactly the announced bits.
    pub open spec fn wf(&self) -> bool {
        self.spec_bits().len() == (self.spec_bit_size() + 7) / 8
    }

    /// Fresh filter sized at [`BITS_PER_KEY`] bits for each expected key;
    /// a filter for no keys holds no bits and rejects every query.
    pub fn new(key_count: usize) -> (r: Self)
        requires
            key_count * BITS_PER_KEY <= usize::MAX,
        ensures
            r.wf(),
            r.spec_bit_size() == if key_count == 0 {
                0
            } else {
                key_count * BITS_PER_KEY
            },
            forall|idx: int| 0 <= idx < 8 * r.spec_bits().len() ==> !bit_is_set(r.spec_bits(), idx),
    {
        let bit_size: usize = if key_count == 0 {
            0
        } else {
            key_count * BITS_PER_KEY
        };
        let byte_size: usize = (bit_size / 8) + if bit_size % 8 == 0 {
            0
        } else {
            1
        };
        let bits = vec![0u8; byte_size];
        proof {
            assert(byte_size == ((bit_size + 7) / 8) as usize);
            assert forall|idx: int| 0 <= idx < 8 * bits@.len() implies !bit_is_set(bits@, idx) by {
                let s: u8 = (idx % 8) as u8;
                assert((0u8 >> s) & 1u8 == 0u8) by (bit_vector);
            }
        }
        Self { bits, bit_size }
    }

    /// Rebuilds a filter from its serialized bytes and bit count.
    pub fn options(bits: Vec<u8>, bit_size: usize) -> (r: Self)
        ensures
            r.spec_bits() == bits@,
            r.spec_bit_size() == bit_size,
    {
        Self { bits, bit_size }
    }

    /// The serialized filter bytes.
    pub fn as_slice(&self) -> (r: &[u8])
        ensures
            r@ == self.spec_bits(),
    {
        self.bits.as_slice()
    }

    /// Number of filter bytes.
    pub fn len(&self) -> (r: usize)
        ensures
            r == self.spec_bits().len(),
    {
        self.bits.len()
    }

    /// Number of usable bits.
    pub fn bit_size(&self) -> (r: usize)
        ensures
            r == self.spec_bit_size(),
    {
        self.bit_size
    }

    /// Sets the probe bits of `key`, leaving every other bit as it was.
    pub fn add(&mut self, key: &[u8])
        requires
            old(self).wf(),
        ensures
            final(self).wf(),
            final(self).spec_bit_size() == old(self).spec_bit_size(),
            final(self).spec_bits().len() == old(self).spec_bits().len(),
            old(self).spec_bit_size() == 0 ==> final(self).spec_bits() == old(self).spec_bits(),
            old(self).spec_bit_size() > 0 ==> bits_with_probes(
                old(self).spec_bits(),
                final(self).spec_bits(),
                key@,
                old(self).spec_bit_size(),
                HASH_COUNT as int,
            ),
            old(self).spec_bit_size() > 0 ==> spec_bloom_contains(
                final(self).spec_bits(),
                final(self).spec_bit_size(),
                key@,
            ),
    {
        if self.bit_size == 0 {
            return ;
        }
        let (hi, lo) = hash_key_split(key);
        let bit_size = self.bit_size;
        let ghost bsz = self.bit_size as nat;
        let ghost orig = self.bits@;
        let mut i: usize = 0;
        while i < HASH_COUNT
            invariant
                0 < bit_size,
                bsz == bit_size as nat,
                i <= HASH_COUNT,
                hi == spec_hash_hi(key@),
                lo == spec_hash_lo(key@),
                self.bit_size == bit_size,
                self.bits@.len() == orig.len(),
                self.bits@.len() == (bsz + 7) / 8,
                bits_with_probes(orig, self.bits@, key@, bsz, i as int),
            decreases HASH_COUNT - i,
        {
            let idx = (hi.wrapping_add((i as u64).wrapping_mul(lo)) % (bit_size as u64)) as usize;
            proof {
                assert(idx == spec_probe(key@, i as int, bsz));
                assert(idx < bit_size);
                assert(idx / 8 < (bsz + 7) / 8);
            }
            let byte_idx = idx / 8;
            let bit_pos = idx % 8;
            let ghost pre = self.bits@;
            let b = self.bits[byte_idx];
            let nb = b | (1u8 << (bit_pos as u32));
            self.bits[byte_idx] = nb;
            proof {
                let s: u8 = bit_pos as u8;
                assert(b == pre[byte_idx as int]);
                assert(8 * pre.len() >= bsz);
                assert(self.bits@ == pre.update(byte_idx as int, nb));
                assert((nb >> s) & 1u8 == 1u8 && (forall|t: u8|
                    t < 8 && t != s ==> (nb >> t) & 1u8 == (b >> t) & 1u8)) by (bit_vector)
                    requires
                        s < 8,
                        nb == b | (1u8 << (s as u32)),
                ;
                assert forall|p: int|
                    0 <= p < 8 * orig.len() implies (bit_is_set(self.bits@, p) <==> (bit_is_set(
                    orig,
                    p,
                ) || probe_hit(key@, bsz, p, i + 1))) by {
                    assert(probe_hit(key@, bsz, p, i + 1) == (p == spec_probe(key@, i as int, bsz)
                        || probe_hit(key@, bsz, p, i as int)));
                    if p == idx {
                        assert(p == spec_probe(key@, i as int, bsz));
                        assert(bit_is_set(self.bits@, p));
                    } else {
                        if p / 8 == byte_idx {
                            let t: u8 = (p % 8) as u8;
                            assert(t != s && t < 8);
                            assert((nb >> t) & 1u8 == (b >> t) & 1u8);
                            assert(bit_is_set(self.bits@, p) == bit_is_set(pre, p));
                        } else {
                            assert(self.bits@[p / 8] == pre[p / 8]);
                        }
                        assert(bit_is_set(self.bits@, p) == bit_is_set(pre, p));
                    }
                }
                assert(bits_with_probes(orig, self.bits@, key@, bsz, i + 1));
            }
            i = i + 1;
        }
        proof {
            assert(bits_with_probes(orig, self.bits@, key@, bsz, HASH_COUNT as int));
            assert forall|j: int|
                0 <= j < HASH_COUNT implies bit_is_set(
                self.bits@,
                #[trigger] spec_probe(key@, j, bsz),
            ) by {
                let p = spec_probe(key@, j, bsz);
                assert(0 <= p < bsz);
                assert(8 * self.bits@.len() >= bsz);
                lemma_probe_within(key@, bsz, j, HASH_COUNT as int);
                assert(bit_is_set(self.bits@, p));
            }
        }
    }

    /// Answers whether all probe bits of `key` are set; `false` certainly
    /// means the key was never added.
    pub fn contains(&self, key: &[u8]) -> (r: bool)
        requires
            self.wf(),
        ensures
            r == spec_bloom_contains(self.spec_bits(), self.spec_bit_size(), key@),
    {
        if self.bit_size == 0 {
            return false;
        }
        let (hi, lo) = hash_key_split(key);
        let bit_size = self.bit_size;
        let ghost bsz = self.bit_size as nat;
        let mut i: usize = 0;
        while i < HASH_COUNT
            invariant
                0 < bit_size,
                bsz == bit_size as nat,
                i <= HASH_COUNT,
                hi == spec_hash_hi(key@),
                lo == spec_hash_lo(key@),
                self.wf(),
                self.bit_size == bit_size,
                forall|j: int| 0 <= j < i ==> bit_is_set(self.spec_bits(), #[trigger] spec_probe(key@, j, bsz)),
            decreases HASH_COUNT - i,
        {
            let idx = (hi.wrapping_add((i as u64).wrapping_mul(lo)) % (bit_size as u64)) as usize;
            proof {
                assert(idx == spec_probe(key@, i as int, bsz));
                assert(idx < bit_size);
                assert(idx / 8 < (bsz + 7) / 8);
            }
            let byte_idx = idx / 8;
            let bit_pos = idx % 8;
            let b = self.bits[byte_idx];
            if (b & (1u8 << (bit_pos as u32))) == 0 {
                proof {
                    let s: u8 = bit_pos as u8;
                    assert((b & (1u8 << (s as u32))) == 0 ==> ((b >> s) & 1u8) != 1u8)
                        by (bit_vector);
                    assert(!bit_is_set(self.spec_bits(), spec_probe(key@, i as int, bsz)));
                }
                return false;
            }
            proof {
                let s: u8 = bit_pos as u8;
                assert((b & (1u8 << (s as u32))) != 0 ==> ((b >> s) & 1u8) == 1u8) by (bit_vector);
            }
            i = i + 1;
        }
        true
    }
}

} // verus!
