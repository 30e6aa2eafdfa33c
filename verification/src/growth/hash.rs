//! Seeded rolling hash over the UTF-8 bytes of a key.

use vstd::prelude::*;
use vstd::string::StringSliceAdditionalSpecFns;

verus! {

/// One step of the rolling hash: multiply by 31, add the byte, wrap at 32 bits.
pub open spec fn mix(h: u32, byte: u8) -> u32 {
    h.wrapping_mul(31).wrapping_add(byte as u32)
}

/// The hash reached from `seed` after absorbing `bytes` from left to right.
pub open spec fn hash_bytes(seed: u32, bytes: Seq<u8>) -> u32
    decreases bytes.len(),
{
    if bytes.len() == 0 {
        seed
    } else {
        mix(hash_bytes(seed, bytes.drop_last()), bytes.last())
    }
}

/// Absorbing `a` and then `b` is the same as absorbing their concatenation.
pub proof fn lemma_hash_concat(seed: u32, a: Seq<u8>, b: Seq<u8>)
    ensures
        hash_bytes(seed, a + b) == hash_bytes(hash_bytes(seed, a), b),
    decreases b.len(),
{
    if b.len() == 0 {
        assert(a + b =~= a);
    } else {
        lemma_hash_concat(seed, a, b.drop_last());
        assert((a + b).drop_last() =~= a + b.drop_last());
        assert((a + b).last() == b.last());
    }
}

/// Continues a hash computation with the bytes of `key`.
pub fn hash_string(seed: u32, key: &str) -> (h: u32)
    ensures
        h == hash_bytes(seed, key.spec_bytes()),
{
    let bytes = key.as_bytes();
    let mut h: u32 = seed;
    let mut i: usize = 0;
    while i < bytes.len()
        invariant
            i <= bytes.len(),
            h == hash_bytes(seed, bytes@.take(i as int)),
        decreases bytes.len() - i,
    {
        let b: u8 = bytes[i];
        proof {
            let next = bytes@.take(i + 1);
            assert(next.drop_last() =~= bytes@.take(i as int));
            assert(next.last() == b);
        }
        h = h.wrapping_mul(31).wrapping_add(b as u32);
        i += 1;
    }
    proof {
        assert(bytes@.take(i as int) =~= bytes@);
    }
    h
}

} // verus!
