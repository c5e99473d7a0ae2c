//! The 64-bit key fingerprint: a deterministic hash of a storage key, split
//! into a routing `signature` and a `partition` part.  Fingerprints stand in
//! for full keys inside chain rows, so they must have a fixed 8-byte layout.
use vstd::bytes::{
    lemma_auto_spec_u32_to_from_le_bytes, spec_u32_from_le_bytes, spec_u32_to_le_bytes,
    u32_from_le_bytes, u32_to_le_bytes,
};
use vstd::prelude::*;

verus! {

/// Offset basis of the 64-bit FNV-1a hash.
pub const FNV_BASIS: u64 = 0xcbf2_9ce4_8422_2325;

/// Multiplier of the 64-bit FNV-1a hash.
pub const FNV_PRIME: u64 = 0x0000_0100_0000_01b3;

/// A 64-bit fingerprint of a byte key.  `signature` routes a list to its
/// lock slot; together the two halves form the 8-byte stand-in for a key.
#[derive(Clone, Copy, Debug, PartialEq, Eq, Structural)]
pub struct PartedHash {
    pub signature: u32,
    pub partition: u32,
}

/// One step of FNV-1a: fold one byte into the running state.
pub open spec fn fnv_step(h: u64, b: u8) -> u64 {
    ((((h ^ (b as u64)) as int) * (FNV_PRIME as int)) % 0x1_0000_0000_0000_0000) as u64
}

/// The 64-bit FNV-1a hash of a byte sequence.
pub open spec fn fnv64(s: Seq<u8>) -> u64
    decreases s.len(),
{
    if s.len() == 0 {
        FNV_BASIS
    } else {
        fnv_step(fnv64(s.drop_last()), s.last())
    }
}

/// Split a 64-bit hash into its two 32-bit halves.
pub open spec fn ph_of_u64(h: u64) -> PartedHash {
    PartedHash {
        signature: (h & 0xffff_ffff) as u32,
        partition: ((h >> 32) & 0xffff_ffff) as u32,
    }
}

/// The fingerprint of a storage key.
pub open spec fn spec_hash(s: Seq<u8>) -> PartedHash {
    ph_of_u64(fnv64(s))
}

/// Computes the fingerprint of a storage key.
pub fn hash_bytes(s: &[u8]) -> (r: PartedHash)
    ensures
        r == spec_hash(s@),
{
    let mut h: u64 = FNV_BASIS;
    let mut i: usize = 0;
    while i < s.len()
        invariant
            0 <= i <= s@.len(),
            h == fnv64(s@.take(i as int)),
        decreases s@.len() - i,
    {
        let b = s[i];
        proof {
            assert(s@.take(i + 1).drop_last() =~= s@.take(i as int));
            assert(s@.take(i + 1).last() == s@[i as int]);
        }
        let folded: u64 = h ^ (b as u64);
        proof {
            assert((folded as u128) * (FNV_PRIME as u128) < 0x1_0000_0000_0000_0000u128
                * 0x200_0000_0000u128) by (nonlinear_arith)
                requires
                    folded <= 0xffff_ffff_ffff_ffffu64,
            ;
        }
        let x: u128 = (folded as u128) * (FNV_PRIME as u128);
        h = (x % 0x1_0000_0000_0000_0000u128) as u64;
        i = i + 1;
    }
    proof {
        assert(s@.take(s@.len() as int) =~= s@);
    }
    let sig: u64 = h & 0xffff_ffff;
    let part: u64 = (h >> 32) & 0xffff_ffff;
    proof {
        assert(h & 0xffff_ffff <= 0xffff_ffff && (h >> 32) & 0xffff_ffff <= 0xffff_ffff)
            by (bit_vector);
    }
    PartedHash { signature: sig as u32, partition: part as u32 }
}

/// The fixed 8-byte layout of a fingerprint: both halves little-endian,
/// signature first.
pub open spec fn ph_to_bytes(p: PartedHash) -> Seq<u8> {
    spec_u32_to_le_bytes(p.signature) + spec_u32_to_le_bytes(p.partition)
}

/// Reads a fingerprint back from its 8-byte layout.
pub open spec fn ph_from_bytes(s: Seq<u8>) -> PartedHash
    recommends
        s.len() == 8,
{
    PartedHash {
        signature: spec_u32_from_le_bytes(s.subrange(0, 4)),
        partition: spec_u32_from_le_bytes(s.subrange(4, 8)),
    }
}

pub proof fn lemma_ph_bytes_len(p: PartedHash)
    ensures
        ph_to_bytes(p).len() == 8,
{
    lemma_auto_spec_u32_to_from_le_bytes();
}

pub proof fn lemma_ph_bytes_roundtrip(p: PartedHash)
    ensures
        ph_to_bytes(p).len() == 8,
        ph_from_bytes(ph_to_bytes(p)) == p,
{
    lemma_auto_spec_u32_to_from_le_bytes();
    assert(ph_to_bytes(p).subrange(0, 4) =~= spec_u32_to_le_bytes(p.signature));
    assert(ph_to_bytes(p).subrange(4, 8) =~= spec_u32_to_le_bytes(p.partition));
}

/// Writes the 8-byte layout of a fingerprint.
pub fn ph_bytes(p: &PartedHash) -> (r: Vec<u8>)
    ensures
        r@ == ph_to_bytes(*p),
        r@.len() == 8,
{
    proof {
        lemma_ph_bytes_len(*p);
    }
    let mut r = u32_to_le_bytes(p.signature);
    let mut hi = u32_to_le_bytes(p.partition);
    r.append(&mut hi);
    r
}

/// Reads a fingerprint from its 8-byte layout.
pub fn ph_parse(b: &[u8]) -> (r: PartedHash)
    requires
        b@.len() == 8,
    ensures
        r == ph_from_bytes(b@),
{
    let lo = vstd::slice::slice_subrange(b, 0, 4);
    let hi = vstd::slice::slice_subrange(b, 4, 8);
    let signature = u32_from_le_bytes(lo);
    let partition = u32_from_le_bytes(hi);
    PartedHash { signature, partition }
}

} // verus!
