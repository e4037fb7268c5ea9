//! FNV-1a, the 64-bit hash used for cache keys and for the lookup tables.

use vstd::prelude::*;

verus! {

/// The FNV-1a offset basis.
pub const FNV_OFFSET: u64 = 0xcbf29ce484222325;

/// The FNV-1a prime.
pub const FNV_PRIME: u64 = 0x100000001b3;

/// One FNV-1a round: fold `byte` into the running hash `h`.
pub open spec fn fnv_round(h: u64, byte: u8) -> u64 {
    (((h ^ (byte as u64)) as int * FNV_PRIME as int) % 0x1_0000_0000_0000_0000) as u64
}

/// The FNV-1a hash of `bytes`, started from the state `h`.
pub open spec fn fnv_from(h: u64, bytes: Seq<u8>) -> u64
    decreases bytes.len(),
{
    if bytes.len() == 0 {
        h
    } else {
        fnv_round(fnv_from(h, bytes.drop_last()), bytes.last())
    }
}

/// The FNV-1a hash of `bytes`.
pub open spec fn fnv_spec(bytes: Seq<u8>) -> u64 {
    fnv_from(FNV_OFFSET, bytes)
}

/// Continues an FNV-1a hash over more bytes.
pub fn fnv1a_from(start: u64, bytes: &[u8]) -> (h: u64)
    ensures
        h == fnv_from(start, bytes@),
{
    let mut h: u64 = start;
    for i in 0..bytes.len()
        invariant
            h == fnv_from(start, bytes@.take(i as int)),
    {
        proof {
            assert(bytes@.take(i + 1).drop_last() =~= bytes@.take(i as int));
        }
        h = (h ^ (bytes[i] as u64)).wrapping_mul(FNV_PRIME);
    }
    proof {
        assert(bytes@.take(bytes@.len() as int) =~= bytes@);
    }
    h
}

/// FNV-1a of a text's UTF-8 bytes.
pub fn fnv1a(s: &str) -> (h: u64)
    ensures
        h == fnv_spec(vstd::utf8::encode_utf8(s@)),
{
    fnv1a_from(FNV_OFFSET, s.as_bytes())
}

/// Hashing a concatenation is hashing its parts in turn.
pub proof fn lemma_fnv_concat(h: u64, a: Seq<u8>, b: Seq<u8>)
    ensures
        fnv_from(h, a + b) == fnv_from(fnv_from(h, a), b),
    decreases b.len(),
{
    if b.len() == 0 {
        assert(a + b =~= a);
    } else {
        assert((a + b).drop_last() =~= a + b.drop_last());
        lemma_fnv_concat(h, a, b.drop_last());
    }
}

/// The hash takes in one byte after the other: each is mixed into the low bits and the whole
/// is multiplied by the prime, modulo `2^64`; of nothing it is the offset basis.
pub proof fn law_bytes_are_hashed_in_order(h: u64, a: Seq<u8>, b: Seq<u8>, byte: u8)
    ensures
        fnv_from(h, a + b) == fnv_from(fnv_from(h, a), b),
        fnv_from(h, seq![byte]) as int == ((h ^ (byte as u64)) * 0x100000001b3)
            % 0x1_0000_0000_0000_0000,
        fnv_spec(Seq::empty()) == 0xcbf29ce484222325,
    decreases b.len(),
{
    if b.len() == 0 {
        assert(a + b =~= a);
    } else {
        assert((a + b).drop_last() =~= a + b.drop_last());
        law_bytes_are_hashed_in_order(h, a, b.drop_last(), byte);
    }
    let one = seq![byte];
    assert(one.drop_last() =~= Seq::<u8>::empty());
    assert(fnv_from(h, one.drop_last()) == h);
}

} // verus!
