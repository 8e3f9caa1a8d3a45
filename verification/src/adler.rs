//! The Adler-32 checksum of RFC 1950.
use vstd::prelude::*;

verus! {

/// The modulus of both running sums: the largest prime below 2^16.
pub const ADLER_MODULUS: u32 = 65521;

/// The first running sum: one plus the sum of all bytes, modulo 65521.
pub open spec fn adler_s1(data: Seq<u8>) -> nat
    decreases data.len(),
{
    if data.len() == 0 {
        1
    } else {
        (adler_s1(data.drop_last()) + data.last() as nat) % 65521
    }
}

/// The second running sum: the sum of every intermediate value of the first
/// sum, modulo 65521.
pub open spec fn adler_s2(data: Seq<u8>) -> nat
    decreases data.len(),
{
    if data.len() == 0 {
        0
    } else {
        (adler_s2(data.drop_last()) + adler_s1(data)) % 65521
    }
}

/// Adler-32 of `data`: the second sum in the high half, the first in the low.
pub open spec fn adler32(data: Seq<u8>) -> nat {
    adler_s2(data) * 65536 + adler_s1(data)
}

/// Both running sums stay below the modulus, so the checksum fits 32 bits.
pub proof fn lemma_adler_bounds(data: Seq<u8>)
    ensures
        adler_s1(data) < 65521,
        adler_s2(data) < 65521,
        adler32(data) < 0x1_0000_0000,
    decreases data.len(),
{
    if data.len() > 0 {
        lemma_adler_bounds(data.drop_last());
    }
}

/// Computes the Adler-32 checksum of `data`.
pub fn calc_adler_hash(data: &[u8]) -> (hash: u32)
    ensures
        hash == adler32(data@),
{
    let mut s1: u32 = 1;
    let mut s2: u32 = 0;
    let mut i: usize = 0;
    while i < data.len()
        invariant
            i <= data.len(),
            s1 == adler_s1(data@.take(i as int)),
            s2 == adler_s2(data@.take(i as int)),
            s1 < 65521,
            s2 < 65521,
        decreases data.len() - i,
    {
        proof {
            assert(data@.take(i + 1).drop_last() =~= data@.take(i as int));
        }
        s1 = (s1 + data[i] as u32) % ADLER_MODULUS;
        s2 = (s2 + s1) % ADLER_MODULUS;
        i += 1;
    }
    proof {
        assert(data@.take(i as int) =~= data@);
        assert(((s2 as u32) << 16) | (s1 as u32) == s2 * 65536 + s1) by (bit_vector)
            requires
                s1 < 65521,
                s2 < 65521,
        ;
    }
    (s2 << 16) | s1
}

} // verus!
