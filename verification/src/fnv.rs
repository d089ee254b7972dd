//! FNV-1a, a fingerprint of text that is stable across builds.

use vstd::prelude::*;
use vstd::string::StringSliceAdditionalSpecFns;
use crate::rng::lemma_wrapping_mul_undone;

verus! {

/// The FNV-1a offset basis for 64 bits.
pub const FNV_OFFSET: u64 = 0xcbf2_9ce4_8422_2325;

/// The FNV-1a prime for 64 bits.
pub const FNV_PRIME: u64 = 0x0100_0000_01b3;

/// FNV-1a over `bytes`: start from the offset basis; for each byte, xor it
/// in, then multiply by the prime modulo 2^64.
pub open spec fn fnv1a(bytes: Seq<u8>) -> u64
    decreases bytes.len(),
{
    if bytes.len() == 0 {
        FNV_OFFSET
    } else {
        (fnv1a(bytes.drop_last()) ^ (bytes.last() as u64)).wrapping_mul(FNV_PRIME)
    }
}

/// The FNV-1a fingerprint of the UTF-8 bytes of `text`.
pub fn fingerprint(text: &str) -> (h: u64)
    ensures
        h == fnv1a(text.spec_bytes()),
{
    let bytes: &[u8] = text.as_bytes();
    let mut h: u64 = FNV_OFFSET;
    let mut i: usize = 0;
    while i < bytes.len()
        invariant
            i <= bytes@.len(),
            bytes@ == text.spec_bytes(),
            h == fnv1a(bytes@.take(i as int)),
        decreases bytes@.len() - i,
    {
        assert(bytes@.take(i + 1).drop_last() =~= bytes@.take(i as int));
        h = (h ^ (bytes[i] as u64)).wrapping_mul(FNV_PRIME);
        i = i + 1;
    }
    assert(bytes@.take(i as int) =~= bytes@);
    h
}

/// The fingerprint of a concatenation continues from the fingerprint of its
/// first part: it can be computed a piece at a time.
pub proof fn lemma_fnv1a_concat(a: Seq<u8>, b: Seq<u8>)
    ensures
        fnv1a(a + b) == fnv1a_from(fnv1a(a), b),
    decreases b.len(),
{
    if b.len() > 0 {
        assert((a + b).drop_last() =~= a + b.drop_last());
        lemma_fnv1a_concat(a, b.drop_last());
    } else {
        assert(a + b =~= a);
    }
}

/// FNV-1a over `bytes`, started from `h` in place of the offset basis.
pub open spec fn fnv1a_from(h: u64, bytes: Seq<u8>) -> u64
    decreases bytes.len(),
{
    if bytes.len() == 0 {
        h
    } else {
        (fnv1a_from(h, bytes.drop_last()) ^ (bytes.last() as u64)).wrapping_mul(FNV_PRIME)
    }
}

/// The fingerprint of the unicode-linebreak driver (its `lib.rs`) that the
/// tables were written for: the few lines that run the pair table.
pub const DRIVER: u64 = 0xfc66_1bcc_0def_2334;

/// Whether the crate's driver text is the one the tables were written for:
/// its fingerprint is `DRIVER`.
pub fn driver_unchanged(lib_text: &str) -> (ok: bool)
    ensures
        ok == (fnv1a(lib_text.spec_bytes()) == DRIVER),
{
    fingerprint(lib_text) == DRIVER
}

/// The inverse of [`FNV_PRIME`] modulo 2^64.
pub const FNV_PRIME_INVERSE: u64 = 0xce96_5057_aff6_957b;

/// One step of FNV-1a is one to one in the hash it starts from, and, from
/// the same hash, in the byte it takes in.
pub proof fn lemma_fnv_step_injective(h1: u64, h2: u64, b1: u8, b2: u8)
    requires
        h1 != h2 || b1 != b2,
        h1 == h2 || b1 == b2,
    ensures
        (h1 ^ (b1 as u64)).wrapping_mul(FNV_PRIME) != (h2 ^ (b2 as u64)).wrapping_mul(FNV_PRIME),
{
    assert((FNV_PRIME as int * FNV_PRIME_INVERSE as int) % 0x1_0000_0000_0000_0000int == 1) by (nonlinear_arith);
    lemma_wrapping_mul_undone(h1 ^ (b1 as u64), FNV_PRIME, FNV_PRIME_INVERSE);
    lemma_wrapping_mul_undone(h2 ^ (b2 as u64), FNV_PRIME, FNV_PRIME_INVERSE);
    let x1 = b1 as u64;
    let x2 = b2 as u64;
    assert(x1 != x2 || x1 == x2);
    assert((h1 != h2 && x1 == x2) ==> (h1 ^ x1) != (h2 ^ x2)) by (bit_vector);
    assert((h1 == h2 && x1 != x2) ==> (h1 ^ x1) != (h2 ^ x2)) by (bit_vector);
}

/// Continuing FNV-1a over the same bytes keeps different hashes apart.
pub proof fn lemma_fnv1a_from_injective(h1: u64, h2: u64, q: Seq<u8>)
    requires
        h1 != h2,
    ensures
        fnv1a_from(h1, q) != fnv1a_from(h2, q),
    decreases q.len(),
{
    if q.len() > 0 {
        lemma_fnv1a_from_injective(h1, h2, q.drop_last());
        lemma_fnv_step_injective(fnv1a_from(h1, q.drop_last()), fnv1a_from(h2, q.drop_last()), q.last(), q.last());
    }
}

/// Changing any one byte changes the fingerprint.
pub proof fn lemma_fnv1a_one_byte(p: Seq<u8>, x: u8, y: u8, q: Seq<u8>)
    requires
        x != y,
    ensures
        fnv1a(p.push(x) + q) != fnv1a(p.push(y) + q),
{
    assert(p.push(x).drop_last() =~= p);
    assert(p.push(y).drop_last() =~= p);
    lemma_fnv_step_injective(fnv1a(p), fnv1a(p), x, y);
    lemma_fnv1a_concat(p.push(x), q);
    lemma_fnv1a_concat(p.push(y), q);
    lemma_fnv1a_from_injective(fnv1a(p.push(x)), fnv1a(p.push(y)), q);
}

} // verus!
