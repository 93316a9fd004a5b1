//! The container checksums: CRC-32 (IEEE) over decoded payloads and the
//! header, and Adler-32 (RFC 1950) over inflated zlib output.

use vstd::prelude::*;

verus! {

/// The Adler-32 modulus.
pub const ADLER_MOD: u32 = 65521;

/// One bit step of the reflected CRC-32 register: shift right, and fold in
/// the reflected IEEE 802.3 polynomial `0xEDB88320` when a one falls out.
pub open spec fn crc_bit(c: u32) -> u32 {
    if c & 1 == 1 {
        (c >> 1) ^ 0xEDB8_8320u32
    } else {
        c >> 1
    }
}

/// The register after `n` bit steps.
pub open spec fn crc_bits(c: u32, n: nat) -> u32
    decreases n,
{
    if n == 0 {
        c
    } else {
        crc_bits(crc_bit(c), (n - 1) as nat)
    }
}

/// The register after absorbing the bytes of `s`, in order, from `c`.
pub open spec fn crc_register(c: u32, s: Seq<u8>) -> u32
    decreases s.len(),
{
    if s.len() == 0 {
        c
    } else {
        crc_bits(crc_register(c, s.drop_last()) ^ (s.last() as u32), 8)
    }
}

/// CRC-32 (IEEE 802.3, as zlib computes it) of a byte sequence: the
/// reflected register preset to all ones, complemented at the end.
pub open spec fn crc32_ieee(data: Seq<u8>) -> u32 {
    crc_register(0xFFFF_FFFFu32, data) ^ 0xFFFF_FFFFu32
}

/// CRC-32 (IEEE, zlib polynomial) over the given bytes.
///
/// Calls `crc32fast::hash`, which computes this standard CRC-32 (its
/// table-driven update is the bitwise definition above, eight bits at a
/// time); the contract states that result.
#[verifier::external_body]
pub fn crc32(bytes: &[u8]) -> (r: u32)
    ensures
        r == crc32_ieee(bytes@),
{
    crc32fast::hash(bytes)
}

/// The Adler-32 `A` sum: one plus the sum of all bytes (unreduced).
pub open spec fn adler_a(s: Seq<u8>) -> int
    decreases s.len(),
{
    if s.len() == 0 {
        1
    } else {
        adler_a(s.drop_last()) + s.last()
    }
}

/// The Adler-32 `B` sum: the sum of the `A` sums of every non-empty prefix
/// (unreduced).
pub open spec fn adler_b(s: Seq<u8>) -> int
    decreases s.len(),
{
    if s.len() == 0 {
        0
    } else {
        adler_b(s.drop_last()) + adler_a(s)
    }
}

/// Adler-32 (RFC 1950 §2.2): `B mod 65521` in the high half, `A mod 65521`
/// in the low half.
pub open spec fn adler32_of(s: Seq<u8>) -> u32 {
    ((adler_b(s) % 65521) * 65536 + adler_a(s) % 65521) as u32
}

proof fn lemma_adler_nonneg(s: Seq<u8>)
    ensures
        adler_a(s) >= 1,
        adler_b(s) >= 0,
    decreases s.len(),
{
    if s.len() > 0 {
        lemma_adler_nonneg(s.drop_last());
    }
}

/// Adler-32 (RFC 1950) over the given bytes.
pub fn adler32(bytes: &[u8]) -> (r: u32)
    ensures
        r == adler32_of(bytes@),
{
    let mut a: u32 = 1;
    let mut b: u32 = 0;
    let mut i: usize = 0;
    assert(bytes@.take(0) =~= Seq::<u8>::empty());
    while i < bytes.len()
        invariant
            i <= bytes@.len(),
            a == adler_a(bytes@.take(i as int)) % 65521,
            b == adler_b(bytes@.take(i as int)) % 65521,
        decreases bytes@.len() - i,
    {
        let byte = bytes[i];
        let ghost prev = bytes@.take(i as int);
        let ghost next = bytes@.take(i as int + 1);
        assert(next.drop_last() =~= prev);
        proof {
            lemma_adler_nonneg(prev);
            vstd::arithmetic::div_mod::lemma_add_mod_noop(adler_a(prev), byte as int, 65521);
            vstd::arithmetic::div_mod::lemma_small_mod(byte as nat, 65521);
            vstd::arithmetic::div_mod::lemma_mod_twice(adler_a(prev), 65521);
        }
        a = (a + byte as u32) % ADLER_MOD;
        assert(a == adler_a(next) % 65521);
        proof {
            lemma_adler_nonneg(next);
            vstd::arithmetic::div_mod::lemma_add_mod_noop(adler_b(prev), adler_a(next), 65521);
            vstd::arithmetic::div_mod::lemma_mod_twice(adler_b(prev), 65521);
            vstd::arithmetic::div_mod::lemma_mod_twice(adler_a(next), 65521);
        }
        b = (b + a) % ADLER_MOD;
        assert(b == adler_b(next) % 65521);
        i += 1;
    }
    assert(bytes@.take(bytes@.len() as int) =~= bytes@);
    assert(a < 65536 && b < 65536);
    let r = (b << 16) | a;
    assert((b << 16) | a == b * 65536 + a) by (bit_vector)
        requires
            a < 65536,
            b < 65536,
    ;
    r
}

} // verus!
