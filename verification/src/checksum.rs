//! CRC-32C checksums.
use vstd::prelude::*;

verus! {

/// The Castagnoli polynomial, lowest power first.
pub const CRC32C_POLYNOMIAL: u32 = 0x82f6_3b78;

/// The remainder after one more bit.
pub open spec fn after_bit(remainder: u32) -> u32 {
    if remainder & 1 == 1 {
        (remainder >> 1) ^ CRC32C_POLYNOMIAL
    } else {
        remainder >> 1
    }
}

/// The remainder after `count` more bits.
pub open spec fn after_bits(remainder: u32, count: nat) -> u32
    decreases count,
{
    if count == 0 {
        remainder
    } else {
        after_bit(after_bits(remainder, (count - 1) as nat))
    }
}

/// The remainder of the bytes, starting from all ones.
pub open spec fn remainder_of(bytes: Seq<u8>) -> u32
    decreases bytes.len(),
{
    if bytes.len() == 0 {
        0xffff_ffff
    } else {
        after_bits(remainder_of(bytes.drop_last()) ^ (bytes.last() as u32), 8)
    }
}

/// The CRC-32C checksum of bytes.
pub open spec fn checksum_of(bytes: Seq<u8>) -> u32 {
    remainder_of(bytes) ^ 0xffff_ffff
}

/// Computes the CRC-32C checksum of bytes.
pub fn crc32c(bytes: &[u8]) -> (checksum: u32)
    ensures
        checksum == checksum_of(bytes@),
{
    let mut remainder: u32 = 0xffff_ffff;
    let mut i: usize = 0;
    proof {
        assert(bytes@.take(0) =~= Seq::<u8>::empty());
    }
    while i < bytes.len()
        invariant
            i <= bytes@.len(),
            remainder == remainder_of(bytes@.take(i as int)),
        decreases bytes@.len() - i,
    {
        proof {
            assert(bytes@.take(i + 1).drop_last() =~= bytes@.take(i as int));
            assert(bytes@.take(i + 1).last() == bytes@[i as int]);
        }
        remainder = remainder ^ (bytes[i] as u32);
        let ghost start = remainder;
        let mut bit: u32 = 0;
        while bit < 8
            invariant
                bit <= 8,
                remainder == after_bits(start, bit as nat),
            decreases 8 - bit,
        {
            if remainder & 1 == 1 {
                remainder = (remainder >> 1) ^ CRC32C_POLYNOMIAL;
            } else {
                remainder = remainder >> 1;
            }
            bit += 1;
        }
        i += 1;
    }
    proof {
        assert(bytes@.take(i as int) =~= bytes@);
    }
    remainder ^ 0xffff_ffff
}

proof fn bits_keep_remainders_apart(a: u32, b: u32, count: nat)
    requires
        a != b,
    ensures
        after_bits(a, count) != after_bits(b, count),
    decreases count,
{
    if count > 0 {
        let less = (count - 1) as nat;
        bits_keep_remainders_apart(a, b, less);
        let x = after_bits(a, less);
        let y = after_bits(b, less);
        assert(x != y ==> (if x & 1 == 1 {
            (x >> 1) ^ 0x82f6_3b78u32
        } else {
            x >> 1
        }) != (if y & 1 == 1 {
            (y >> 1) ^ 0x82f6_3b78u32
        } else {
            y >> 1
        })) by (bit_vector);
    }
}

/// Damage to one byte is always noticed: two byte strings that differ in exactly one byte have
/// different checksums.
pub proof fn one_damaged_byte_changes_the_checksum(a: Seq<u8>, b: Seq<u8>, i: int)
    requires
        a.len() == b.len(),
        0 <= i < a.len(),
        a[i] != b[i],
        forall|j: int| 0 <= j < a.len() && j != i ==> a[j] == b[j],
    ensures
        checksum_of(a) != checksum_of(b),
{
    damage_stays(a, b, i);
    let x = remainder_of(a);
    let y = remainder_of(b);
    assert(x != y ==> x ^ 0xffff_ffff != y ^ 0xffff_ffff) by (bit_vector);
}

proof fn damage_stays(a: Seq<u8>, b: Seq<u8>, i: int)
    requires
        a.len() == b.len(),
        0 <= i < a.len(),
        a[i] != b[i],
        forall|j: int| 0 <= j < a.len() && j != i ==> a[j] == b[j],
    ensures
        remainder_of(a) != remainder_of(b),
    decreases a.len(),
{
    let left = a.drop_last();
    let right = b.drop_last();
    let x = remainder_of(left);
    let y = remainder_of(right);
    let p = a.last() as u32;
    let q = b.last() as u32;
    if i == a.len() - 1 {
        assert(left =~= right);
        assert(p != q ==> x ^ p != x ^ q) by (bit_vector);
        bits_keep_remainders_apart(x ^ p, x ^ q, 8);
    } else {
        assert(left[i] != right[i]);
        damage_stays(left, right, i);
        assert(a[a.len() - 1] == b[b.len() - 1]);
        assert(x != y ==> x ^ p != y ^ p) by (bit_vector);
        bits_keep_remainders_apart(x ^ p, y ^ p, 8);
    }
}

} // verus!
