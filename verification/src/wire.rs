use vstd::prelude::*;

verus! {

// Big-endian byte layouts for the fixed-width fields of the codec's wire
// format, with proofs that writing and reading them back is the identity.

/// The four big-endian bytes of a 32-bit value.
pub open spec fn be32(n: u32) -> Seq<u8> {
    seq![
        (n >> 24) as u8,
        (n >> 16) as u8,
        (n >> 8) as u8,
        n as u8,
    ]
}

/// The 32-bit value read from four big-endian bytes.
pub open spec fn be32_val(b0: u8, b1: u8, b2: u8, b3: u8) -> u32 {
    ((b0 as u32) << 24) | ((b1 as u32) << 16) | ((b2 as u32) << 8) | (b3 as u32)
}

/// Reading back the four bytes of `n` yields `n`.
pub proof fn lemma_be32_roundtrip(n: u32)
    ensures
        be32_val((n >> 24) as u8, (n >> 16) as u8, (n >> 8) as u8, n as u8) == n,
{
    assert((((n >> 24) as u8 as u32) << 24) | (((n >> 16) as u8 as u32) << 16) | (((n >> 8) as u8
        as u32) << 8) | (n as u8 as u32) == n) by (bit_vector);
}

/// The eight big-endian bytes of a 64-bit value.
pub open spec fn be64(n: u64) -> Seq<u8> {
    seq![
        (n >> 56) as u8,
        (n >> 48) as u8,
        (n >> 40) as u8,
        (n >> 32) as u8,
        (n >> 24) as u8,
        (n >> 16) as u8,
        (n >> 8) as u8,
        n as u8,
    ]
}

/// The 64-bit value read from eight big-endian bytes.
pub open spec fn be64_val(b0: u8, b1: u8, b2: u8, b3: u8, b4: u8, b5: u8, b6: u8, b7: u8) -> u64 {
    ((b0 as u64) << 56) | ((b1 as u64) << 48) | ((b2 as u64) << 40) | ((b3 as u64) << 32) | ((
    b4 as u64) << 24) | ((b5 as u64) << 16) | ((b6 as u64) << 8) | (b7 as u64)
}

/// Reading back the eight bytes of `n` yields `n`.
pub proof fn lemma_be64_roundtrip(n: u64)
    ensures
        be64_val(
            (n >> 56) as u8,
            (n >> 48) as u8,
            (n >> 40) as u8,
            (n >> 32) as u8,
            (n >> 24) as u8,
            (n >> 16) as u8,
            (n >> 8) as u8,
            n as u8,
        ) == n,
{
    assert((((n >> 56) as u8 as u64) << 56) | (((n >> 48) as u8 as u64) << 48) | (((n >> 40) as u8
        as u64) << 40) | (((n >> 32) as u8 as u64) << 32) | (((n >> 24) as u8 as u64) << 24) | (((n
        >> 16) as u8 as u64) << 16) | (((n >> 8) as u8 as u64) << 8) | (n as u8 as u64) == n)
        by (bit_vector);
}

/// The unsigned 64-bit pattern that stands for a signed value: two's
/// complement, as a mathematical integer.
pub open spec fn to_unsigned64(i: int) -> int {
    if i >= 0 {
        i
    } else {
        i + 0x1_0000_0000_0000_0000
    }
}

/// The signed value a 64-bit pattern stands for.
pub open spec fn to_signed64(n: int) -> int {
    if n < 0x8000_0000_0000_0000 {
        n
    } else {
        n - 0x1_0000_0000_0000_0000
    }
}

/// The two conversions invert each other on the `i64` range.
pub proof fn lemma_signed64_roundtrip(i: int)
    requires
        -0x8000_0000_0000_0000 <= i < 0x8000_0000_0000_0000,
    ensures
        to_signed64(to_unsigned64(i)) == i,
        0 <= to_unsigned64(i) < 0x1_0000_0000_0000_0000,
{
}

/// The two's-complement bit pattern of a signed 64-bit value.
pub fn i64_bits(v: i64) -> (r: u64)
    ensures
        r as int == to_unsigned64(v as int),
{
    if v >= 0 {
        v as u64
    } else {
        let m: u64 = (-(v + 1)) as u64;
        u64::MAX - m
    }
}

/// The signed 64-bit value of a two's-complement bit pattern.
pub fn i64_from_bits(n: u64) -> (r: i64)
    ensures
        r as int == to_signed64(n as int),
{
    if n <= i64::MAX as u64 {
        n as i64
    } else {
        let m: u64 = u64::MAX - n;
        -(m as i64) - 1
    }
}

} // verus!
