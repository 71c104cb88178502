use vstd::prelude::*;

verus! {

/// The highest bit of a u64.
pub const HIGHEST_BIT: u64 = 0x8000_0000_0000_0000;

/// The order-preserving u64 form of an i64: the value shifted up by `2^63`.
pub open spec fn i64_to_u64_spec(val: i64) -> u64 {
    (val as int + 0x8000_0000_0000_0000) as u64
}

/// Maps an i64 to a u64 so that the order of the values is kept.
pub fn i64_to_u64(val: i64) -> (r: u64)
    ensures
        r == i64_to_u64_spec(val),
        r as int == val as int + 0x8000_0000_0000_0000,
{
    if val >= 0 {
        val as u64 + HIGHEST_BIT
    } else {
        (val + 0x7fff_ffff_ffff_ffff + 1) as u64
    }
}

/// Reverse of `i64_to_u64`.
pub fn u64_to_i64(val: u64) -> (r: i64)
    ensures
        r as int == val as int - 0x8000_0000_0000_0000,
{
    if val >= HIGHEST_BIT {
        (val - HIGHEST_BIT) as i64
    } else {
        val as i64 - 0x7fff_ffff_ffff_ffff - 1
    }
}

} // verus!

verus! {

/// The IEEE-754 bit pattern that the order-preserving u64 form of an f64
/// stands for: positive numbers had their sign bit set, negative ones had
/// every bit flipped.
pub open spec fn f64_bits_spec(val: u64) -> u64 {
    if val >= HIGHEST_BIT {
        (val - HIGHEST_BIT) as u64
    } else {
        (0xffff_ffff_ffff_ffff - val) as u64
    }
}

/// Maps the order-preserving u64 form of an f64 back to the f64's bits.
pub fn u64_to_f64_bits(val: u64) -> (r: u64)
    ensures
        r == f64_bits_spec(val),
{
    if val & HIGHEST_BIT != 0 {
        assert(val & 0x8000_0000_0000_0000u64 != 0 ==> val >= 0x8000_0000_0000_0000u64 && val ^ 0x8000_0000_0000_0000u64 == val - 0x8000_0000_0000_0000u64) by (bit_vector);
        val ^ HIGHEST_BIT
    } else {
        assert(val & 0x8000_0000_0000_0000u64 == 0 ==> val < 0x8000_0000_0000_0000u64 && !val == 0xffff_ffff_ffff_ffffu64 - val) by (bit_vector);
        !val
    }
}

} // verus!
