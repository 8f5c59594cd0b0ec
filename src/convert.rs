use vstd::prelude::*;

verus! {

/// Maximum ADC value.
pub const MAX_VALUE: i32 = 0x7F_FFFF;

/// Minimum ADC value, given as the magnitude of the most negative sample.
pub const MIN_VALUE: i32 = 0x80_0000;

/// The value of a 24-bit two's-complement word `x` (`0 <= x < 2^24`).
pub open spec fn sign_extend_24(x: int) -> int {
    if x >= 0x800000 {
        x - 0x1000000
    } else {
        x
    }
}

/// Converts a 24-bit two's-complement word, held in the low bits of an
/// `i32`, to the signed value it stands for.
///
/// Words at or above `0x800000` have bit 23 set and get the upper eight bits
/// filled with ones; smaller ones are returned unchanged.
pub fn i24_to_i32(x: i32) -> (r: i32)
    ensures
        0 <= x <= 0xFFFFFF ==> r == sign_extend_24(x as int),
        0 <= x <= 0xFFFFFF ==> -0x800000 <= r <= 0x7FFFFF,
        x < 0x800000 ==> r == x,
        x >= 0x800000 ==> r == x | !0xFFFFFFi32,
{
    if x >= 0x800000 {
        let r = x | !0xFFFFFFi32;
        assert(0x800000 <= x <= 0xFFFFFF ==> x | !0xFFFFFFi32 == x - 0x1000000) by (bit_vector);
        r
    } else {
        x
    }
}

} // verus!
