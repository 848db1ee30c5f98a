//! Equality of bytes, and of floating-point numbers that are given by their IEEE
//! 754 bit patterns.
use vstd::prelude::*;

verus! {

/// The single-precision pattern stands for no number.
pub open spec fn nan32(a: u32) -> bool {
    a as int % 0x8000_0000 > 0x7f80_0000
}

/// The double-precision pattern stands for no number.
pub open spec fn nan64(a: u64) -> bool {
    a as int % 0x8000_0000_0000_0000 > 0x7ff0_0000_0000_0000
}

/// The numbers are equal: what is no number equals nothing, and the two zeros
/// equal each other.
pub open spec fn equal32(a: u32, b: u32) -> bool {
    &&& !nan32(a)
    &&& !nan32(b)
    &&& a == b || (a as int % 0x8000_0000 == 0 && b as int % 0x8000_0000 == 0)
}

/// The numbers are equal: what is no number equals nothing, and the two zeros
/// equal each other.
pub open spec fn equal64(a: u64, b: u64) -> bool {
    &&& !nan64(a)
    &&& !nan64(b)
    &&& a == b || (a as int % 0x8000_0000_0000_0000 == 0 && b as int % 0x8000_0000_0000_0000 == 0)
}

/// Whether the single-precision numbers are equal.
pub fn same32(a: u32, b: u32) -> (r: bool)
    ensures
        r == equal32(a, b),
{
    let x: u32 = a % 0x8000_0000;
    let y: u32 = b % 0x8000_0000;
    x <= 0x7f80_0000 && y <= 0x7f80_0000 && (a == b || (x == 0 && y == 0))
}

/// Whether the double-precision numbers are equal.
pub fn same64(a: u64, b: u64) -> (r: bool)
    ensures
        r == equal64(a, b),
{
    let x: u64 = a % 0x8000_0000_0000_0000;
    let y: u64 = b % 0x8000_0000_0000_0000;
    x <= 0x7ff0_0000_0000_0000 && y <= 0x7ff0_0000_0000_0000 && (a == b || (x == 0 && y == 0))
}

/// Whether two byte sequences are equal.
pub fn same_bytes(a: &[u8], b: &[u8]) -> (r: bool)
    ensures
        r == (a@ == b@),
{
    if a.len() != b.len() {
        return false;
    }
    let mut i: usize = 0;
    while i < a.len()
        invariant
            i <= a@.len(),
            a@.len() == b@.len(),
            forall|k: int| 0 <= k < i ==> a@[k] == b@[k],
        decreases a@.len() - i,
    {
        if a[i] != b[i] {
            return false;
        }
        i += 1;
    }
    assert(a@ =~= b@);
    true
}

/// The place of a single-precision number in the order of the numbers, from its sign
/// and magnitude.
pub open spec fn rank32(a: u32) -> int {
    if a < 0x8000_0000 {
        a as int
    } else {
        0x8000_0000 - a
    }
}

/// The place of a double-precision number in the order of the numbers, from its sign
/// and magnitude.
pub open spec fn rank64(a: u64) -> int {
    if a < 0x8000_0000_0000_0000 {
        a as int
    } else {
        0x8000_0000_0000_0000 - a
    }
}

/// Single-precision numbers are equal exactly if they have the same place in the order
/// and neither is beyond the infinities, where the exponent is full and the fraction is
/// not zero.
pub proof fn lemma_equal32(a: u32, b: u32)
    ensures
        equal32(a, b) <==> rank32(a) == rank32(b) && -0x7f80_0000 <= rank32(a) <= 0x7f80_0000,
        (a / 0x80_0000) % 0x100 == 0xff && a % 0x80_0000 != 0 ==> !equal32(a, b) && !equal32(b, a),
        equal32(a, b) == equal32(b, a),
{
}

/// Double-precision numbers are equal exactly if they have the same place in the order
/// and neither is beyond the infinities, where the exponent is full and the fraction is
/// not zero.
pub proof fn lemma_equal64(a: u64, b: u64)
    ensures
        equal64(a, b) <==> rank64(a) == rank64(b) && -0x7ff0_0000_0000_0000 <= rank64(a)
            <= 0x7ff0_0000_0000_0000,
        (a / 0x10_0000_0000_0000) % 0x800 == 0x7ff && a % 0x10_0000_0000_0000 != 0 ==> !equal64(
            a,
            b,
        ) && !equal64(b, a),
        equal64(a, b) == equal64(b, a),
{
}

} // verus!
