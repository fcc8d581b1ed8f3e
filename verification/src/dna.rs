//! Genetic-code combination: each byte of a child's code is selected
//! bit-by-bit from one of the two parents' bytes under a selector byte.

use vstd::prelude::*;

verus! {

/// The number of bytes in every genetic code.
pub const DNA_LEN: usize = 16;

/// What one combined byte is: where a selector bit is 1 the bit comes
/// from `a`, where it is 0 the bit comes from `b`.
pub open spec fn combine_byte(a: u8, b: u8, s: u8) -> u8 {
    (s & a) | (!s & b)
}

/// The byte-wise combination of two codes under a selector sequence.
pub open spec fn combined(a: Seq<u8>, b: Seq<u8>, s: Seq<u8>) -> Seq<u8> {
    Seq::new(a.len(), |i: int| combine_byte(a[i], b[i], s[i]))
}

} // verus!
