//! Fields of note. A field is the occupancy of the four rows of the box, bit `10 * row + 9 - col`.

use vstd::prelude::*;
use crate::bits;

verus! {

/// The full box: four lines are done.
pub const MAX_HASH: u64 = 0xFF_FFFF_FFFF;

/// The two lower lines full and nothing else: two lines are done.
pub const TWO_LINE_HASH: u64 = 0xF_FFFF;

/// The full box has all cells of its four rows, the field with two lines done those of the lower two.
pub proof fn law_fields_of_note(i: int)
    ensures
        bits::bit(MAX_HASH, i) <==> 0 <= i < 40,
        bits::bit(TWO_LINE_HASH, i) <==> 0 <= i < 20,
{
    reveal(bits::bit);
    if 0 <= i < 64 {
        let k: u64 = i as u64;
        assert((((0xFF_FFFF_FFFFu64 >> k) & 1 == 1) == (k < 40)) && (((0xF_FFFFu64 >> k) & 1 == 1)
            == (k < 20))) by (bit_vector)
            requires
                k < 64,
        ;
    }
}

} // verus!
