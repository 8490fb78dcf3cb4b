//! Digit codec for `char`: a character sorts by its code point, reusing the
//! base-16 digits of the 32-bit unsigned codec.

use vstd::prelude::*;

use vstd::arithmetic::div_mod::lemma_small_mod;
use vstd::arithmetic::power2::{lemma2_to64, pow2};
use vstd::utf8::char_u32_cast;

use crate::order::{le_from, rdx_le};
use crate::unsigned_integer::{
    lemma_nibble_eq, lemma_nibble_le_iff, lemma_nibble_range, nibble_extract, nibble_le, nibble_of,
};
use crate::Rdx;

verus! {

impl Rdx for char {
    open spec fn nbuckets_spec() -> int {
        16
    }

    open spec fn nrounds_spec() -> int {
        8
    }

    open spec fn digit_spec(self, round: int) -> int {
        nibble_of(self as u32 as int, round)
    }

    open spec fn reverse_spec(round: int, bucket: int) -> bool {
        false
    }

    open spec fn supported(self) -> bool {
        true
    }

    proof fn lemma_config_nonneg() {
    }

    proof fn lemma_digit_in_range(self, round: int) {
        lemma_nibble_range(self as u32 as int, round);
    }

    proof fn lemma_digits_injective(self, other: Self) {
        let sv = self as u32 as int;
        let ov = other as u32 as int;
        assert forall|q: int| 0 <= q < 8 implies nibble_of(sv, q) == nibble_of(ov, q) by {
            assert(self.digit_spec(q) == other.digit_spec(q));
        }
        lemma_nibble_eq(sv, ov, 8);
        lemma2_to64();
        lemma_small_mod(self as u32 as nat, pow2(32));
        lemma_small_mod(other as u32 as nat, pow2(32));
        char_u32_cast(self, self as u32);
        char_u32_cast(other, other as u32);
    }

    fn cfg_nbuckets() -> usize {
        16
    }

    fn cfg_nrounds() -> usize {
        8
    }

    fn get_bucket(&self, round: usize) -> usize {
        nibble_extract(*self as u32 as u64, round)
    }

    fn reverse(round: usize, bucket: usize) -> bool {
        false
    }
}

proof fn lemma_le_from_is_nibble_le_char(x: char, y: char, r: int)
    ensures
        le_from(x, y, r, false) == nibble_le(x as u32 as int, y as u32 as int, r),
    decreases r,
{
    if r > 0 {
        lemma_le_from_is_nibble_le_char(x, y, r - 1);
    }
}

/// A character sorts by its code point.
pub proof fn lemma_rdx_le_char(x: char, y: char)
    ensures
        rdx_le(x, y) <==> x as u32 <= y as u32,
{
    lemma_le_from_is_nibble_le_char(x, y, 8);
    lemma_nibble_le_iff(x as u32 as int, y as u32 as int, 8);
    lemma2_to64();
    lemma_small_mod(x as u32 as nat, pow2(32));
    lemma_small_mod(y as u32 as nat, pow2(32));
}

} // verus!
