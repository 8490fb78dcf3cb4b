//! Digit codec for `bool`: one round that splits into two buckets,
//! `false` before `true`.

use vstd::prelude::*;

use crate::order::rdx_le;
use crate::Rdx;

verus! {

impl Rdx for bool {
    open spec fn nbuckets_spec() -> int {
        2
    }

    open spec fn nrounds_spec() -> int {
        1
    }

    open spec fn digit_spec(self, round: int) -> int {
        if self {
            1
        } else {
            0
        }
    }

    open spec fn reverse_spec(round: int, bucket: int) -> bool {
        false
    }

    open spec fn supported(self) -> bool {
        true
    }

    proof fn lemma_config_nonneg() {
    }

    proof fn lemma_digit_in_range(self, round: int) {
    }

    proof fn lemma_digits_injective(self, other: Self) {
        assert(self.digit_spec(0) == other.digit_spec(0));
    }

    fn cfg_nbuckets() -> usize {
        2
    }

    fn cfg_nrounds() -> usize {
        1
    }

    fn get_bucket(&self, round: usize) -> usize {
        if *self {
            1
        } else {
            0
        }
    }

    fn reverse(round: usize, bucket: usize) -> bool {
        false
    }
}

/// The sorting order of `bool` puts `false` before `true`.
pub proof fn lemma_rdx_le_bool(x: bool, y: bool)
    ensures
        rdx_le(x, y) <==> (x == y || (!x && y)),
{
    if x == y {
        crate::order::lemma_le_from_eq_digits(x, y, 1, false);
    }
}

} // verus!
