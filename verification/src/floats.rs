//! Digit codecs for IEEE binary32 and binary64 values, carried as their
//! bit patterns.
//!
//! Verified code cannot compute on floating point, so a float enters the
//! library as its raw bit pattern (`f32::to_bits` / `f64::to_bits` produce
//! it, `from_bits` takes it back).  All but one round reuse the base-16
//! digits of the bit pattern read as an unsigned integer.  The extra, most
//! significant round partitions into six ordered categories: negative
//! infinity, other negative numbers, negative zero, positive zero, other
//! positive numbers, positive infinity.  The bucket of the other negative
//! numbers is flagged reversed: read as unsigned bit patterns, negative
//! numbers of larger magnitude compare larger, yet they must sort earlier.
//! NaN and subnormal bit patterns are not supported: no order is defined
//! for them, by design, and the codec refuses them up front.

use vstd::prelude::*;

use vstd::arithmetic::div_mod::{
    lemma_fundamental_div_mod_converse_div, lemma_fundamental_div_mod_converse_mod,
    lemma_small_mod,
};
use vstd::arithmetic::power2::{lemma2_to64, lemma2_to64_rest, pow2};

use crate::order::{le_from, lemma_le_from_eq_digits, lemma_le_from_mirror, rdx_le};
use crate::unsigned_integer::{
    lemma_nibble_eq, lemma_nibble_le_iff, lemma_nibble_range, nibble_extract, nibble_le, nibble_of,
};
use crate::Rdx;

verus! {

/// An IEEE binary32 value, carried as its bit pattern.
#[derive(Clone, Copy, PartialEq, Eq, Debug)]
pub struct F32Bits {
    pub bits: u32,
}

/// An IEEE binary64 value, carried as its bit pattern.
#[derive(Clone, Copy, PartialEq, Eq, Debug)]
pub struct F64Bits {
    pub bits: u64,
}

/// The exponent field of a binary32 bit pattern.
pub open spec fn f32_exp(b: int) -> int {
    (b / pow2(23) as int) % 0x100
}

/// The fraction field of a binary32 bit pattern.
pub open spec fn f32_frac(b: int) -> int {
    b % pow2(23) as int
}

/// Neither NaN nor subnormal: the bit patterns the codec is defined on.
pub open spec fn f32_supported(b: int) -> bool {
    &&& !(f32_exp(b) == 0xFF && f32_frac(b) != 0)
    &&& !(f32_exp(b) == 0 && f32_frac(b) != 0)
}

/// The final-round category of a binary32 bit pattern.
pub open spec fn f32_category(b: int) -> int {
    if b == 0xFF800000 {
        0
    } else if b == 0x80000000 {
        2
    } else if b > 0x80000000 {
        1
    } else if b == 0 {
        3
    } else if b == 0x7F800000 {
        5
    } else {
        4
    }
}

/// A key ascending in the numeric order of non-NaN binary32 values, with
/// negative zero just before positive zero.
pub open spec fn f32_key(b: int) -> int {
    if b >= 0x80000000 {
        0x7FFFFFFF - b
    } else {
        b
    }
}

/// The exponent field of a binary64 bit pattern.
pub open spec fn f64_exp(b: int) -> int {
    (b / pow2(52) as int) % 0x800
}

/// The fraction field of a binary64 bit pattern.
pub open spec fn f64_frac(b: int) -> int {
    b % pow2(52) as int
}

/// Neither NaN nor subnormal: the bit patterns the codec is defined on.
pub open spec fn f64_supported(b: int) -> bool {
    &&& !(f64_exp(b) == 0x7FF && f64_frac(b) != 0)
    &&& !(f64_exp(b) == 0 && f64_frac(b) != 0)
}

/// The final-round category of a binary64 bit pattern.
pub open spec fn f64_category(b: int) -> int {
    if b == 0xFFF0000000000000 {
        0
    } else if b == 0x8000000000000000 {
        2
    } else if b > 0x8000000000000000 {
        1
    } else if b == 0 {
        3
    } else if b == 0x7FF0000000000000 {
        5
    } else {
        4
    }
}

/// A key ascending in the numeric order of non-NaN binary64 values, with
/// negative zero just before positive zero.
pub open spec fn f64_key(b: int) -> int {
    if b >= 0x8000000000000000 {
        0x7FFFFFFFFFFFFFFF - b
    } else {
        b
    }
}

/// A value in `[m * p, (m + 1) * p)` has quotient `m` by `p`.
proof fn lemma_div_between(b: int, m: int, p: int)
    requires
        p > 0,
        m * p <= b < (m + 1) * p,
    ensures
        b / p == m,
        b % p == b - m * p,
{
    assert((m + 1) * p == m * p + p) by (nonlinear_arith);
    lemma_fundamental_div_mod_converse_div(b, p, m, b - m * p);
    lemma_fundamental_div_mod_converse_mod(b, p, m, b - m * p);
}

/// A supported negative binary32 pattern that is neither the negative
/// infinity nor the negative zero lies strictly between them.
proof fn lemma_f32_neg_band(b: int)
    requires
        f32_supported(b),
        0x80000000 < b < 0x100000000,
        b != 0xFF800000,
    ensures
        b < 0xFF800000,
{
    lemma2_to64();
    if b > 0xFF800000 {
        lemma_div_between(b, 0x1FF, pow2(23) as int);
        assert(f32_exp(b) == 0xFF);
        assert(f32_frac(b) != 0);
    }
}

/// A supported positive binary32 pattern that is not the positive
/// infinity lies strictly below it.
proof fn lemma_f32_pos_band(b: int)
    requires
        f32_supported(b),
        0 < b < 0x80000000,
        b != 0x7F800000,
    ensures
        b < 0x7F800000,
{
    lemma2_to64();
    if b > 0x7F800000 {
        lemma_div_between(b, 0xFF, pow2(23) as int);
        assert(f32_exp(b) == 0xFF);
        assert(f32_frac(b) != 0);
    }
}

impl Rdx for F32Bits {
    open spec fn nbuckets_spec() -> int {
        16
    }

    open spec fn nrounds_spec() -> int {
        9
    }

    open spec fn digit_spec(self, round: int) -> int {
        if round < 8 {
            nibble_of(self.bits as int, round)
        } else {
            f32_category(self.bits as int)
        }
    }

    open spec fn reverse_spec(round: int, bucket: int) -> bool {
        round == 8 && bucket == 1
    }

    open spec fn supported(self) -> bool {
        f32_supported(self.bits as int)
    }

    proof fn lemma_config_nonneg() {
    }

    proof fn lemma_digit_in_range(self, round: int) {
        if round < 8 {
            lemma_nibble_range(self.bits as int, round);
        }
    }

    proof fn lemma_digits_injective(self, other: Self) {
        let sv = self.bits as int;
        let ov = other.bits as int;
        assert forall|q: int| 0 <= q < 8 implies nibble_of(sv, q) == nibble_of(ov, q) by {
            assert(self.digit_spec(q) == other.digit_spec(q));
        }
        lemma_nibble_eq(sv, ov, 8);
        lemma2_to64();
        lemma_small_mod(self.bits as nat, pow2(32));
        lemma_small_mod(other.bits as nat, pow2(32));
    }

    fn cfg_nbuckets() -> usize {
        16
    }

    fn cfg_nrounds() -> usize {
        9
    }

    fn get_bucket(&self, round: usize) -> usize {
        if round < 8 {
            nibble_extract(self.bits as u64, round)
        } else {
            let b = self.bits;
            if b == 0xFF800000u32 {
                0
            } else if b == 0x80000000u32 {
                2
            } else if b > 0x80000000u32 {
                1
            } else if b == 0 {
                3
            } else if b == 0x7F800000u32 {
                5
            } else {
                4
            }
        }
    }

    fn reverse(round: usize, bucket: usize) -> bool {
        round == 8 && bucket == 1
    }
}

proof fn lemma_le_from_is_nibble_le_f32(x: F32Bits, y: F32Bits, r: int)
    requires
        r <= 8,
    ensures
        le_from(x, y, r, false) == nibble_le(x.bits as int, y.bits as int, r),
    decreases r,
{
    if r > 0 {
        lemma_le_from_is_nibble_le_f32(x, y, r - 1);
    }
}

/// The sorting order of binary32 bit patterns is the numeric order of the
/// values they stand for: negative infinity first, then the negative
/// numbers, the negative zero, the positive zero, the positive numbers
/// and the positive infinity last.
pub proof fn lemma_rdx_le_f32(x: F32Bits, y: F32Bits)
    requires
        x.supported(),
        y.supported(),
    ensures
        rdx_le(x, y) <==> f32_key(x.bits as int) <= f32_key(y.bits as int),
{
    let bx = x.bits as int;
    let by = y.bits as int;
    let cx = f32_category(bx);
    let cy = f32_category(by);
    if cx == 1 && bx != 0xFF800000 {
        lemma_f32_neg_band(bx);
    }
    if cy == 1 && by != 0xFF800000 {
        lemma_f32_neg_band(by);
    }
    if cx == 4 {
        lemma_f32_pos_band(bx);
    }
    if cy == 4 {
        lemma_f32_pos_band(by);
    }
    if cx == cy {
        if cx == 1 {
            // the negative bucket is reversed: larger patterns sort first
            lemma_le_from_mirror(x, y, 8, false);
            lemma_le_from_is_nibble_le_f32(y, x, 8);
            lemma_nibble_le_iff(by, bx, 8);
            lemma2_to64();
            lemma_small_mod(x.bits as nat, pow2(32));
            lemma_small_mod(y.bits as nat, pow2(32));
        } else if cx == 4 {
            lemma_le_from_is_nibble_le_f32(x, y, 8);
            lemma_nibble_le_iff(bx, by, 8);
            lemma2_to64();
            lemma_small_mod(x.bits as nat, pow2(32));
            lemma_small_mod(y.bits as nat, pow2(32));
        } else {
            // the category pins the pattern down
            assert(bx == by);
            assert(x == y);
            lemma_le_from_eq_digits(x, y, 9, false);
            lemma_le_from_eq_digits(y, x, 9, false);
        }
    }
}

/// A supported negative binary64 pattern that is neither the negative
/// infinity nor the negative zero lies strictly between them.
proof fn lemma_f64_neg_band(b: int)
    requires
        f64_supported(b),
        0x8000000000000000 < b < 0x10000000000000000,
        b != 0xFFF0000000000000,
    ensures
        b < 0xFFF0000000000000,
{
    lemma2_to64();
    lemma2_to64_rest();
    if b > 0xFFF0000000000000 {
        lemma_div_between(b, 0x1FFF, pow2(52) as int);
        assert(f64_exp(b) == 0x7FF);
        assert(f64_frac(b) != 0);
    }
}

/// A supported positive binary64 pattern that is not the positive
/// infinity lies strictly below it.
proof fn lemma_f64_pos_band(b: int)
    requires
        f64_supported(b),
        0 < b < 0x8000000000000000,
        b != 0x7FF0000000000000,
    ensures
        b < 0x7FF0000000000000,
{
    lemma2_to64();
    lemma2_to64_rest();
    if b > 0x7FF0000000000000 {
        lemma_div_between(b, 0xFFF, pow2(52) as int);
        assert(f64_exp(b) == 0x7FF);
        assert(f64_frac(b) != 0);
    }
}

impl Rdx for F64Bits {
    open spec fn nbuckets_spec() -> int {
        16
    }

    open spec fn nrounds_spec() -> int {
        17
    }

    open spec fn digit_spec(self, round: int) -> int {
        if round < 16 {
            nibble_of(self.bits as int, round)
        } else {
            f64_category(self.bits as int)
        }
    }

    open spec fn reverse_spec(round: int, bucket: int) -> bool {
        round == 16 && bucket == 1
    }

    open spec fn supported(self) -> bool {
        f64_supported(self.bits as int)
    }

    proof fn lemma_config_nonneg() {
    }

    proof fn lemma_digit_in_range(self, round: int) {
        if round < 16 {
            lemma_nibble_range(self.bits as int, round);
        }
    }

    proof fn lemma_digits_injective(self, other: Self) {
        let sv = self.bits as int;
        let ov = other.bits as int;
        assert forall|q: int| 0 <= q < 16 implies nibble_of(sv, q) == nibble_of(ov, q) by {
            assert(self.digit_spec(q) == other.digit_spec(q));
        }
        lemma_nibble_eq(sv, ov, 16);
        lemma2_to64();
        lemma_small_mod(self.bits as nat, pow2(64));
        lemma_small_mod(other.bits as nat, pow2(64));
    }

    fn cfg_nbuckets() -> usize {
        16
    }

    fn cfg_nrounds() -> usize {
        17
    }

    fn get_bucket(&self, round: usize) -> usize {
        if round < 16 {
            nibble_extract(self.bits, round)
        } else {
            let b = self.bits;
            if b == 0xFFF0000000000000u64 {
                0
            } else if b == 0x8000000000000000u64 {
                2
            } else if b > 0x8000000000000000u64 {
                1
            } else if b == 0 {
                3
            } else if b == 0x7FF0000000000000u64 {
                5
            } else {
                4
            }
        }
    }

    fn reverse(round: usize, bucket: usize) -> bool {
        round == 16 && bucket == 1
    }
}

proof fn lemma_le_from_is_nibble_le_f64(x: F64Bits, y: F64Bits, r: int)
    requires
        r <= 16,
    ensures
        le_from(x, y, r, false) == nibble_le(x.bits as int, y.bits as int, r),
    decreases r,
{
    if r > 0 {
        lemma_le_from_is_nibble_le_f64(x, y, r - 1);
    }
}

/// The sorting order of binary64 bit patterns is the numeric order of the
/// values they stand for.
pub proof fn lemma_rdx_le_f64(x: F64Bits, y: F64Bits)
    requires
        x.supported(),
        y.supported(),
    ensures
        rdx_le(x, y) <==> f64_key(x.bits as int) <= f64_key(y.bits as int),
{
    let bx = x.bits as int;
    let by = y.bits as int;
    let cx = f64_category(bx);
    let cy = f64_category(by);
    if cx == 1 && bx != 0xFFF0000000000000 {
        lemma_f64_neg_band(bx);
    }
    if cy == 1 && by != 0xFFF0000000000000 {
        lemma_f64_neg_band(by);
    }
    if cx == 4 {
        lemma_f64_pos_band(bx);
    }
    if cy == 4 {
        lemma_f64_pos_band(by);
    }
    if cx == cy {
        if cx == 1 {
            lemma_le_from_mirror(x, y, 16, false);
            lemma_le_from_is_nibble_le_f64(y, x, 16);
            lemma_nibble_le_iff(by, bx, 16);
            lemma2_to64();
            lemma_small_mod(x.bits as nat, pow2(64));
            lemma_small_mod(y.bits as nat, pow2(64));
        } else if cx == 4 {
            lemma_le_from_is_nibble_le_f64(x, y, 16);
            lemma_nibble_le_iff(bx, by, 16);
            lemma2_to64();
            lemma_small_mod(x.bits as nat, pow2(64));
            lemma_small_mod(y.bits as nat, pow2(64));
        } else {
            assert(bx == by);
            assert(x == y);
            lemma_le_from_eq_digits(x, y, 17, false);
            lemma_le_from_eq_digits(y, x, 17, false);
        }
    }
}

} // verus!
