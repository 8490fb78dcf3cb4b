//! Digit codecs for the signed integer types.
//!
//! A signed value reuses the base-16 digits of its two's-complement bit
//! pattern for all but one extra, most significant round.  That final round
//! assigns bucket 0 to the minimum representable value (which cannot be
//! negated safely), bucket 1 to the other negative values and bucket 2 to
//! the non-negative values.  Inside each of those groups the bit pattern
//! order already matches the numeric order, so no bucket is reversed.

use vstd::prelude::*;

use vstd::arithmetic::div_mod::lemma_small_mod;
use vstd::arithmetic::power2::{lemma2_to64, pow2};

use crate::order::{le_from, rdx_le};
use crate::unsigned_integer::{
    lemma_nibble_eq, lemma_nibble_le_iff, lemma_nibble_range, nibble_extract, nibble_le, nibble_of,
};
use crate::Rdx;

verus! {

/// The two's-complement bit pattern of a signed value of the given width,
/// read as a nonnegative integer.
pub open spec fn twos_complement(v: int, wrap: int) -> int {
    if v >= 0 {
        v
    } else {
        v + wrap
    }
}

/// The final-round bucket of a signed value: 0 for the minimum, 1 for the
/// other negative values, 2 for the non-negative ones.
pub open spec fn sign_bucket(v: int, min: int) -> int {
    if v == min {
        0
    } else if v >= 0 {
        2
    } else {
        1
    }
}

impl Rdx for i8 {
    open spec fn nbuckets_spec() -> int {
        16
    }

    open spec fn nrounds_spec() -> int {
        3
    }

    open spec fn digit_spec(self, round: int) -> int {
        if round < 2 {
            nibble_of(twos_complement(self as int, 0x100), round)
        } else {
            sign_bucket(self as int, -0x80)
        }
    }

    open spec fn reverse_spec(round: int, bucket: int) -> bool {
        false
    }

    open spec fn supported(self) -> bool {
        true
    }

    proof fn lemma_config_nonneg() {
    }

    proof fn lemma_digit_in_range(self, round: int) {
        if round < 2 {
            lemma_nibble_range(twos_complement(self as int, 0x100), round);
        }
    }

    proof fn lemma_digits_injective(self, other: Self) {
        let sv = twos_complement(self as int, 0x100);
        let ov = twos_complement(other as int, 0x100);
        assert forall|q: int| 0 <= q < 2 implies nibble_of(sv, q) == nibble_of(ov, q) by {
            assert(self.digit_spec(q) == other.digit_spec(q));
        }
        lemma_nibble_eq(sv, ov, 2);
        lemma2_to64();
        lemma_small_mod(sv as nat, pow2(8));
        lemma_small_mod(ov as nat, pow2(8));
    }

    fn cfg_nbuckets() -> usize {
        16
    }

    fn cfg_nrounds() -> usize {
        3
    }

    fn get_bucket(&self, round: usize) -> usize {
        if round < 2 {
            let bits: u64 = if *self >= 0 {
                *self as u64
            } else {
                (*self as i64 + 0x100) as u64
            };
            nibble_extract(bits, round)
        } else {
            if *self == i8::MIN {
                0
            } else if *self >= 0 {
                2
            } else {
                1
            }
        }
    }

    fn reverse(round: usize, bucket: usize) -> bool {
        false
    }
}

proof fn lemma_le_from_is_nibble_le_i8(x: i8, y: i8, r: int)
    requires
        r <= 2,
    ensures
        le_from(x, y, r, false) == nibble_le(
            twos_complement(x as int, 0x100),
            twos_complement(y as int, 0x100),
            r,
        ),
    decreases r,
{
    if r > 0 {
        lemma_le_from_is_nibble_le_i8(x, y, r - 1);
    }
}

/// The sorting order of `i8` is its numeric order.
pub proof fn lemma_rdx_le_i8(x: i8, y: i8)
    ensures
        rdx_le(x, y) <==> x <= y,
{
    let cx = sign_bucket(x as int, -0x80);
    let cy = sign_bucket(y as int, -0x80);
    if cx == cy {
        lemma_le_from_is_nibble_le_i8(x, y, 2);
        let sv = twos_complement(x as int, 0x100);
        let ov = twos_complement(y as int, 0x100);
        lemma_nibble_le_iff(sv, ov, 2);
        lemma2_to64();
        lemma_small_mod(sv as nat, pow2(8));
        lemma_small_mod(ov as nat, pow2(8));
    }
}


impl Rdx for i16 {
    open spec fn nbuckets_spec() -> int {
        16
    }

    open spec fn nrounds_spec() -> int {
        5
    }

    open spec fn digit_spec(self, round: int) -> int {
        if round < 4 {
            nibble_of(twos_complement(self as int, 0x10000), round)
        } else {
            sign_bucket(self as int, -0x8000)
        }
    }

    open spec fn reverse_spec(round: int, bucket: int) -> bool {
        false
    }

    open spec fn supported(self) -> bool {
        true
    }

    proof fn lemma_config_nonneg() {
    }

    proof fn lemma_digit_in_range(self, round: int) {
        if round < 4 {
            lemma_nibble_range(twos_complement(self as int, 0x10000), round);
        }
    }

    proof fn lemma_digits_injective(self, other: Self) {
        let sv = twos_complement(self as int, 0x10000);
        let ov = twos_complement(other as int, 0x10000);
        assert forall|q: int| 0 <= q < 4 implies nibble_of(sv, q) == nibble_of(ov, q) by {
            assert(self.digit_spec(q) == other.digit_spec(q));
        }
        lemma_nibble_eq(sv, ov, 4);
        lemma2_to64();
        lemma_small_mod(sv as nat, pow2(16));
        lemma_small_mod(ov as nat, pow2(16));
    }

    fn cfg_nbuckets() -> usize {
        16
    }

    fn cfg_nrounds() -> usize {
        5
    }

    fn get_bucket(&self, round: usize) -> usize {
        if round < 4 {
            let bits: u64 = if *self >= 0 {
                *self as u64
            } else {
                (*self as i64 + 0x10000i64) as u64
            };
            nibble_extract(bits, round)
        } else {
            if *self == i16::MIN {
                0
            } else if *self >= 0 {
                2
            } else {
                1
            }
        }
    }

    fn reverse(round: usize, bucket: usize) -> bool {
        false
    }
}

proof fn lemma_le_from_is_nibble_le_i16(x: i16, y: i16, r: int)
    requires
        r <= 4,
    ensures
        le_from(x, y, r, false) == nibble_le(
            twos_complement(x as int, 0x10000),
            twos_complement(y as int, 0x10000),
            r,
        ),
    decreases r,
{
    if r > 0 {
        lemma_le_from_is_nibble_le_i16(x, y, r - 1);
    }
}

/// The sorting order of `i16` is its numeric order.
pub proof fn lemma_rdx_le_i16(x: i16, y: i16)
    ensures
        rdx_le(x, y) <==> x <= y,
{
    let cx = sign_bucket(x as int, -0x8000);
    let cy = sign_bucket(y as int, -0x8000);
    if cx == cy {
        lemma_le_from_is_nibble_le_i16(x, y, 4);
        let sv = twos_complement(x as int, 0x10000);
        let ov = twos_complement(y as int, 0x10000);
        lemma_nibble_le_iff(sv, ov, 4);
        lemma2_to64();
        lemma_small_mod(sv as nat, pow2(16));
        lemma_small_mod(ov as nat, pow2(16));
    }
}


impl Rdx for i32 {
    open spec fn nbuckets_spec() -> int {
        16
    }

    open spec fn nrounds_spec() -> int {
        9
    }

    open spec fn digit_spec(self, round: int) -> int {
        if round < 8 {
            nibble_of(twos_complement(self as int, 0x100000000), round)
        } else {
            sign_bucket(self as int, -0x80000000)
        }
    }

    open spec fn reverse_spec(round: int, bucket: int) -> bool {
        false
    }

    open spec fn supported(self) -> bool {
        true
    }

    proof fn lemma_config_nonneg() {
    }

    proof fn lemma_digit_in_range(self, round: int) {
        if round < 8 {
            lemma_nibble_range(twos_complement(self as int, 0x100000000), round);
        }
    }

    proof fn lemma_digits_injective(self, other: Self) {
        let sv = twos_complement(self as int, 0x100000000);
        let ov = twos_complement(other as int, 0x100000000);
        assert forall|q: int| 0 <= q < 8 implies nibble_of(sv, q) == nibble_of(ov, q) by {
            assert(self.digit_spec(q) == other.digit_spec(q));
        }
        lemma_nibble_eq(sv, ov, 8);
        lemma2_to64();
        lemma_small_mod(sv as nat, pow2(32));
        lemma_small_mod(ov as nat, pow2(32));
    }

    fn cfg_nbuckets() -> usize {
        16
    }

    fn cfg_nrounds() -> usize {
        9
    }

    fn get_bucket(&self, round: usize) -> usize {
        if round < 8 {
            let bits: u64 = if *self >= 0 {
                *self as u64
            } else {
                (*self as i64 + 0x100000000i64) as u64
            };
            nibble_extract(bits, round)
        } else {
            if *self == i32::MIN {
                0
            } else if *self >= 0 {
                2
            } else {
                1
            }
        }
    }

    fn reverse(round: usize, bucket: usize) -> bool {
        false
    }
}

proof fn lemma_le_from_is_nibble_le_i32(x: i32, y: i32, r: int)
    requires
        r <= 8,
    ensures
        le_from(x, y, r, false) == nibble_le(
            twos_complement(x as int, 0x100000000),
            twos_complement(y as int, 0x100000000),
            r,
        ),
    decreases r,
{
    if r > 0 {
        lemma_le_from_is_nibble_le_i32(x, y, r - 1);
    }
}

/// The sorting order of `i32` is its numeric order.
pub proof fn lemma_rdx_le_i32(x: i32, y: i32)
    ensures
        rdx_le(x, y) <==> x <= y,
{
    let cx = sign_bucket(x as int, -0x80000000);
    let cy = sign_bucket(y as int, -0x80000000);
    if cx == cy {
        lemma_le_from_is_nibble_le_i32(x, y, 8);
        let sv = twos_complement(x as int, 0x100000000);
        let ov = twos_complement(y as int, 0x100000000);
        lemma_nibble_le_iff(sv, ov, 8);
        lemma2_to64();
        lemma_small_mod(sv as nat, pow2(32));
        lemma_small_mod(ov as nat, pow2(32));
    }
}


impl Rdx for i64 {
    open spec fn nbuckets_spec() -> int {
        16
    }

    open spec fn nrounds_spec() -> int {
        17
    }

    open spec fn digit_spec(self, round: int) -> int {
        if round < 16 {
            nibble_of(twos_complement(self as int, 0x10000000000000000), round)
        } else {
            sign_bucket(self as int, -0x8000000000000000)
        }
    }

    open spec fn reverse_spec(round: int, bucket: int) -> bool {
        false
    }

    open spec fn supported(self) -> bool {
        true
    }

    proof fn lemma_config_nonneg() {
    }

    proof fn lemma_digit_in_range(self, round: int) {
        if round < 16 {
            lemma_nibble_range(twos_complement(self as int, 0x10000000000000000), round);
        }
    }

    proof fn lemma_digits_injective(self, other: Self) {
        let sv = twos_complement(self as int, 0x10000000000000000);
        let ov = twos_complement(other as int, 0x10000000000000000);
        assert forall|q: int| 0 <= q < 16 implies nibble_of(sv, q) == nibble_of(ov, q) by {
            assert(self.digit_spec(q) == other.digit_spec(q));
        }
        lemma_nibble_eq(sv, ov, 16);
        lemma2_to64();
        lemma_small_mod(sv as nat, pow2(64));
        lemma_small_mod(ov as nat, pow2(64));
    }

    fn cfg_nbuckets() -> usize {
        16
    }

    fn cfg_nrounds() -> usize {
        17
    }

    fn get_bucket(&self, round: usize) -> usize {
        if round < 16 {
            let bits: u64 = if *self >= 0 {
                *self as u64
            } else {
                (*self as i128 + 0x10000000000000000i128) as u64
            };
            nibble_extract(bits, round)
        } else {
            if *self == i64::MIN {
                0
            } else if *self >= 0 {
                2
            } else {
                1
            }
        }
    }

    fn reverse(round: usize, bucket: usize) -> bool {
        false
    }
}

proof fn lemma_le_from_is_nibble_le_i64(x: i64, y: i64, r: int)
    requires
        r <= 16,
    ensures
        le_from(x, y, r, false) == nibble_le(
            twos_complement(x as int, 0x10000000000000000),
            twos_complement(y as int, 0x10000000000000000),
            r,
        ),
    decreases r,
{
    if r > 0 {
        lemma_le_from_is_nibble_le_i64(x, y, r - 1);
    }
}

/// The sorting order of `i64` is its numeric order.
pub proof fn lemma_rdx_le_i64(x: i64, y: i64)
    ensures
        rdx_le(x, y) <==> x <= y,
{
    let cx = sign_bucket(x as int, -0x8000000000000000);
    let cy = sign_bucket(y as int, -0x8000000000000000);
    if cx == cy {
        lemma_le_from_is_nibble_le_i64(x, y, 16);
        let sv = twos_complement(x as int, 0x10000000000000000);
        let ov = twos_complement(y as int, 0x10000000000000000);
        lemma_nibble_le_iff(sv, ov, 16);
        lemma2_to64();
        lemma_small_mod(sv as nat, pow2(64));
        lemma_small_mod(ov as nat, pow2(64));
    }
}


impl Rdx for isize {
    open spec fn nbuckets_spec() -> int {
        16
    }

    open spec fn nrounds_spec() -> int {
        17
    }

    open spec fn digit_spec(self, round: int) -> int {
        if round < 16 {
            nibble_of(twos_complement(self as int, 0x10000000000000000), round)
        } else {
            sign_bucket(self as int, isize::MIN as int)
        }
    }

    open spec fn reverse_spec(round: int, bucket: int) -> bool {
        false
    }

    open spec fn supported(self) -> bool {
        true
    }

    proof fn lemma_config_nonneg() {
    }

    proof fn lemma_digit_in_range(self, round: int) {
        if round < 16 {
            lemma_nibble_range(twos_complement(self as int, 0x10000000000000000), round);
        }
    }

    proof fn lemma_digits_injective(self, other: Self) {
        let sv = twos_complement(self as int, 0x10000000000000000);
        let ov = twos_complement(other as int, 0x10000000000000000);
        assert forall|q: int| 0 <= q < 16 implies nibble_of(sv, q) == nibble_of(ov, q) by {
            assert(self.digit_spec(q) == other.digit_spec(q));
        }
        lemma_nibble_eq(sv, ov, 16);
        lemma2_to64();
        lemma_small_mod(sv as nat, pow2(64));
        lemma_small_mod(ov as nat, pow2(64));
    }

    fn cfg_nbuckets() -> usize {
        16
    }

    fn cfg_nrounds() -> usize {
        17
    }

    fn get_bucket(&self, round: usize) -> usize {
        if round < 16 {
            let bits: u64 = if *self >= 0 {
                *self as u64
            } else {
                (*self as i128 + 0x10000000000000000i128) as u64
            };
            nibble_extract(bits, round)
        } else {
            if *self == isize::MIN {
                0
            } else if *self >= 0 {
                2
            } else {
                1
            }
        }
    }

    fn reverse(round: usize, bucket: usize) -> bool {
        false
    }
}

proof fn lemma_le_from_is_nibble_le_isize(x: isize, y: isize, r: int)
    requires
        r <= 16,
    ensures
        le_from(x, y, r, false) == nibble_le(
            twos_complement(x as int, 0x10000000000000000),
            twos_complement(y as int, 0x10000000000000000),
            r,
        ),
    decreases r,
{
    if r > 0 {
        lemma_le_from_is_nibble_le_isize(x, y, r - 1);
    }
}

/// The sorting order of `isize` is its numeric order.
pub proof fn lemma_rdx_le_isize(x: isize, y: isize)
    ensures
        rdx_le(x, y) <==> x <= y,
{
    let cx = sign_bucket(x as int, isize::MIN as int);
    let cy = sign_bucket(y as int, isize::MIN as int);
    if cx == cy {
        lemma_le_from_is_nibble_le_isize(x, y, 16);
        let sv = twos_complement(x as int, 0x10000000000000000);
        let ov = twos_complement(y as int, 0x10000000000000000);
        lemma_nibble_le_iff(sv, ov, 16);
        lemma2_to64();
        lemma_small_mod(sv as nat, pow2(64));
        lemma_small_mod(ov as nat, pow2(64));
    }
}

} // verus!
