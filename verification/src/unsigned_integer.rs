//! Digit codecs for the unsigned integer types.
//!
//! Every unsigned integer is decomposed into base-16 digits, least
//! significant first, so a value of `w` bits takes `w / 4` rounds.  The raw
//! digit order already matches the numeric order, so no bucket is reversed.

use vstd::prelude::*;

use vstd::arithmetic::div_mod::{lemma_breakdown, lemma_div_pos_is_pos, lemma_small_mod};
use vstd::arithmetic::mul::lemma_mul_inequality;
use vstd::arithmetic::power2::{lemma2_to64, lemma_pow2_adds, lemma_pow2_pos, pow2};
use vstd::bits::{
    lemma_low_bits_mask_values, lemma_u64_low_bits_mask_is_mod, lemma_u64_shr_is_div,
    low_bits_mask,
};

use crate::order::{le_from, rdx_le};
use crate::Rdx;

verus! {

/// The base-16 digit of a nonnegative value at the given round.
pub open spec fn nibble_of(v: int, round: int) -> int {
    (v / pow2((4 * round) as nat) as int) % 16
}

/// Base-16 lexicographic comparison of the digits below round `r`,
/// most significant digit first.
pub open spec fn nibble_le(vx: int, vy: int, r: int) -> bool
    decreases r,
{
    if r <= 0 {
        true
    } else if nibble_of(vx, r - 1) == nibble_of(vy, r - 1) {
        nibble_le(vx, vy, r - 1)
    } else {
        nibble_of(vx, r - 1) < nibble_of(vy, r - 1)
    }
}

/// A base-16 digit lies in `[0, 16)`.
pub proof fn lemma_nibble_range(v: int, round: int)
    requires
        v >= 0,
        round >= 0,
    ensures
        0 <= nibble_of(v, round) < 16,
{
    lemma_pow2_pos((4 * round) as nat);
    lemma_div_pos_is_pos(v, pow2((4 * round) as nat) as int);
}

/// The low `4 * (r + 1)` bits of a value split into its digit at round `r`
/// and its low `4 * r` bits.
proof fn lemma_nibble_breakdown(v: int, r: int)
    requires
        v >= 0,
        r >= 0,
    ensures
        v % pow2((4 * r + 4) as nat) as int == pow2((4 * r) as nat) * nibble_of(v, r) + v % pow2(
            (4 * r) as nat,
        ) as int,
{
    let p = pow2((4 * r) as nat) as int;
    lemma_pow2_pos((4 * r) as nat);
    lemma_pow2_adds((4 * r) as nat, 4);
    lemma2_to64();
    assert(pow2((4 * r + 4) as nat) as int == p * 16);
    lemma_breakdown(v, p, 16);
}

/// Digit-wise lexicographic order on the digits below `r` coincides with
/// the numeric order of the low `4 * r` bits.
pub proof fn lemma_nibble_le_iff(vx: int, vy: int, r: int)
    requires
        vx >= 0,
        vy >= 0,
        r >= 0,
    ensures
        nibble_le(vx, vy, r) <==> vx % pow2((4 * r) as nat) as int <= vy % pow2(
            (4 * r) as nat,
        ) as int,
    decreases r,
{
    if r == 0 {
        assert(pow2(0) == 1) by {
            lemma2_to64();
        }
    } else {
        let p = pow2((4 * (r - 1)) as nat) as int;
        lemma_pow2_pos((4 * (r - 1)) as nat);
        let dx = nibble_of(vx, r - 1);
        let dy = nibble_of(vy, r - 1);
        let mx = vx % p;
        let my = vy % p;
        lemma_nibble_breakdown(vx, r - 1);
        lemma_nibble_breakdown(vy, r - 1);
        assert(vx % pow2((4 * r) as nat) as int == p * dx + mx);
        assert(vy % pow2((4 * r) as nat) as int == p * dy + my);
        lemma_nibble_le_iff(vx, vy, r - 1);
        if dx < dy {
            lemma_mul_inequality(dx + 1, dy, p);
            assert(p * (dx + 1) == p * dx + p) by (nonlinear_arith);
            assert(p * dx + mx < p * (dx + 1));
        } else if dy < dx {
            lemma_mul_inequality(dy + 1, dx, p);
            assert(p * (dy + 1) == p * dy + p) by (nonlinear_arith);
            assert(p * dy + my < p * (dy + 1));
        }
    }
}

/// Equal digits below `r` mean equal low `4 * r` bits.
pub proof fn lemma_nibble_eq(vx: int, vy: int, r: int)
    requires
        vx >= 0,
        vy >= 0,
        r >= 0,
        forall|q: int| 0 <= q < r ==> nibble_of(vx, q) == nibble_of(vy, q),
    ensures
        vx % pow2((4 * r) as nat) as int == vy % pow2((4 * r) as nat) as int,
    decreases r,
{
    if r == 0 {
        assert(pow2(0) == 1) by {
            lemma2_to64();
        }
    } else {
        lemma_nibble_breakdown(vx, r - 1);
        lemma_nibble_breakdown(vy, r - 1);
        lemma_nibble_eq(vx, vy, r - 1);
    }
}

/// Extracts the base-16 digit of `v` at `round`.
pub(crate) fn nibble_extract(v: u64, round: usize) -> (d: usize)
    requires
        round < 16,
    ensures
        d as int == nibble_of(v as int, round as int),
        d < 16,
{
    let sh = 4 * (round as u64);
    let d = (v >> sh) & 15;
    proof {
        lemma_u64_shr_is_div(v, sh);
        lemma_u64_low_bits_mask_is_mod(v >> sh, 4);
        lemma_low_bits_mask_values();
        lemma2_to64();
        assert(low_bits_mask(4) == 15);
        assert(pow2(4) == 16);
    }
    d as usize
}

impl Rdx for u8 {
    open spec fn nbuckets_spec() -> int {
        16
    }

    open spec fn nrounds_spec() -> int {
        2
    }

    open spec fn digit_spec(self, round: int) -> int {
        nibble_of(self as int, round)
    }

    open spec fn reverse_spec(round: int, bucket: int) -> bool {
        false
    }

    open spec fn supported(self) -> bool {
        true
    }

    proof fn lemma_config_nonneg() {
    }

    proof fn lemma_digit_in_range(self, round: int) {
        lemma_nibble_range(self as int, round);
    }

    proof fn lemma_digits_injective(self, other: Self) {
        assert forall|q: int| 0 <= q < 2 implies nibble_of(self as int, q) == nibble_of(
            other as int,
            q,
        ) by {
            assert(self.digit_spec(q) == other.digit_spec(q));
        }
        lemma_nibble_eq(self as int, other as int, 2);
        lemma2_to64();
        lemma_small_mod(self as nat, pow2(8));
        lemma_small_mod(other as nat, pow2(8));
    }

    fn cfg_nbuckets() -> usize {
        16
    }

    fn cfg_nrounds() -> usize {
        2
    }

    fn get_bucket(&self, round: usize) -> usize {
        nibble_extract(*self as u64, round)
    }

    fn reverse(round: usize, bucket: usize) -> bool {
        false
    }
}

/// On types without reversed buckets the induced order is plain
/// digit-lexicographic comparison.
proof fn lemma_le_from_is_nibble_le_u8(x: u8, y: u8, r: int)
    ensures
        le_from(x, y, r, false) == nibble_le(x as int, y as int, r),
    decreases r,
{
    if r > 0 {
        lemma_le_from_is_nibble_le_u8(x, y, r - 1);
    }
}

/// The sorting order of `u8` is its numeric order.
pub proof fn lemma_rdx_le_u8(x: u8, y: u8)
    ensures
        rdx_le(x, y) <==> x <= y,
{
    lemma_le_from_is_nibble_le_u8(x, y, 2);
    lemma_nibble_le_iff(x as int, y as int, 2);
    lemma2_to64();
    lemma_small_mod(x as nat, pow2(8));
    lemma_small_mod(y as nat, pow2(8));
}

impl Rdx for u16 {
    open spec fn nbuckets_spec() -> int {
        16
    }

    open spec fn nrounds_spec() -> int {
        4
    }

    open spec fn digit_spec(self, round: int) -> int {
        nibble_of(self as int, round)
    }

    open spec fn reverse_spec(round: int, bucket: int) -> bool {
        false
    }

    open spec fn supported(self) -> bool {
        true
    }

    proof fn lemma_config_nonneg() {
    }

    proof fn lemma_digit_in_range(self, round: int) {
        lemma_nibble_range(self as int, round);
    }

    proof fn lemma_digits_injective(self, other: Self) {
        assert forall|q: int| 0 <= q < 4 implies nibble_of(self as int, q) == nibble_of(
            other as int,
            q,
        ) by {
            assert(self.digit_spec(q) == other.digit_spec(q));
        }
        lemma_nibble_eq(self as int, other as int, 4);
        lemma2_to64();
        lemma_small_mod(self as nat, pow2(16));
        lemma_small_mod(other as nat, pow2(16));
    }

    fn cfg_nbuckets() -> usize {
        16
    }

    fn cfg_nrounds() -> usize {
        4
    }

    fn get_bucket(&self, round: usize) -> usize {
        nibble_extract(*self as u64, round)
    }

    fn reverse(round: usize, bucket: usize) -> bool {
        false
    }
}

proof fn lemma_le_from_is_nibble_le_u16(x: u16, y: u16, r: int)
    ensures
        le_from(x, y, r, false) == nibble_le(x as int, y as int, r),
    decreases r,
{
    if r > 0 {
        lemma_le_from_is_nibble_le_u16(x, y, r - 1);
    }
}

/// The sorting order of `u16` is its numeric order.
pub proof fn lemma_rdx_le_u16(x: u16, y: u16)
    ensures
        rdx_le(x, y) <==> x <= y,
{
    lemma_le_from_is_nibble_le_u16(x, y, 4);
    lemma_nibble_le_iff(x as int, y as int, 4);
    lemma2_to64();
    lemma_small_mod(x as nat, pow2(16));
    lemma_small_mod(y as nat, pow2(16));
}

impl Rdx for u32 {
    open spec fn nbuckets_spec() -> int {
        16
    }

    open spec fn nrounds_spec() -> int {
        8
    }

    open spec fn digit_spec(self, round: int) -> int {
        nibble_of(self as int, round)
    }

    open spec fn reverse_spec(round: int, bucket: int) -> bool {
        false
    }

    open spec fn supported(self) -> bool {
        true
    }

    proof fn lemma_config_nonneg() {
    }

    proof fn lemma_digit_in_range(self, round: int) {
        lemma_nibble_range(self as int, round);
    }

    proof fn lemma_digits_injective(self, other: Self) {
        assert forall|q: int| 0 <= q < 8 implies nibble_of(self as int, q) == nibble_of(
            other as int,
            q,
        ) by {
            assert(self.digit_spec(q) == other.digit_spec(q));
        }
        lemma_nibble_eq(self as int, other as int, 8);
        lemma2_to64();
        lemma_small_mod(self as nat, pow2(32));
        lemma_small_mod(other as nat, pow2(32));
    }

    fn cfg_nbuckets() -> usize {
        16
    }

    fn cfg_nrounds() -> usize {
        8
    }

    fn get_bucket(&self, round: usize) -> usize {
        nibble_extract(*self as u64, round)
    }

    fn reverse(round: usize, bucket: usize) -> bool {
        false
    }
}

proof fn lemma_le_from_is_nibble_le_u32(x: u32, y: u32, r: int)
    ensures
        le_from(x, y, r, false) == nibble_le(x as int, y as int, r),
    decreases r,
{
    if r > 0 {
        lemma_le_from_is_nibble_le_u32(x, y, r - 1);
    }
}

/// The sorting order of `u32` is its numeric order.
pub proof fn lemma_rdx_le_u32(x: u32, y: u32)
    ensures
        rdx_le(x, y) <==> x <= y,
{
    lemma_le_from_is_nibble_le_u32(x, y, 8);
    lemma_nibble_le_iff(x as int, y as int, 8);
    lemma2_to64();
    lemma_small_mod(x as nat, pow2(32));
    lemma_small_mod(y as nat, pow2(32));
}

impl Rdx for u64 {
    open spec fn nbuckets_spec() -> int {
        16
    }

    open spec fn nrounds_spec() -> int {
        16
    }

    open spec fn digit_spec(self, round: int) -> int {
        nibble_of(self as int, round)
    }

    open spec fn reverse_spec(round: int, bucket: int) -> bool {
        false
    }

    open spec fn supported(self) -> bool {
        true
    }

    proof fn lemma_config_nonneg() {
    }

    proof fn lemma_digit_in_range(self, round: int) {
        lemma_nibble_range(self as int, round);
    }

    proof fn lemma_digits_injective(self, other: Self) {
        assert forall|q: int| 0 <= q < 16 implies nibble_of(self as int, q) == nibble_of(
            other as int,
            q,
        ) by {
            assert(self.digit_spec(q) == other.digit_spec(q));
        }
        lemma_nibble_eq(self as int, other as int, 16);
        lemma2_to64();
        lemma_small_mod(self as nat, pow2(64));
        lemma_small_mod(other as nat, pow2(64));
    }

    fn cfg_nbuckets() -> usize {
        16
    }

    fn cfg_nrounds() -> usize {
        16
    }

    fn get_bucket(&self, round: usize) -> usize {
        nibble_extract(*self, round)
    }

    fn reverse(round: usize, bucket: usize) -> bool {
        false
    }
}

proof fn lemma_le_from_is_nibble_le_u64(x: u64, y: u64, r: int)
    ensures
        le_from(x, y, r, false) == nibble_le(x as int, y as int, r),
    decreases r,
{
    if r > 0 {
        lemma_le_from_is_nibble_le_u64(x, y, r - 1);
    }
}

/// The sorting order of `u64` is its numeric order.
pub proof fn lemma_rdx_le_u64(x: u64, y: u64)
    ensures
        rdx_le(x, y) <==> x <= y,
{
    lemma_le_from_is_nibble_le_u64(x, y, 16);
    lemma_nibble_le_iff(x as int, y as int, 16);
    lemma2_to64();
    lemma_small_mod(x as nat, pow2(64));
    lemma_small_mod(y as nat, pow2(64));
}

impl Rdx for usize {
    open spec fn nbuckets_spec() -> int {
        16
    }

    open spec fn nrounds_spec() -> int {
        16
    }

    open spec fn digit_spec(self, round: int) -> int {
        nibble_of(self as int, round)
    }

    open spec fn reverse_spec(round: int, bucket: int) -> bool {
        false
    }

    open spec fn supported(self) -> bool {
        true
    }

    proof fn lemma_config_nonneg() {
    }

    proof fn lemma_digit_in_range(self, round: int) {
        lemma_nibble_range(self as int, round);
    }

    proof fn lemma_digits_injective(self, other: Self) {
        assert forall|q: int| 0 <= q < 16 implies nibble_of(self as int, q) == nibble_of(
            other as int,
            q,
        ) by {
            assert(self.digit_spec(q) == other.digit_spec(q));
        }
        lemma_nibble_eq(self as int, other as int, 16);
        lemma2_to64();
        lemma_small_mod(self as nat, pow2(64));
        lemma_small_mod(other as nat, pow2(64));
    }

    fn cfg_nbuckets() -> usize {
        16
    }

    fn cfg_nrounds() -> usize {
        16
    }

    fn get_bucket(&self, round: usize) -> usize {
        nibble_extract(*self as u64, round)
    }

    fn reverse(round: usize, bucket: usize) -> bool {
        false
    }
}

proof fn lemma_le_from_is_nibble_le_usize(x: usize, y: usize, r: int)
    ensures
        le_from(x, y, r, false) == nibble_le(x as int, y as int, r),
    decreases r,
{
    if r > 0 {
        lemma_le_from_is_nibble_le_usize(x, y, r - 1);
    }
}

/// The sorting order of `usize` is its numeric order.
pub proof fn lemma_rdx_le_usize(x: usize, y: usize)
    ensures
        rdx_le(x, y) <==> x <= y,
{
    lemma_le_from_is_nibble_le_usize(x, y, 16);
    lemma_nibble_le_iff(x as int, y as int, 16);
    lemma2_to64();
    lemma_small_mod(x as nat, pow2(64));
    lemma_small_mod(y as nat, pow2(64));
}

} // verus!
