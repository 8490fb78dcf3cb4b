//! Digit codecs for tuples, by concatenating the component codecs.
//!
//! The most significant component owns the highest rounds: a pair sorts by
//! its first component, with the second breaking ties, and likewise for
//! triples.  The empty tuple schedules no rounds at all, so sorting a
//! sequence of it is a no-op.

use vstd::prelude::*;

use crate::order::{
    digits_eq_below, le_from, lemma_le_from_antisym_digits, lemma_le_from_eq_digits,
    lemma_le_from_total, no_reversal, rdx_le, rdx_lt,
};
use crate::Rdx;

verus! {

impl Rdx for () {
    open spec fn nbuckets_spec() -> int {
        0
    }

    open spec fn nrounds_spec() -> int {
        0
    }

    open spec fn digit_spec(self, round: int) -> int {
        0
    }

    open spec fn reverse_spec(round: int, bucket: int) -> bool {
        false
    }

    open spec fn supported(self) -> bool {
        true
    }

    proof fn lemma_config_nonneg() {
    }

    proof fn lemma_digit_in_range(self, round: int) {
    }

    proof fn lemma_digits_injective(self, other: Self) {
    }

    fn cfg_nbuckets() -> usize {
        0
    }

    fn cfg_nrounds() -> usize {
        0
    }

    fn get_bucket(&self, round: usize) -> usize {
        0
    }

    fn reverse(round: usize, bucket: usize) -> bool {
        false
    }
}

impl<A: Rdx> Rdx for (A,) {
    open spec fn nbuckets_spec() -> int {
        A::nbuckets_spec()
    }

    open spec fn nrounds_spec() -> int {
        A::nrounds_spec()
    }

    open spec fn digit_spec(self, round: int) -> int {
        self.0.digit_spec(round)
    }

    open spec fn reverse_spec(round: int, bucket: int) -> bool {
        A::reverse_spec(round, bucket)
    }

    open spec fn supported(self) -> bool {
        self.0.supported()
    }

    proof fn lemma_config_nonneg() {
        A::lemma_config_nonneg();
    }

    proof fn lemma_digit_in_range(self, round: int) {
        self.0.lemma_digit_in_range(round);
    }

    proof fn lemma_digits_injective(self, other: Self) {
        assert forall|r: int| 0 <= r < A::nrounds_spec() implies self.0.digit_spec(r)
            == other.0.digit_spec(r) by {
            assert(self.digit_spec(r) == other.digit_spec(r));
        }
        self.0.lemma_digits_injective(other.0);
    }

    fn cfg_nbuckets() -> usize {
        A::cfg_nbuckets()
    }

    fn cfg_nrounds() -> usize {
        A::cfg_nrounds()
    }

    fn get_bucket(&self, round: usize) -> usize {
        self.0.get_bucket(round)
    }

    fn reverse(round: usize, bucket: usize) -> bool {
        A::reverse(round, bucket)
    }
}

impl<A: Rdx, B: Rdx> Rdx for (A, B) {
    open spec fn nbuckets_spec() -> int {
        if A::nbuckets_spec() >= B::nbuckets_spec() {
            A::nbuckets_spec()
        } else {
            B::nbuckets_spec()
        }
    }

    open spec fn nrounds_spec() -> int {
        A::nrounds_spec() + B::nrounds_spec()
    }

    open spec fn digit_spec(self, round: int) -> int {
        if round < B::nrounds_spec() {
            self.1.digit_spec(round)
        } else {
            self.0.digit_spec(round - B::nrounds_spec())
        }
    }

    open spec fn reverse_spec(round: int, bucket: int) -> bool {
        if round < B::nrounds_spec() {
            B::reverse_spec(round, bucket)
        } else {
            A::reverse_spec(round - B::nrounds_spec(), bucket)
        }
    }

    open spec fn supported(self) -> bool {
        self.0.supported() && self.1.supported()
    }

    proof fn lemma_config_nonneg() {
        A::lemma_config_nonneg();
        B::lemma_config_nonneg();
    }

    proof fn lemma_digit_in_range(self, round: int) {
        A::lemma_config_nonneg();
        B::lemma_config_nonneg();
        if round < B::nrounds_spec() {
            self.1.lemma_digit_in_range(round);
        } else {
            self.0.lemma_digit_in_range(round - B::nrounds_spec());
        }
    }

    proof fn lemma_digits_injective(self, other: Self) {
        A::lemma_config_nonneg();
        B::lemma_config_nonneg();
        assert forall|r: int| 0 <= r < B::nrounds_spec() implies self.1.digit_spec(r)
            == other.1.digit_spec(r) by {
            assert(self.digit_spec(r) == other.digit_spec(r));
        }
        self.1.lemma_digits_injective(other.1);
        assert forall|r: int| 0 <= r < A::nrounds_spec() implies self.0.digit_spec(r)
            == other.0.digit_spec(r) by {
            assert(self.digit_spec(r + B::nrounds_spec()) == other.digit_spec(
                r + B::nrounds_spec(),
            ));
        }
        self.0.lemma_digits_injective(other.0);
    }

    fn cfg_nbuckets() -> usize {
        let a = A::cfg_nbuckets();
        let b = B::cfg_nbuckets();
        if a >= b {
            a
        } else {
            b
        }
    }

    fn cfg_nrounds() -> usize {
        proof {
            A::lemma_config_nonneg();
            B::lemma_config_nonneg();
        }
        A::cfg_nrounds() + B::cfg_nrounds()
    }

    fn get_bucket(&self, round: usize) -> usize {
        proof {
            A::lemma_config_nonneg();
            B::lemma_config_nonneg();
        }
        let rb = B::cfg_nrounds();
        if round < rb {
            self.1.get_bucket(round)
        } else {
            self.0.get_bucket(round - rb)
        }
    }

    fn reverse(round: usize, bucket: usize) -> bool {
        proof {
            A::lemma_config_nonneg();
            B::lemma_config_nonneg();
        }
        let rb = B::cfg_nrounds();
        if round < rb {
            B::reverse(round, bucket)
        } else {
            A::reverse(round - rb, bucket)
        }
    }
}

/// Over the rounds of the second component a pair compares exactly as
/// its second components do.
proof fn lemma_pair_le_low<A: Rdx, B: Rdx>(x: (A, B), y: (A, B), r: int, rev: bool)
    requires
        r <= B::nrounds_spec(),
    ensures
        le_from(x, y, r, rev) == le_from(x.1, y.1, r, rev),
    decreases r,
{
    if r > 0 {
        lemma_pair_le_low(x, y, r - 1, rev ^ B::reverse_spec(r - 1, x.1.digit_spec(r - 1)));
    }
}

/// Over the rounds of the first component a pair compares by the first
/// components, falling back to the second components on a tie — given
/// that the first codec reverses nothing.
proof fn lemma_pair_le_high<A: Rdx, B: Rdx>(x: (A, B), y: (A, B), k: int)
    requires
        no_reversal::<A>(),
        0 <= k <= A::nrounds_spec(),
        0 <= B::nrounds_spec(),
    ensures
        le_from(x, y, B::nrounds_spec() + k, false) == if digits_eq_below(x.0, y.0, k) {
            le_from(x.1, y.1, B::nrounds_spec(), false)
        } else {
            le_from(x.0, y.0, k, false)
        },
    decreases k,
{
    if k == 0 {
        lemma_pair_le_low(x, y, B::nrounds_spec(), false);
    } else {
        let round = B::nrounds_spec() + k - 1;
        assert(x.digit_spec(round) == x.0.digit_spec(k - 1));
        assert(y.digit_spec(round) == y.0.digit_spec(k - 1));
        assert(!<(A, B) as Rdx>::reverse_spec(round, x.digit_spec(round)));
        lemma_pair_le_high(x, y, k - 1);
    }
}

/// A pair of codecs sorts lexicographically when the first reverses no
/// bucket: first by the first component, ties broken by the second.
pub proof fn lemma_rdx_le_pair<A: Rdx, B: Rdx>(x: (A, B), y: (A, B))
    requires
        no_reversal::<A>(),
    ensures
        rdx_le(x, y) <==> (rdx_lt(x.0, y.0) || (x.0 == y.0 && rdx_le(x.1, y.1))),
{
    A::lemma_config_nonneg();
    B::lemma_config_nonneg();
    let ra = A::nrounds_spec();
    lemma_pair_le_high(x, y, ra);
    if digits_eq_below(x.0, y.0, ra) {
        x.0.lemma_digits_injective(y.0);
        lemma_le_from_eq_digits(y.0, x.0, ra, false);
    } else {
        assert(x.0 != y.0);
        if le_from(x.0, y.0, ra, false) {
            if le_from(y.0, x.0, ra, false) {
                lemma_le_from_antisym_digits(x.0, y.0, ra, false);
            }
        } else {
            lemma_le_from_total(x.0, y.0, ra, false);
        }
    }
}

impl<A: Rdx, B: Rdx, C: Rdx> Rdx for (A, B, C) {
    open spec fn nbuckets_spec() -> int {
        let ab = if A::nbuckets_spec() >= B::nbuckets_spec() {
            A::nbuckets_spec()
        } else {
            B::nbuckets_spec()
        };
        if ab >= C::nbuckets_spec() {
            ab
        } else {
            C::nbuckets_spec()
        }
    }

    open spec fn nrounds_spec() -> int {
        A::nrounds_spec() + B::nrounds_spec() + C::nrounds_spec()
    }

    open spec fn digit_spec(self, round: int) -> int {
        if round < C::nrounds_spec() {
            self.2.digit_spec(round)
        } else if round < B::nrounds_spec() + C::nrounds_spec() {
            self.1.digit_spec(round - C::nrounds_spec())
        } else {
            self.0.digit_spec(round - B::nrounds_spec() - C::nrounds_spec())
        }
    }

    open spec fn reverse_spec(round: int, bucket: int) -> bool {
        if round < C::nrounds_spec() {
            C::reverse_spec(round, bucket)
        } else if round < B::nrounds_spec() + C::nrounds_spec() {
            B::reverse_spec(round - C::nrounds_spec(), bucket)
        } else {
            A::reverse_spec(round - B::nrounds_spec() - C::nrounds_spec(), bucket)
        }
    }

    open spec fn supported(self) -> bool {
        self.0.supported() && self.1.supported() && self.2.supported()
    }

    proof fn lemma_config_nonneg() {
        A::lemma_config_nonneg();
        B::lemma_config_nonneg();
        C::lemma_config_nonneg();
    }

    proof fn lemma_digit_in_range(self, round: int) {
        A::lemma_config_nonneg();
        B::lemma_config_nonneg();
        C::lemma_config_nonneg();
        if round < C::nrounds_spec() {
            self.2.lemma_digit_in_range(round);
        } else if round < B::nrounds_spec() + C::nrounds_spec() {
            self.1.lemma_digit_in_range(round - C::nrounds_spec());
        } else {
            self.0.lemma_digit_in_range(round - B::nrounds_spec() - C::nrounds_spec());
        }
    }

    proof fn lemma_digits_injective(self, other: Self) {
        A::lemma_config_nonneg();
        B::lemma_config_nonneg();
        C::lemma_config_nonneg();
        assert forall|r: int| 0 <= r < C::nrounds_spec() implies self.2.digit_spec(r)
            == other.2.digit_spec(r) by {
            assert(self.digit_spec(r) == other.digit_spec(r));
        }
        self.2.lemma_digits_injective(other.2);
        assert forall|r: int| 0 <= r < B::nrounds_spec() implies self.1.digit_spec(r)
            == other.1.digit_spec(r) by {
            assert(self.digit_spec(r + C::nrounds_spec()) == other.digit_spec(
                r + C::nrounds_spec(),
            ));
        }
        self.1.lemma_digits_injective(other.1);
        assert forall|r: int| 0 <= r < A::nrounds_spec() implies self.0.digit_spec(r)
            == other.0.digit_spec(r) by {
            assert(self.digit_spec(r + B::nrounds_spec() + C::nrounds_spec())
                == other.digit_spec(r + B::nrounds_spec() + C::nrounds_spec()));
        }
        self.0.lemma_digits_injective(other.0);
    }

    fn cfg_nbuckets() -> usize {
        let a = A::cfg_nbuckets();
        let b = B::cfg_nbuckets();
        let c = C::cfg_nbuckets();
        let ab = if a >= b {
            a
        } else {
            b
        };
        if ab >= c {
            ab
        } else {
            c
        }
    }

    fn cfg_nrounds() -> usize {
        proof {
            A::lemma_config_nonneg();
            B::lemma_config_nonneg();
            C::lemma_config_nonneg();
        }
        A::cfg_nrounds() + B::cfg_nrounds() + C::cfg_nrounds()
    }

    fn get_bucket(&self, round: usize) -> usize {
        proof {
            A::lemma_config_nonneg();
            B::lemma_config_nonneg();
            C::lemma_config_nonneg();
        }
        let rc = C::cfg_nrounds();
        if round < rc {
            self.2.get_bucket(round)
        } else {
            let rb = B::cfg_nrounds();
            if round - rc < rb {
                self.1.get_bucket(round - rc)
            } else {
                self.0.get_bucket(round - rc - rb)
            }
        }
    }

    fn reverse(round: usize, bucket: usize) -> bool {
        proof {
            A::lemma_config_nonneg();
            B::lemma_config_nonneg();
            C::lemma_config_nonneg();
        }
        let rc = C::cfg_nrounds();
        if round < rc {
            C::reverse(round, bucket)
        } else {
            let rb = B::cfg_nrounds();
            if round - rc < rb {
                B::reverse(round - rc, bucket)
            } else {
                A::reverse(round - rc - rb, bucket)
            }
        }
    }
}

/// Over the rounds of the third component a triple compares exactly as
/// its third components do.
proof fn lemma_triple_le_low<A: Rdx, B: Rdx, C: Rdx>(x: (A, B, C), y: (A, B, C), r: int, rev: bool)
    requires
        r <= C::nrounds_spec(),
        0 <= B::nrounds_spec(),
    ensures
        le_from(x, y, r, rev) == le_from(x.2, y.2, r, rev),
    decreases r,
{
    if r > 0 {
        lemma_triple_le_low(x, y, r - 1, rev ^ C::reverse_spec(r - 1, x.2.digit_spec(r - 1)));
    }
}

/// Over the rounds of the middle component a triple compares by the
/// middle components, falling back to the third on a tie.
proof fn lemma_triple_le_mid<A: Rdx, B: Rdx, C: Rdx>(x: (A, B, C), y: (A, B, C), k: int)
    requires
        no_reversal::<B>(),
        0 <= k <= B::nrounds_spec(),
        0 <= C::nrounds_spec(),
    ensures
        le_from(x, y, C::nrounds_spec() + k, false) == if digits_eq_below(x.1, y.1, k) {
            le_from(x.2, y.2, C::nrounds_spec(), false)
        } else {
            le_from(x.1, y.1, k, false)
        },
    decreases k,
{
    if k == 0 {
        lemma_triple_le_low(x, y, C::nrounds_spec(), false);
    } else {
        let round = C::nrounds_spec() + k - 1;
        assert(x.digit_spec(round) == x.1.digit_spec(k - 1));
        assert(y.digit_spec(round) == y.1.digit_spec(k - 1));
        assert(!<(A, B, C) as Rdx>::reverse_spec(round, x.digit_spec(round)));
        lemma_triple_le_mid(x, y, k - 1);
    }
}

/// Over the rounds of the first component a triple compares by the first
/// components, falling back to the rest on a tie.
proof fn lemma_triple_le_high<A: Rdx, B: Rdx, C: Rdx>(x: (A, B, C), y: (A, B, C), k: int)
    requires
        no_reversal::<A>(),
        no_reversal::<B>(),
        0 <= k <= A::nrounds_spec(),
        0 <= B::nrounds_spec(),
        0 <= C::nrounds_spec(),
    ensures
        le_from(x, y, C::nrounds_spec() + B::nrounds_spec() + k, false) == if digits_eq_below(
            x.0,
            y.0,
            k,
        ) {
            if digits_eq_below(x.1, y.1, B::nrounds_spec()) {
                le_from(x.2, y.2, C::nrounds_spec(), false)
            } else {
                le_from(x.1, y.1, B::nrounds_spec(), false)
            }
        } else {
            le_from(x.0, y.0, k, false)
        },
    decreases k,
{
    if k == 0 {
        lemma_triple_le_mid(x, y, B::nrounds_spec());
    } else {
        let round = C::nrounds_spec() + B::nrounds_spec() + k - 1;
        assert(x.digit_spec(round) == x.0.digit_spec(k - 1));
        assert(y.digit_spec(round) == y.0.digit_spec(k - 1));
        assert(!<(A, B, C) as Rdx>::reverse_spec(round, x.digit_spec(round)));
        lemma_triple_le_high(x, y, k - 1);
    }
}

/// A triple of codecs sorts lexicographically when the first two reverse
/// no bucket.
pub proof fn lemma_rdx_le_triple<A: Rdx, B: Rdx, C: Rdx>(x: (A, B, C), y: (A, B, C))
    requires
        no_reversal::<A>(),
        no_reversal::<B>(),
    ensures
        rdx_le(x, y) <==> (rdx_lt(x.0, y.0) || (x.0 == y.0 && (rdx_lt(x.1, y.1) || (x.1 == y.1
            && rdx_le(x.2, y.2))))),
{
    A::lemma_config_nonneg();
    B::lemma_config_nonneg();
    C::lemma_config_nonneg();
    let ra = A::nrounds_spec();
    let rb = B::nrounds_spec();
    lemma_triple_le_high(x, y, ra);
    if digits_eq_below(x.0, y.0, ra) {
        x.0.lemma_digits_injective(y.0);
        lemma_le_from_eq_digits(y.0, x.0, ra, false);
        if digits_eq_below(x.1, y.1, rb) {
            x.1.lemma_digits_injective(y.1);
            lemma_le_from_eq_digits(y.1, x.1, rb, false);
        } else {
            assert(x.1 != y.1);
            if le_from(x.1, y.1, rb, false) {
                if le_from(y.1, x.1, rb, false) {
                    lemma_le_from_antisym_digits(x.1, y.1, rb, false);
                }
            } else {
                lemma_le_from_total(x.1, y.1, rb, false);
            }
        }
    } else {
        assert(x.0 != y.0);
        if le_from(x.0, y.0, ra, false) {
            if le_from(y.0, x.0, ra, false) {
                lemma_le_from_antisym_digits(x.0, y.0, ra, false);
            }
        } else {
            lemma_le_from_total(x.0, y.0, ra, false);
        }
    }
}

} // verus!
