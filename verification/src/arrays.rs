//! Digit codec for fixed-size arrays, by concatenating the element codec
//! once per entry.
//!
//! Entry `0` is the most significant: it owns the highest rounds, so an
//! array sorts lexicographically front to back as far as the element
//! codec sorts numerically.

use vstd::prelude::*;

use vstd::arithmetic::div_mod::{
    lemma_div_pos_is_pos, lemma_fundamental_div_mod_converse_div,
    lemma_fundamental_div_mod_converse_mod, lemma_multiply_divide_lt,
};
use vstd::arithmetic::mul::{lemma_mul_inequality, lemma_mul_nonnegative};

use crate::order::{
    digits_eq_below, le_from, lemma_le_from_antisym_digits, lemma_le_from_total, no_reversal,
    rdx_le, rdx_lt,
};
use crate::Rdx;

verus! {

broadcast use vstd::array::group_array_axioms;

impl<T: Rdx, const N: usize> Rdx for [T; N] {
    open spec fn nbuckets_spec() -> int {
        T::nbuckets_spec()
    }

    open spec fn nrounds_spec() -> int {
        T::nrounds_spec() * N
    }

    open spec fn digit_spec(self, round: int) -> int {
        self@[N - 1 - round / T::nrounds_spec()].digit_spec(round % T::nrounds_spec())
    }

    open spec fn reverse_spec(round: int, bucket: int) -> bool {
        if T::nrounds_spec() <= 0 {
            false
        } else {
            T::reverse_spec(round % T::nrounds_spec(), bucket)
        }
    }

    open spec fn supported(self) -> bool {
        forall|i: int| 0 <= i < N ==> (#[trigger] self@[i]).supported()
    }

    proof fn lemma_config_nonneg() {
        T::lemma_config_nonneg();
        lemma_mul_nonnegative(T::nrounds_spec(), N as int);
    }

    proof fn lemma_digit_in_range(self, round: int) {
        T::lemma_config_nonneg();
        let tr = T::nrounds_spec();
        if tr <= 0 {
            assert(tr * N as int == 0) by (nonlinear_arith)
                requires
                    tr == 0,
            ;
        } else {
            lemma_multiply_divide_lt(round, tr, N as int);
            lemma_div_pos_is_pos(round, tr);
            let i = N - 1 - round / tr;
            assert(0 <= i < N);
            self@[i].lemma_digit_in_range(round % tr);
        }
    }

    proof fn lemma_digits_injective(self, other: Self) {
        T::lemma_config_nonneg();
        let tr = T::nrounds_spec();
        assert forall|i: int| 0 <= i < N implies self@[i] == other@[i] by {
            if tr > 0 {
                let base = (N - 1 - i) * tr;
                lemma_mul_nonnegative(N - 1 - i, tr);
                assert forall|q: int| 0 <= q < tr implies self@[i].digit_spec(q)
                    == other@[i].digit_spec(q) by {
                    let round = base + q;
                    assert((N - 1 - i) * tr + tr == (N - i) * tr) by (nonlinear_arith);
                    lemma_mul_inequality(N - i, N as int, tr);
                    assert((N - i) * tr <= N as int * tr);
                    assert(N as int * tr == tr * N as int) by (nonlinear_arith);
                    assert(0 <= round < tr * N as int);
                    lemma_fundamental_div_mod_converse_div(round, tr, N - 1 - i, q);
                    lemma_fundamental_div_mod_converse_mod(round, tr, N - 1 - i, q);
                    assert(self.digit_spec(round) == other.digit_spec(round));
                }
                self@[i].lemma_digits_injective(other@[i]);
            } else {
                self@[i].lemma_digits_injective(other@[i]);
            }
        }
        assert(self@ =~= other@);
    }

    fn cfg_nbuckets() -> usize {
        T::cfg_nbuckets()
    }

    fn cfg_nrounds() -> usize {
        proof {
            T::lemma_config_nonneg();
        }
        if N == 0 {
            proof {
                assert(T::nrounds_spec() * 0 == 0) by (nonlinear_arith);
            }
            0
        } else {
            proof {
                lemma_mul_inequality(1, N as int, T::nrounds_spec());
                assert(T::nrounds_spec() * 1 == T::nrounds_spec()) by (nonlinear_arith);
                assert(T::nrounds_spec() * N as int == N as int * T::nrounds_spec())
                    by (nonlinear_arith);
            }
            let tr = T::cfg_nrounds();
            tr * N
        }
    }

    fn get_bucket(&self, round: usize) -> usize {
        proof {
            T::lemma_config_nonneg();
            assert(T::nrounds_spec() > 0 && N > 0) by {
                if T::nrounds_spec() == 0 || N == 0 {
                    assert(T::nrounds_spec() * N as int == 0) by (nonlinear_arith)
                        requires
                            T::nrounds_spec() == 0 || N as int == 0,
                    ;
                }
            }
            lemma_mul_inequality(1, N as int, T::nrounds_spec());
            assert(T::nrounds_spec() * 1 == T::nrounds_spec()) by (nonlinear_arith);
            assert(T::nrounds_spec() * N as int == N as int * T::nrounds_spec())
                by (nonlinear_arith);
        }
        let tr = T::cfg_nrounds();
        let q = round / tr;
        let j = round % tr;
        proof {
            lemma_multiply_divide_lt(round as int, tr as int, N as int);
        }
        let i = N - 1 - q;
        self[i].get_bucket(j)
    }

    fn reverse(round: usize, bucket: usize) -> bool {
        proof {
            T::lemma_config_nonneg();
            assert(T::nrounds_spec() > 0 && N > 0) by {
                if T::nrounds_spec() == 0 || N == 0 {
                    assert(T::nrounds_spec() * N as int == 0) by (nonlinear_arith)
                        requires
                            T::nrounds_spec() == 0 || N as int == 0,
                    ;
                }
            }
            lemma_mul_inequality(1, N as int, T::nrounds_spec());
            assert(T::nrounds_spec() * 1 == T::nrounds_spec()) by (nonlinear_arith);
        }
        let tr = T::cfg_nrounds();
        T::reverse(round % tr, bucket)
    }
}

/// Lexicographic comparison of two arrays from entry `i` on, under the
/// element order.
pub open spec fn lex_le_from<T: Rdx, const N: usize>(x: [T; N], y: [T; N], i: int) -> bool
    decreases N - i,
{
    if i >= N {
        true
    } else if x@[i] == y@[i] {
        lex_le_from(x, y, i + 1)
    } else {
        rdx_lt(x@[i], y@[i])
    }
}

/// Over the rounds of the entry `N - j` an array compares by that entry,
/// falling back to the entries behind it on a tie — given that the
/// element codec reverses nothing.
proof fn lemma_array_le_block<T: Rdx, const N: usize>(x: [T; N], y: [T; N], j: int, k: int)
    requires
        no_reversal::<T>(),
        0 < T::nrounds_spec(),
        1 <= j <= N,
        0 <= k <= T::nrounds_spec(),
    ensures
        le_from(x, y, (j - 1) * T::nrounds_spec() + k, false) == if digits_eq_below(
            x@[N - j],
            y@[N - j],
            k,
        ) {
            le_from(x, y, (j - 1) * T::nrounds_spec(), false)
        } else {
            le_from(x@[N - j], y@[N - j], k, false)
        },
    decreases k,
{
    let tr = T::nrounds_spec();
    lemma_mul_nonnegative(j - 1, tr);
    if k > 0 {
        let round = (j - 1) * tr + k - 1;
        lemma_fundamental_div_mod_converse_div(round, tr, j - 1, k - 1);
        lemma_fundamental_div_mod_converse_mod(round, tr, j - 1, k - 1);
        assert(x.digit_spec(round) == x@[N - j].digit_spec(k - 1));
        assert(y.digit_spec(round) == y@[N - j].digit_spec(k - 1));
        assert(!<[T; N] as Rdx>::reverse_spec(round, x.digit_spec(round)));
        lemma_array_le_block(x, y, j, k - 1);
    }
}

/// Over the rounds of its last `j` entries an array compares those
/// entries lexicographically.
proof fn lemma_array_le_lex<T: Rdx, const N: usize>(x: [T; N], y: [T; N], j: int)
    requires
        no_reversal::<T>(),
        0 < T::nrounds_spec(),
        0 <= j <= N,
    ensures
        le_from(x, y, j * T::nrounds_spec(), false) == lex_le_from(x, y, N - j),
    decreases j,
{
    let tr = T::nrounds_spec();
    if j == 0 {
        assert(le_from(x, y, 0, false));
    } else {
        lemma_array_le_lex(x, y, j - 1);
        lemma_array_le_block(x, y, j, tr);
        assert((j - 1) * tr + tr == j * tr) by (nonlinear_arith);
        let ex = x@[N - j];
        let ey = y@[N - j];
        if digits_eq_below(ex, ey, tr) {
            ex.lemma_digits_injective(ey);
        } else {
            assert(ex != ey);
            if le_from(ex, ey, tr, false) {
                if le_from(ey, ex, tr, false) {
                    lemma_le_from_antisym_digits(ex, ey, tr, false);
                }
            } else {
                lemma_le_from_total(ex, ey, tr, false);
            }
        }
    }
}

/// An array of an unreversed codec sorts lexicographically, entry `0`
/// most significant.
pub proof fn lemma_rdx_le_array<T: Rdx, const N: usize>(x: [T; N], y: [T; N])
    requires
        no_reversal::<T>(),
    ensures
        rdx_le(x, y) <==> lex_le_from(x, y, 0),
{
    T::lemma_config_nonneg();
    let tr = T::nrounds_spec();
    if tr == 0 {
        assert(tr * N as int == 0) by (nonlinear_arith)
            requires
                tr == 0,
        ;
        assert(le_from(x, y, 0, false));
        assert forall|i: int| 0 <= i < N implies #[trigger] x@[i] == y@[i] by {
            x@[i].lemma_digits_injective(y@[i]);
        }
        lemma_lex_le_all_eq(x, y, 0);
    } else {
        lemma_array_le_lex(x, y, N as int);
        assert(N as int * tr == tr * N as int) by (nonlinear_arith);
    }
}

/// Arrays equal entry by entry compare as equal lexicographically.
proof fn lemma_lex_le_all_eq<T: Rdx, const N: usize>(x: [T; N], y: [T; N], i: int)
    requires
        0 <= i <= N,
        forall|m: int| 0 <= m < N ==> #[trigger] x@[m] == y@[m],
    ensures
        lex_le_from(x, y, i),
    decreases N - i,
{
    if i < N {
        lemma_lex_le_all_eq(x, y, i + 1);
    }
}

} // verus!
