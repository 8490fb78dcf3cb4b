//! The total preorder a digit codec induces on its values.
//!
//! Two values are compared digit by digit from the most significant round
//! downward.  Reversal flags of the rounds on which the values agree are
//! folded (by exclusive or) into the comparison: inside a reversed bucket
//! the intended order of everything below is flipped.

use vstd::prelude::*;

use crate::Rdx;

verus! {

/// Comparison of `x` and `y` over rounds `r - 1` down to `0`, with `rev`
/// accumulating the reversal flags of the rounds already consumed.  True
/// when `x` comes no later than `y` in the intended order.
pub open spec fn le_from<T: Rdx>(x: T, y: T, r: int, rev: bool) -> bool
    decreases r,
{
    if r <= 0 {
        true
    } else {
        let dx = x.digit_spec(r - 1);
        let dy = y.digit_spec(r - 1);
        if dx == dy {
            le_from(x, y, r - 1, rev ^ T::reverse_spec(r - 1, dx))
        } else {
            (dx < dy) != rev
        }
    }
}

/// The digit-defined total preorder: `x` sorts no later than `y`.
pub open spec fn rdx_le<T: Rdx>(x: T, y: T) -> bool {
    le_from(x, y, T::nrounds_spec(), false)
}

/// The strict part of the digit-defined order.
pub open spec fn rdx_lt<T: Rdx>(x: T, y: T) -> bool {
    !le_from(y, x, T::nrounds_spec(), false)
}

/// The digit-defined order as a relation value, for use with the
/// sequence-ordering vocabulary of `vstd::relations`.
pub open spec fn rdx_leq<T: Rdx>() -> spec_fn(T, T) -> bool {
    |x: T, y: T| rdx_le(x, y)
}

/// The digits of `x` and `y` agree on every round below `r`.
pub open spec fn digits_eq_below<T: Rdx>(x: T, y: T, r: int) -> bool {
    forall|q: int| 0 <= q < r ==> x.digit_spec(q) == y.digit_spec(q)
}

/// Values whose digits agree below `r` compare as equal there.
pub proof fn lemma_le_from_eq_digits<T: Rdx>(x: T, y: T, r: int, rev: bool)
    requires
        digits_eq_below(x, y, r),
    ensures
        le_from(x, y, r, rev),
    decreases r,
{
    if r > 0 {
        lemma_le_from_eq_digits(x, y, r - 1, rev ^ T::reverse_spec(r - 1, x.digit_spec(r - 1)));
    }
}

/// The comparison is total: one of the two directions always holds.
pub proof fn lemma_le_from_total<T: Rdx>(x: T, y: T, r: int, rev: bool)
    ensures
        le_from(x, y, r, rev) || le_from(y, x, r, rev),
    decreases r,
{
    if r > 0 {
        let dx = x.digit_spec(r - 1);
        let dy = y.digit_spec(r - 1);
        if dx == dy {
            lemma_le_from_total(x, y, r - 1, rev ^ T::reverse_spec(r - 1, dx));
        }
    }
}

/// Swapping the operands is the same as flipping the accumulated flag.
pub proof fn lemma_le_from_mirror<T: Rdx>(x: T, y: T, r: int, rev: bool)
    ensures
        le_from(y, x, r, rev) == le_from(x, y, r, !rev),
    decreases r,
{
    if r > 0 {
        let dx = x.digit_spec(r - 1);
        let dy = y.digit_spec(r - 1);
        if dx == dy {
            lemma_le_from_mirror(x, y, r - 1, rev ^ T::reverse_spec(r - 1, dx));
        }
    }
}

/// The comparison is transitive at every round and flag.
pub proof fn lemma_le_from_trans<T: Rdx>(x: T, y: T, z: T, r: int, rev: bool)
    requires
        le_from(x, y, r, rev),
        le_from(y, z, r, rev),
    ensures
        le_from(x, z, r, rev),
    decreases r,
{
    if r > 0 {
        let dx = x.digit_spec(r - 1);
        let dy = y.digit_spec(r - 1);
        let dz = z.digit_spec(r - 1);
        if dx == dy && dy == dz {
            lemma_le_from_trans(x, y, z, r - 1, rev ^ T::reverse_spec(r - 1, dx));
        }
    }
}

/// Two values each no later than the other have equal digits below `r`.
pub proof fn lemma_le_from_antisym_digits<T: Rdx>(x: T, y: T, r: int, rev: bool)
    requires
        le_from(x, y, r, rev),
        le_from(y, x, r, rev),
    ensures
        digits_eq_below(x, y, r),
    decreases r,
{
    if r > 0 {
        let dx = x.digit_spec(r - 1);
        let dy = y.digit_spec(r - 1);
        if dx == dy {
            lemma_le_from_antisym_digits(x, y, r - 1, rev ^ T::reverse_spec(r - 1, dx));
        }
    }
}

/// A codec that never flags any bucket reversed.  The integer codecs are
/// of this kind; the float codecs are not.
pub open spec fn no_reversal<T: Rdx>() -> bool {
    forall|r: int, b: int| !(#[trigger] T::reverse_spec(r, b))
}

/// The reversal flags folded (by exclusive or) along the digits of `x`
/// over the rounds `s .. r`.
pub open spec fn path_fold<T: Rdx>(x: T, s: int, r: int) -> bool
    decreases r - s,
{
    if r <= s {
        false
    } else {
        path_fold(x, s + 1, r) ^ T::reverse_spec(s, x.digit_spec(s))
    }
}

/// Peeling the topmost round off the fold.
pub proof fn lemma_path_fold_top<T: Rdx>(x: T, s: int, r: int)
    requires
        s < r,
    ensures
        path_fold(x, s, r) == (path_fold(x, s, r - 1) ^ T::reverse_spec(
            r - 1,
            x.digit_spec(r - 1),
        )),
    decreases r - s,
{
    if s < r - 1 {
        lemma_path_fold_top(x, s + 1, r);
        assert(path_fold(x, s, r) == (path_fold(x, s + 1, r) ^ T::reverse_spec(
            s,
            x.digit_spec(s),
        )));
        assert(path_fold(x, s, r - 1) == (path_fold(x, s + 1, r - 1) ^ T::reverse_spec(
            s,
            x.digit_spec(s),
        )));
    } else {
        assert(path_fold(x, s, r) == (path_fold(x, s + 1, r) ^ T::reverse_spec(
            s,
            x.digit_spec(s),
        )));
        assert(path_fold(x, s + 1, r) == false);
        assert(path_fold(x, s, r - 1) == false);
    }
}

/// Comparing over rounds below `r` reduces to comparing below `s` with
/// the folded flags of the shared rounds in between.
pub proof fn lemma_le_from_descend<T: Rdx>(x: T, y: T, s: int, r: int, rev: bool)
    requires
        s <= r,
        forall|m: int| s <= m < r ==> x.digit_spec(m) == y.digit_spec(m),
    ensures
        le_from(x, y, r, rev) == le_from(x, y, s, rev ^ path_fold(x, s, r)),
    decreases r - s,
{
    if s < r {
        lemma_path_fold_top(x, s, r);
        lemma_le_from_descend(x, y, s, r - 1, rev ^ T::reverse_spec(r - 1, x.digit_spec(r - 1)));
    }
}

/// `rdx_le` is reflexive, antisymmetric, transitive and total, so it is a
/// total ordering in the sense of `vstd::relations`.
pub proof fn lemma_rdx_le_total_ordering<T: Rdx>()
    ensures
        vstd::relations::total_ordering(rdx_leq::<T>()),
{
    let leq = rdx_leq::<T>();
    assert forall|a: T| #[trigger] leq(a, a) by {
        lemma_le_from_eq_digits(a, a, T::nrounds_spec(), false);
    }
    assert forall|a: T, b: T| #[trigger] leq(a, b) && #[trigger] leq(b, a) implies a == b by {
        lemma_le_from_antisym_digits(a, b, T::nrounds_spec(), false);
        a.lemma_digits_injective(b);
    }
    assert forall|a: T, b: T, c: T| #[trigger] leq(a, b) && #[trigger] leq(b, c) implies leq(
        a,
        c,
    ) by {
        lemma_le_from_trans(a, b, c, T::nrounds_spec(), false);
    }
    assert forall|a: T, b: T| #[trigger] leq(a, b) || #[trigger] leq(b, a) by {
        lemma_le_from_total(a, b, T::nrounds_spec(), false);
    }
}

} // verus!
