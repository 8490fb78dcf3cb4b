//! What the round schedule of the sort engine guarantees.
//!
//! `rdxsort_spec` pins the sorted sequence down exactly; the laws here say
//! what that sequence is like: a permutation of the input (same multiset),
//! ascending under the digit-defined order, unchanged when it already was
//! sorted (so sorting twice changes nothing), and a no-op on sequences of
//! at most one element.

use vstd::prelude::*;

use vstd::multiset::Multiset;
use vstd::relations::sorted_by;
use vstd::seq_lib::lemma_multiset_commutative;
use vstd::seq_lib::lemma_sorted_unique;

use crate::order::{lemma_le_from_mirror, lemma_rdx_le_total_ordering, le_from, rdx_leq};
use crate::sort::{
    all_supported, collect_upto, digit_pred, lemma_round_bucket_push, lemma_sort_rounds_supported,
    rdxsort_spec, read_bucket, round_bucket, sort_rounds,
};
use crate::Rdx;

verus! {

/// The multiset of the first `k` buckets of the round `r` distribution.
spec fn buckets_multiset<T: Rdx>(s: Seq<T>, r: int, k: int) -> Multiset<T>
    decreases k,
{
    if k <= 0 {
        Multiset::empty()
    } else {
        buckets_multiset(s, r, k - 1).add(round_bucket(s, r, k - 1).to_multiset())
    }
}

/// Reading the buckets back concatenates their multisets.
proof fn lemma_collect_multiset<T: Rdx>(s: Seq<T>, r: int, k: int)
    ensures
        collect_upto(s, r, k).to_multiset() == buckets_multiset(s, r, k),
    decreases k,
{
    broadcast use vstd::seq_lib::group_to_multiset_ensures;

    if k <= 0 {
        assert(collect_upto(s, r, k) =~= Seq::<T>::empty());
    } else {
        lemma_collect_multiset(s, r, k - 1);
        lemma_multiset_commutative(collect_upto(s, r, k - 1), read_bucket(s, r, k - 1));
        if T::reverse_spec(r, k - 1) {
            round_bucket(s, r, k - 1).lemma_reverse_to_multiset();
        }
    }
}

/// Appending an element whose digit is within the first `k` buckets adds
/// it to their combined multiset; one outside leaves them unchanged.
proof fn lemma_buckets_multiset_push<T: Rdx>(s: Seq<T>, r: int, k: int, x: T)
    ensures
        buckets_multiset(s.push(x), r, k) == if 0 <= x.digit_spec(r) < k {
            buckets_multiset(s, r, k).insert(x)
        } else {
            buckets_multiset(s, r, k)
        },
    decreases k,
{
    broadcast use vstd::seq_lib::group_to_multiset_ensures;
    broadcast use vstd::multiset::group_multiset_axioms;

    if k > 0 {
        lemma_buckets_multiset_push(s, r, k - 1, x);
        lemma_round_bucket_push(s, r, k - 1, x);
        if x.digit_spec(r) == k - 1 {
            assert(buckets_multiset(s.push(x), r, k) =~= buckets_multiset(s, r, k).insert(x));
        } else if 0 <= x.digit_spec(r) < k - 1 {
            assert(buckets_multiset(s.push(x), r, k) =~= buckets_multiset(s, r, k).insert(x));
        }
    }
}

/// With every digit of `s` at round `r` in range, the `k` buckets of the
/// distribution together hold exactly the elements of `s`.
proof fn lemma_buckets_multiset_all<T: Rdx>(s: Seq<T>, r: int, k: int)
    requires
        forall|i: int| 0 <= i < s.len() ==> 0 <= #[trigger] s[i].digit_spec(r) < k,
    ensures
        buckets_multiset(s, r, k) == s.to_multiset(),
    decreases s.len(),
{
    broadcast use vstd::seq_lib::group_to_multiset_ensures;

    reveal(Seq::filter);
    if s.len() == 0 {
        assert forall|j: int| 0 <= j <= k implies buckets_multiset(s, r, j) == Multiset::<
            T,
        >::empty() by {
            lemma_buckets_multiset_empty(s, r, j);
        }
    } else {
        let t = s.drop_last();
        let x = s.last();
        assert(s =~= t.push(x));
        assert forall|i: int| 0 <= i < t.len() implies 0 <= #[trigger] t[i].digit_spec(r) < k by {
            assert(t[i] == s[i]);
        }
        lemma_buckets_multiset_all(t, r, k);
        assert(0 <= x.digit_spec(r) < k) by {
            assert(s[s.len() - 1] == x);
        }
        lemma_buckets_multiset_push(t, r, k, x);
    }
}

/// All buckets of an empty sequence are empty.
proof fn lemma_buckets_multiset_empty<T: Rdx>(s: Seq<T>, r: int, k: int)
    requires
        s.len() == 0,
    ensures
        buckets_multiset(s, r, k) == Multiset::<T>::empty(),
    decreases k,
{
    broadcast use vstd::multiset::group_multiset_axioms;

    reveal(Seq::filter);
    if k > 0 {
        lemma_buckets_multiset_empty(s, r, k - 1);
        let bucket = round_bucket(s, r, k - 1);
        assert(bucket =~= Seq::<T>::empty());
        assert forall|x: T| #[trigger] bucket.to_multiset().count(x) == 0 by {
            vstd::seq_lib::to_multiset_contains(bucket, x);
        }
        assert(bucket.to_multiset() =~= Multiset::<T>::empty());
        assert(buckets_multiset(s, r, k) =~= Multiset::<T>::empty());
    }
}

/// Every round keeps the multiset of the working sequence.
proof fn lemma_sort_rounds_multiset<T: Rdx>(s: Seq<T>, r: int)
    requires
        all_supported(s),
        0 <= r <= T::nrounds_spec(),
    ensures
        sort_rounds(s, r).to_multiset() == s.to_multiset(),
    decreases r,
{
    if r > 0 {
        lemma_sort_rounds_multiset(s, r - 1);
        let w = sort_rounds(s, r - 1);
        lemma_sort_rounds_supported(s, r - 1);
        assert forall|i: int| 0 <= i < w.len() implies 0 <= #[trigger] w[i].digit_spec(r - 1)
            < T::nbuckets_spec() by {
            assert(w[i].supported());
            w[i].lemma_digit_in_range(r - 1);
        }
        lemma_buckets_multiset_all(w, r - 1, T::nbuckets_spec());
        lemma_collect_multiset(w, r - 1, T::nbuckets_spec());
    }
}

/// Sorting yields a permutation of the input: the multiset of elements —
/// and with it the length — is unchanged.
pub proof fn lemma_rdxsort_permutation<T: Rdx>(s: Seq<T>)
    requires
        all_supported(s),
    ensures
        rdxsort_spec(s).to_multiset() == s.to_multiset(),
        rdxsort_spec(s).len() == s.len(),
{
    broadcast use vstd::seq_lib::group_to_multiset_ensures;

    T::lemma_config_nonneg();
    lemma_sort_rounds_multiset(s, T::nrounds_spec());
    vstd::seq_lib::to_multiset_len(rdxsort_spec(s));
    vstd::seq_lib::to_multiset_len(s);
}

/// Every element of a filtered sequence stands somewhere in the original.
proof fn lemma_filter_element_of<T>(s: Seq<T>, pred: spec_fn(T) -> bool, i: int)
    requires
        0 <= i < s.filter(pred).len(),
    ensures
        exists|j: int| 0 <= j < s.len() && s[j] == s.filter(pred)[i],
    decreases s.len(),
{
    reveal(Seq::filter);
    if s.len() > 0 {
        let sub = s.drop_last().filter(pred);
        if i < sub.len() {
            lemma_filter_element_of(s.drop_last(), pred, i);
            let j = choose|j: int| 0 <= j < s.drop_last().len() && s.drop_last()[j] == sub[i];
            assert(s[j] == s.filter(pred)[i]);
        } else {
            assert(s[s.len() - 1] == s.filter(pred)[i]);
        }
    }
}

/// The elements of the sequence are pairwise ascending when compared
/// over the rounds below `r` with no accumulated reversal.
pub open spec fn ascending_at<T: Rdx>(s: Seq<T>, r: int) -> bool {
    forall|i: int, j: int|
        #![trigger s[i], s[j]]
        0 <= i < j < s.len() ==> le_from(s[i], s[j], r, false)
}

/// Distribution keeps the order of the elements inside one bucket.
proof fn lemma_round_bucket_sorted<T: Rdx>(s: Seq<T>, r: int, b: int, cr: int)
    requires
        ascending_at(s, cr),
    ensures
        ascending_at(round_bucket(s, r, b), cr),
    decreases s.len(),
{
    reveal(Seq::filter);
    let pred = digit_pred::<T>(r, b);
    if s.len() > 0 {
        let t = s.drop_last();
        assert forall|i: int, j: int|
            #![trigger t[i], t[j]]
            0 <= i < j < t.len() implies le_from(t[i], t[j], cr, false) by {
            assert(t[i] == s[i] && t[j] == s[j]);
        }
        lemma_round_bucket_sorted(t, r, b, cr);
        let sub = round_bucket(t, r, b);
        let whole = round_bucket(s, r, b);
        if pred(s.last()) {
            assert(whole == sub.push(s.last()));
            assert forall|i: int, j: int|
                #![trigger whole[i], whole[j]]
                0 <= i < j < whole.len() implies le_from(whole[i], whole[j], cr, false) by {
                if j < whole.len() - 1 {
                    assert(whole[i] == sub[i] && whole[j] == sub[j]);
                } else {
                    assert(whole[i] == sub[i]);
                    lemma_filter_element_of(t, pred, i);
                    let m = choose|m: int| 0 <= m < t.len() && t[m] == sub[i];
                    assert(s[m] == sub[i]);
                    assert(le_from(s[m], s[s.len() - 1], cr, false));
                }
            }
        }
    }
}

/// Reading the first `k` buckets back yields a sequence ascending at one
/// round higher, whose elements all fall into those buckets.
proof fn lemma_collect_sorted<T: Rdx>(s: Seq<T>, r: int, k: int)
    requires
        ascending_at(s, r),
    ensures
        ascending_at(collect_upto(s, r, k), r + 1),
        forall|i: int|
            0 <= i < collect_upto(s, r, k).len() ==> #[trigger] collect_upto(s, r, k)[i].digit_spec(
                r,
            ) < k,
    decreases k,
{
    if k > 0 {
        lemma_collect_sorted(s, r, k - 1);
        lemma_round_bucket_sorted(s, r, k - 1, r);
        let pre = collect_upto(s, r, k - 1);
        let bucket = round_bucket(s, r, k - 1);
        let block = read_bucket(s, r, k - 1);
        let whole = collect_upto(s, r, k);
        let flag = T::reverse_spec(r, k - 1);

        // every element of the bucket carries the digit of its bucket
        assert forall|i: int| 0 <= i < bucket.len() implies #[trigger] bucket[i].digit_spec(r) == k
            - 1 by {
            s.lemma_filter_pred(digit_pred::<T>(r, k - 1), i);
        }
        assert forall|i: int| 0 <= i < block.len() implies #[trigger] block[i].digit_spec(r) == k
            - 1 by {
            if flag {
                assert(block[i] == bucket[bucket.len() - 1 - i]);
            }
        }

        // the block itself is ascending at round r + 1
        assert forall|i: int, j: int|
            #![trigger block[i], block[j]]
            0 <= i < j < block.len() implies le_from(block[i], block[j], r + 1, false) by {
            if flag {
                assert(block[i] == bucket[bucket.len() - 1 - i]);
                assert(block[j] == bucket[bucket.len() - 1 - j]);
                assert(le_from(bucket[bucket.len() - 1 - j], bucket[bucket.len() - 1 - i], r, false));
                lemma_le_from_mirror(block[i], block[j], r, false);
                assert(le_from(block[i], block[j], r, true));
            } else {
                assert(le_from(block[i], block[j], r, false));
            }
            assert(block[i].digit_spec(r) == block[j].digit_spec(r));
        }

        // stitched: earlier buckets come before the new block
        assert forall|i: int, j: int|
            #![trigger whole[i], whole[j]]
            0 <= i < j < whole.len() implies le_from(whole[i], whole[j], r + 1, false) by {
            if j < pre.len() {
                assert(whole[i] == pre[i] && whole[j] == pre[j]);
            } else if i >= pre.len() {
                assert(whole[i] == block[i - pre.len()] && whole[j] == block[j - pre.len()]);
            } else {
                assert(whole[i] == pre[i] && whole[j] == block[j - pre.len()]);
                assert(whole[i].digit_spec(r) < k - 1);
                assert(whole[j].digit_spec(r) == k - 1);
            }
        }
        assert forall|i: int| 0 <= i < whole.len() implies #[trigger] whole[i].digit_spec(r) < k by {
            if i < pre.len() {
                assert(whole[i] == pre[i]);
            } else {
                assert(whole[i] == block[i - pre.len()]);
            }
        }
    } else {
        assert(collect_upto(s, r, k) =~= Seq::<T>::empty());
    }
}

/// The working sequence after round `r` is ascending when compared over
/// the rounds already applied.
proof fn lemma_sort_rounds_sorted<T: Rdx>(s: Seq<T>, r: int)
    requires
        r >= 0,
    ensures
        ascending_at(sort_rounds(s, r), r),
    decreases r,
{
    if r == 0 {
        assert forall|i: int, j: int|
            #![trigger s[i], s[j]]
            0 <= i < j < s.len() implies le_from(s[i], s[j], 0, false) by {
        }
    } else {
        lemma_sort_rounds_sorted(s, r - 1);
        lemma_collect_sorted(sort_rounds(s, r - 1), r - 1, T::nbuckets_spec());
    }
}

/// Sorting yields a sequence ascending under the digit-defined order.
pub proof fn lemma_rdxsort_sorted<T: Rdx>(s: Seq<T>)
    ensures
        sorted_by(rdxsort_spec(s), rdx_leq::<T>()),
{
    T::lemma_config_nonneg();
    lemma_sort_rounds_sorted(s, T::nrounds_spec());
    let res = rdxsort_spec(s);
    let leq = rdx_leq::<T>();
    assert forall|i: int, j: int| 0 <= i < j < res.len() implies #[trigger] leq(
        res[i],
        res[j],
    ) by {
        assert(le_from(res[i], res[j], T::nrounds_spec(), false));
    }
}

/// A sequence that is already ascending is left exactly as it is, so
/// sorting twice yields the same sequence as sorting once.
pub proof fn lemma_rdxsort_of_sorted<T: Rdx>(s: Seq<T>)
    requires
        all_supported(s),
        sorted_by(s, rdx_leq::<T>()),
    ensures
        rdxsort_spec(s) == s,
{
    lemma_rdxsort_permutation(s);
    lemma_rdxsort_sorted(s);
    lemma_rdx_le_total_ordering::<T>();
    lemma_sorted_unique(rdxsort_spec(s), s, rdx_leq::<T>());
}

/// Sorting is idempotent: a second pass returns the first result.
pub proof fn lemma_rdxsort_idempotent<T: Rdx>(s: Seq<T>)
    requires
        all_supported(s),
    ensures
        rdxsort_spec(rdxsort_spec(s)) == rdxsort_spec(s),
{
    broadcast use vstd::seq_lib::group_to_multiset_ensures;

    let once = rdxsort_spec(s);
    lemma_rdxsort_permutation(s);
    assert(all_supported(once)) by {
        assert forall|i: int| 0 <= i < once.len() implies #[trigger] once[i].supported() by {
            assert(once.to_multiset().contains(once[i]));
            assert(s.contains(once[i]));
            let j = choose|j: int| 0 <= j < s.len() && s[j] == once[i];
            assert(s[j].supported());
        }
    }
    lemma_rdxsort_sorted(s);
    lemma_rdxsort_of_sorted(once);
}

/// Sorting an empty or a one-element sequence changes nothing.
pub proof fn lemma_rdxsort_short<T: Rdx>(s: Seq<T>)
    requires
        all_supported(s),
        s.len() <= 1,
    ensures
        rdxsort_spec(s) == s,
{
    let leq = rdx_leq::<T>();
    assert(sorted_by(s, leq));
    lemma_rdxsort_of_sorted(s);
}

} // verus!
