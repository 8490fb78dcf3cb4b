//! The radix sort engine.
//!
//! Sorting works in `nrounds` rounds over two generations of buckets.  In
//! every round the working sequence is distributed into `nbuckets` buckets
//! by the digit of that round, and the previous generation is read back in
//! index order — back to front where the reversal flag of its (round,
//! bucket) is set.  The exact result is pinned by the spec functions
//! below: `rdxsort` rearranges its input into `rdxsort_spec` of the old
//! contents, nothing else.

use vstd::prelude::*;

use crate::Rdx;

verus! {

/// Holds of the elements whose digit at round `r` selects bucket `b`.
pub open spec fn digit_pred<T: Rdx>(r: int, b: int) -> spec_fn(T) -> bool {
    |x: T| x.digit_spec(r) == b
}

/// The bucket `b` of the distribution of `s` by the digit at round `r`:
/// the elements with that digit, in the order they occur.
pub open spec fn round_bucket<T: Rdx>(s: Seq<T>, r: int, b: int) -> Seq<T> {
    s.filter(digit_pred(r, b))
}

/// The bucket `b` as it is read back after round `r`: reversed when the
/// reversal flag of (r, b) is set.
pub open spec fn read_bucket<T: Rdx>(s: Seq<T>, r: int, b: int) -> Seq<T> {
    if T::reverse_spec(r, b) {
        round_bucket(s, r, b).reverse()
    } else {
        round_bucket(s, r, b)
    }
}

/// The first `k` buckets of the round `r` distribution of `s`, read back
/// in index order.
pub open spec fn collect_upto<T: Rdx>(s: Seq<T>, r: int, k: int) -> Seq<T>
    decreases k,
{
    if k <= 0 {
        Seq::empty()
    } else {
        collect_upto(s, r, k - 1) + read_bucket(s, r, k - 1)
    }
}

/// The working sequence after the rounds `0 .. r` have been applied.
pub open spec fn sort_rounds<T: Rdx>(s: Seq<T>, r: int) -> Seq<T>
    decreases r,
{
    if r <= 0 {
        s
    } else {
        collect_upto(sort_rounds(s, r - 1), r - 1, T::nbuckets_spec())
    }
}

/// What sorting a sequence yields: all scheduled rounds applied in order.
pub open spec fn rdxsort_spec<T: Rdx>(s: Seq<T>) -> Seq<T> {
    sort_rounds(s, T::nrounds_spec())
}

/// Every element of the sequence is supported by the codec.
pub open spec fn all_supported<T: Rdx>(s: Seq<T>) -> bool {
    forall|i: int| 0 <= i < s.len() ==> #[trigger] s[i].supported()
}

/// Appending one element extends exactly the bucket of its digit.
pub(crate) proof fn lemma_round_bucket_push<T: Rdx>(s: Seq<T>, r: int, b: int, x: T)
    ensures
        round_bucket(s.push(x), r, b) == if x.digit_spec(r) == b {
            round_bucket(s, r, b).push(x)
        } else {
            round_bucket(s, r, b)
        },
{
    reveal(Seq::filter);
    assert(s.push(x).drop_last() =~= s);
}

/// A distribution bucket only holds elements of the distributed sequence.
pub(crate) proof fn lemma_round_bucket_supported<T: Rdx>(s: Seq<T>, r: int, b: int)
    requires
        all_supported(s),
    ensures
        all_supported(round_bucket(s, r, b)),
    decreases s.len(),
{
    reveal(Seq::filter);
    if s.len() > 0 {
        assert(all_supported(s.drop_last()));
        lemma_round_bucket_supported(s.drop_last(), r, b);
        let sub = round_bucket(s.drop_last(), r, b);
        let whole = round_bucket(s, r, b);
        assert forall|i: int| 0 <= i < whole.len() implies #[trigger] whole[i].supported() by {
            if i < sub.len() {
                assert(whole[i] == sub[i]);
            } else {
                assert(whole[i] == s.last());
                assert(s.last() == s[s.len() - 1]);
            }
        }
    }
}

/// A read bucket only holds elements of the distributed sequence.
proof fn lemma_read_bucket_supported<T: Rdx>(s: Seq<T>, r: int, b: int)
    requires
        all_supported(s),
    ensures
        all_supported(read_bucket(s, r, b)),
{
    lemma_round_bucket_supported(s, r, b);
    if T::reverse_spec(r, b) {
        let bucket = round_bucket(s, r, b);
        assert forall|i: int|
            0 <= i < bucket.reverse().len() implies #[trigger] bucket.reverse()[i].supported() by {
            assert(bucket.reverse()[i] == bucket[bucket.len() - 1 - i]);
        }
    }
}

/// Every prefix of the read-back of a round holds supported elements only.
proof fn lemma_collect_upto_supported<T: Rdx>(s: Seq<T>, r: int, k: int)
    requires
        all_supported(s),
    ensures
        all_supported(collect_upto(s, r, k)),
    decreases k,
{
    if k > 0 {
        lemma_collect_upto_supported(s, r, k - 1);
        lemma_read_bucket_supported(s, r, k - 1);
        let pre = collect_upto(s, r, k - 1);
        let last = read_bucket(s, r, k - 1);
        let whole = collect_upto(s, r, k);
        assert forall|i: int| 0 <= i < whole.len() implies #[trigger] whole[i].supported() by {
            if i < pre.len() {
                assert(whole[i] == pre[i]);
            } else {
                assert(whole[i] == last[i - pre.len()]);
            }
        }
    }
}

/// The working sequence of every round holds supported elements only.
pub proof fn lemma_sort_rounds_supported<T: Rdx>(s: Seq<T>, r: int)
    requires
        all_supported(s),
    ensures
        all_supported(sort_rounds(s, r)),
    decreases r,
{
    if r > 0 {
        lemma_sort_rounds_supported(s, r - 1);
        lemma_collect_upto_supported(sort_rounds(s, r - 1), r - 1, T::nbuckets_spec());
    }
}

/// Pushes `x` onto bucket `b`, leaving the other buckets alone.
fn bucket_push<T: Rdx + Copy>(buckets: &mut Vec<Vec<T>>, b: usize, x: T)
    requires
        b < old(buckets)@.len(),
    ensures
        final(buckets)@.len() == old(buckets)@.len(),
        (final(buckets)@[b as int])@ == (old(buckets)@[b as int])@.push(x),
        forall|j: int|
            0 <= j < old(buckets)@.len() && j != b ==> final(buckets)@[j] == old(buckets)@[j],
{
    let slot: &mut Vec<T> = &mut buckets[b];
    slot.push(x);
}

/// A fresh row of `nb` empty buckets.
fn make_buckets<T: Rdx + Copy>(nb: usize) -> (buckets: Vec<Vec<T>>)
    ensures
        buckets@.len() == nb as int,
        forall|j: int| 0 <= j < nb as int ==> (#[trigger] buckets@[j])@ == Seq::<T>::empty(),
{
    let mut buckets: Vec<Vec<T>> = Vec::new();
    let mut i: usize = 0;
    while i < nb
        invariant
            i <= nb,
            buckets@.len() == i as int,
            forall|j: int| 0 <= j < i as int ==> (#[trigger] buckets@[j])@ == Seq::<T>::empty(),
        decreases nb - i,
    {
        buckets.push(Vec::new());
        i += 1;
    }
    buckets
}

/// Reads the round `r` buckets of `w` back in index order (reversed where
/// flagged) and pushes each element onto the bucket of its digit at round
/// `r + 1` in a fresh generation.
fn distribute<T: Rdx + Copy>(
    buckets: &Vec<Vec<T>>,
    r: usize,
    nb: usize,
    w: Ghost<Seq<T>>,
) -> (next: Vec<Vec<T>>)
    requires
        T::nrounds_spec() <= usize::MAX as int,
        r + 1 < T::nrounds_spec(),
        nb as int == T::nbuckets_spec(),
        buckets@.len() == nb as int,
        all_supported(w@),
        forall|j: int|
            0 <= j < nb as int ==> (#[trigger] buckets@[j])@ == round_bucket(w@, r as int, j),
    ensures
        next@.len() == nb as int,
        forall|j: int|
            0 <= j < nb as int ==> (#[trigger] next@[j])@ == round_bucket(
                collect_upto(w@, r as int, nb as int),
                r as int + 1,
                j,
            ),
{
    let mut next: Vec<Vec<T>> = make_buckets(nb);
    let mut i: usize = 0;
    while i < nb
        invariant
            i <= nb,
            T::nrounds_spec() <= usize::MAX as int,
            r + 1 < T::nrounds_spec(),
            nb as int == T::nbuckets_spec(),
            buckets@.len() == nb as int,
            all_supported(w@),
            forall|j: int|
                0 <= j < nb as int ==> (#[trigger] buckets@[j])@ == round_bucket(w@, r as int, j),
            next@.len() == nb as int,
            forall|j: int|
                0 <= j < nb as int ==> (#[trigger] next@[j])@ == round_bucket(
                    collect_upto(w@, r as int, i as int),
                    r as int + 1,
                    j,
                ),
        decreases nb - i,
    {
        proof {
            lemma_round_bucket_supported(w@, r as int, i as int);
        }
        let flagged = T::reverse(r, i);
        let len_i = buckets[i].len();
        let ghost prefix = collect_upto(w@, r as int, i as int);
        let ghost rb = read_bucket(w@, r as int, i as int);
        let mut k: usize = 0;
        while k < len_i
            invariant
                k <= len_i,
                T::nrounds_spec() <= usize::MAX as int,
                r + 1 < T::nrounds_spec(),
                nb as int == T::nbuckets_spec(),
                i < nb,
                buckets@.len() == nb as int,
                all_supported(w@),
                forall|j: int|
                    0 <= j < nb as int ==> (#[trigger] buckets@[j])@ == round_bucket(
                        w@,
                        r as int,
                        j,
                    ),
                len_i as int == round_bucket(w@, r as int, i as int).len(),
                flagged == T::reverse_spec(r as int, i as int),
                prefix == collect_upto(w@, r as int, i as int),
                rb == read_bucket(w@, r as int, i as int),
                next@.len() == nb as int,
                forall|j: int|
                    0 <= j < nb as int ==> (#[trigger] next@[j])@ == round_bucket(
                        prefix + rb.take(k as int),
                        r as int + 1,
                        j,
                    ),
            decreases len_i - k,
        {
            let bucket_i: &Vec<T> = &buckets[i];
            let x: T = if flagged {
                bucket_i[len_i - 1 - k]
            } else {
                bucket_i[k]
            };
            proof {
                assert(x == rb[k as int]);
                assert(x.supported()) by {
                    lemma_read_bucket_supported(w@, r as int, i as int);
                }
            }
            let d = x.get_bucket(r + 1);
            proof {
                x.lemma_digit_in_range(r as int + 1);
            }
            bucket_push(&mut next, d, x);
            proof {
                let grown = prefix + rb.take(k as int);
                assert(prefix + rb.take(k as int + 1) =~= grown.push(x));
                lemma_round_bucket_push(grown, r as int + 1, d as int, x);
                assert forall|j: int|
                    0 <= j < nb as int implies (#[trigger] next@[j])@ == round_bucket(
                    prefix + rb.take(k as int + 1),
                    r as int + 1,
                    j,
                ) by {
                    lemma_round_bucket_push(grown, r as int + 1, j, x);
                }
            }
            k += 1;
        }
        proof {
            assert(rb.take(len_i as int) =~= rb);
            assert(collect_upto(w@, r as int, i as int + 1) == prefix + rb);
        }
        i += 1;
    }
    next
}

/// Reads the round `r` buckets of `w` back in index order (reversed where
/// flagged) into one flat sequence: the working sequence of the next round.
fn collect_final<T: Rdx + Copy>(
    buckets: &Vec<Vec<T>>,
    r: usize,
    nb: usize,
    w: Ghost<Seq<T>>,
) -> (out: Vec<T>)
    requires
        T::nrounds_spec() <= usize::MAX as int,
        (r as int) < T::nrounds_spec(),
        nb as int == T::nbuckets_spec(),
        buckets@.len() == nb as int,
        forall|j: int|
            0 <= j < nb as int ==> (#[trigger] buckets@[j])@ == round_bucket(w@, r as int, j),
    ensures
        out@ == collect_upto(w@, r as int, nb as int),
{
    let mut out: Vec<T> = Vec::new();
    let mut i: usize = 0;
    while i < nb
        invariant
            i <= nb,
            T::nrounds_spec() <= usize::MAX as int,
            (r as int) < T::nrounds_spec(),
            nb as int == T::nbuckets_spec(),
            buckets@.len() == nb as int,
            forall|j: int|
                0 <= j < nb as int ==> (#[trigger] buckets@[j])@ == round_bucket(w@, r as int, j),
            out@ == collect_upto(w@, r as int, i as int),
        decreases nb - i,
    {
        let flagged = T::reverse(r, i);
        let len_i = buckets[i].len();
        let ghost rb = read_bucket(w@, r as int, i as int);
        let ghost prefix = out@;
        let mut k: usize = 0;
        while k < len_i
            invariant
                k <= len_i,
                T::nrounds_spec() <= usize::MAX as int,
                (r as int) < T::nrounds_spec(),
                nb as int == T::nbuckets_spec(),
                i < nb,
                buckets@.len() == nb as int,
                forall|j: int|
                    0 <= j < nb as int ==> (#[trigger] buckets@[j])@ == round_bucket(
                        w@,
                        r as int,
                        j,
                    ),
                len_i as int == round_bucket(w@, r as int, i as int).len(),
                flagged == T::reverse_spec(r as int, i as int),
                rb == read_bucket(w@, r as int, i as int),
                prefix == collect_upto(w@, r as int, i as int),
                out@ == prefix + rb.take(k as int),
            decreases len_i - k,
        {
            let bucket_i: &Vec<T> = &buckets[i];
            let x: T = if flagged {
                bucket_i[len_i - 1 - k]
            } else {
                bucket_i[k]
            };
            proof {
                assert(x == rb[k as int]);
                assert(prefix + rb.take(k as int + 1) =~= (prefix + rb.take(k as int)).push(x));
            }
            out.push(x);
            k += 1;
        }
        proof {
            assert(rb.take(len_i as int) =~= rb);
            assert(collect_upto(w@, r as int, i as int + 1) == prefix + rb);
        }
        i += 1;
    }
    out
}

/// Sorts a vector in place to the digit-defined ascending order.
///
/// The result is exactly `rdxsort_spec` of the old contents: the
/// distribution and read-back of every scheduled round applied in order.
pub fn rdxsort_vec<T: Rdx + Copy>(v: &mut Vec<T>)
    requires
        all_supported(old(v)@),
        T::nrounds_spec() <= usize::MAX as int,
    ensures
        final(v)@ == rdxsort_spec(old(v)@),
{
    let nb = T::cfg_nbuckets();
    let nr = T::cfg_nrounds();
    if nr == 0 {
        return ;
    }
    let ghost s0 = old(v)@;
    let mut buckets: Vec<Vec<T>> = make_buckets(nb);

    // round 0: distribute the input itself
    let n = v.len();
    let mut k: usize = 0;
    while k < n
        invariant
            k <= n,
            v == old(v),
            n == v@.len(),
            s0 == v@,
            all_supported(s0),
            T::nrounds_spec() <= usize::MAX as int,
            0 < T::nrounds_spec(),
            nb as int == T::nbuckets_spec(),
            buckets@.len() == nb as int,
            forall|j: int|
                0 <= j < nb as int ==> (#[trigger] buckets@[j])@ == round_bucket(
                    s0.take(k as int),
                    0,
                    j,
                ),
        decreases n - k,
    {
        let x = v[k];
        proof {
            assert(x.supported());
        }
        let d = x.get_bucket(0);
        proof {
            x.lemma_digit_in_range(0);
        }
        bucket_push(&mut buckets, d, x);
        proof {
            assert(s0.take(k as int + 1) =~= s0.take(k as int).push(x));
            assert forall|j: int|
                0 <= j < nb as int implies (#[trigger] buckets@[j])@ == round_bucket(
                s0.take(k as int + 1),
                0,
                j,
            ) by {
                lemma_round_bucket_push(s0.take(k as int), 0, j, x);
            }
        }
        k += 1;
    }
    proof {
        assert(s0.take(n as int) =~= s0);
        assert(sort_rounds(s0, 0) == s0);
    }

    // rounds 1 .. nr: move the previous generation into a new one
    let mut round: usize = 1;
    while round < nr
        invariant
            1 <= round <= nr,
            nr as int == T::nrounds_spec(),
            nb as int == T::nbuckets_spec(),
            T::nrounds_spec() <= usize::MAX as int,
            all_supported(s0),
            buckets@.len() == nb as int,
            forall|j: int|
                0 <= j < nb as int ==> (#[trigger] buckets@[j])@ == round_bucket(
                    sort_rounds(s0, round as int - 1),
                    round as int - 1,
                    j,
                ),
        decreases nr - round,
    {
        let ghost w = sort_rounds(s0, round as int - 1);
        proof {
            lemma_sort_rounds_supported(s0, round as int - 1);
        }
        buckets = distribute(&buckets, round - 1, nb, Ghost(w));
        proof {
            assert(sort_rounds(s0, round as int) == collect_upto(w, round as int - 1, nb as int));
        }
        round += 1;
    }

    // read the last generation back into the vector
    let ghost w_last = sort_rounds(s0, nr as int - 1);
    let out = collect_final(&buckets, nr - 1, nb, Ghost(w_last));
    proof {
        assert(rdxsort_spec(s0) == collect_upto(w_last, nr as int - 1, nb as int));
    }
    *v = out;
}

/// In-place radix sort of a container.
pub trait RdxSort: Sized {
    /// The contents the sort is defined on.
    spec fn sortable(self) -> bool;

    /// How the contents after sorting relate to the contents before.
    spec fn sort_rel(pre: Self, post: Self) -> bool;

    /// Sorts the contents in place in ascending order.
    fn rdxsort(&mut self)
        requires
            old(self).sortable(),
        ensures
            Self::sort_rel(*old(self), *final(self)),
    ;
}

impl<T: Rdx + Copy> RdxSort for Vec<T> {
    /// Every element is supported and the round schedule fits the machine.
    open spec fn sortable(self) -> bool {
        all_supported(self@) && T::nrounds_spec() <= usize::MAX as int
    }

    /// Sorting leaves exactly the rearrangement the round schedule defines.
    open spec fn sort_rel(pre: Self, post: Self) -> bool {
        post@ == rdxsort_spec(pre@)
    }

    fn rdxsort(&mut self) {
        rdxsort_vec(self);
    }
}

} // verus!
