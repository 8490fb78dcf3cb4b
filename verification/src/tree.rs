//! A path-compressed digit trie over the same digit codec as the sort.
//!
//! The trie stores one value per full digit path.  An inner node for round
//! `r` holds `nbuckets` slots selected by the digit at round `r - 1`; a
//! pruned node elides a run of rounds that hold only a single branch,
//! storing their digits in one array; a child holds a stored value once
//! every round is consumed; a free slot holds nothing.  Inserting a value
//! whose full digit path is already present overwrites the old value: the
//! container is keyed by digit path, deliberately so.
//!
//! The contracts below speak through `node_lookup`: the partial map from
//! digit paths to stored values that a subtree represents.

use vstd::prelude::*;

use crate::order::{le_from, lemma_le_from_antisym_digits, rdx_lt};
use crate::Rdx;

verus! {

/// The digit path of `x` covering rounds `r - 1` down to `0`, most
/// significant round first.
pub open spec fn suffix_path<T: Rdx>(x: T, r: int) -> Seq<int> {
    Seq::new(r as nat, |i: int| x.digit_spec(r - 1 - i))
}

/// The stored digits of a pruned node, as a sequence of path entries.
pub open spec fn digits_of(buckets: Seq<usize>) -> Seq<int> {
    Seq::new(buckets.len(), |i: int| buckets[i] as int)
}

/// One slot of the trie.
pub(crate) enum Node<T> {
    /// An empty slot.
    Free,
    /// A stored value, reachable once every round is consumed.
    Child(T),
    /// A full-width array of slots for one round.
    Inner(Box<NodeInner<T>>),
    /// A run of rounds holding a single branch, path-compressed.
    Pruned(Box<NodePruned<T>>),
}

/// The two shapes a pruned node's final child can take.
pub(crate) enum NodeLimited<T> {
    Inner(Box<NodeInner<T>>),
    Child(T),
}

/// A full-width inner node: `children[b]` continues the paths whose digit
/// at round `round - 1` is `b`.
pub(crate) struct NodeInner<T> {
    pub round: usize,
    pub children: Vec<Node<T>>,
}

/// A path-compressed node: `buckets` holds the digits of the elided
/// rounds, from round `round - 1` downward, and `child` continues below.
pub(crate) struct NodePruned<T> {
    pub round: usize,
    pub nbuckets: usize,
    pub buckets: Vec<usize>,
    pub child: NodeLimited<T>,
}

/// Structural well-formedness of a slot standing at level `r`: the level
/// matches the stored round, digits are in range, a compressed path never
/// runs past round zero, and a child stands exactly at round zero.
pub(crate) open spec fn node_wf<T: Rdx>(n: Node<T>, r: int) -> bool
    decreases n,
{
    match n {
        Node::Free => true,
        Node::Child(x) => r == 0 && x.supported(),
        Node::Inner(inner) => inner_wf(*inner, r),
        Node::Pruned(pruned) => pruned_wf(*pruned, r),
    }
}

pub(crate) open spec fn inner_wf<T: Rdx>(inner: NodeInner<T>, r: int) -> bool
    decreases inner,
{
    &&& inner.round as int == r
    &&& 1 <= r <= T::nrounds_spec()
    &&& inner.children@.len() == T::nbuckets_spec()
    &&& forall|b: int|
        0 <= b < inner.children@.len() ==> node_wf(#[trigger] inner.children@[b], r - 1)
}

pub(crate) open spec fn limited_wf<T: Rdx>(l: NodeLimited<T>, r: int) -> bool
    decreases l,
{
    match l {
        NodeLimited::Child(x) => r == 0 && x.supported(),
        NodeLimited::Inner(inner) => inner_wf(*inner, r),
    }
}

pub(crate) open spec fn pruned_wf<T: Rdx>(p: NodePruned<T>, r: int) -> bool
    decreases p,
{
    &&& p.round as int == r
    &&& 1 <= r <= T::nrounds_spec()
    &&& p.nbuckets as int == T::nbuckets_spec()
    &&& 1 <= p.buckets@.len() <= r
    &&& (forall|i: int|
        0 <= i < p.buckets@.len() ==> ((#[trigger] p.buckets@[i]) as int) < T::nbuckets_spec())
    &&& limited_wf(p.child, r - p.buckets@.len())
}

/// The partial map a slot at level `r` represents: which digit path of
/// length `r` leads to which stored value.
pub(crate) open spec fn node_lookup<T: Rdx>(n: Node<T>, r: int, p: Seq<int>) -> Option<T>
    decreases n,
{
    match n {
        Node::Free => None,
        Node::Child(x) => if r == 0 && p.len() == 0 {
            Some(x)
        } else {
            None
        },
        Node::Inner(inner) => inner_lookup(*inner, r, p),
        Node::Pruned(pruned) => pruned_lookup(*pruned, r, p),
    }
}

pub(crate) open spec fn inner_lookup<T: Rdx>(inner: NodeInner<T>, r: int, p: Seq<int>) -> Option<
    T,
>
    decreases inner,
{
    if r >= 1 && p.len() == r && 0 <= p[0] < inner.children@.len() {
        node_lookup(inner.children@[p[0]], r - 1, p.skip(1))
    } else {
        None
    }
}

pub(crate) open spec fn limited_lookup<T: Rdx>(l: NodeLimited<T>, r: int, p: Seq<int>) -> Option<
    T,
>
    decreases l,
{
    match l {
        NodeLimited::Child(x) => if r == 0 && p.len() == 0 {
            Some(x)
        } else {
            None
        },
        NodeLimited::Inner(inner) => inner_lookup(*inner, r, p),
    }
}

pub(crate) open spec fn pruned_lookup<T: Rdx>(p: NodePruned<T>, r: int, q: Seq<int>) -> Option<T>
    decreases p,
{
    let k = p.buckets@.len() as int;
    if r >= 1 && q.len() == r && q.take(k) == digits_of(p.buckets@) {
        limited_lookup(p.child, r - k, q.skip(k))
    } else {
        None
    }
}

/// Every stored value sits under its own digit path.
pub(crate) open spec fn node_paths_ok<T: Rdx>(n: Node<T>, r: int) -> bool {
    forall|q: Seq<int>|
        (#[trigger] node_lookup(n, r, q)).is_some() ==> q == suffix_path(
            node_lookup(n, r, q).unwrap(),
            r,
        )
}

/// Dropping the most significant entry of a digit path drops one round.
pub(crate) proof fn lemma_suffix_path_skip<T: Rdx>(x: T, r: int, k: int)
    requires
        0 <= k <= r,
    ensures
        suffix_path(x, r).skip(k) =~= suffix_path(x, r - k),
{
}

/// Takes the slot at `i` out of a children row, leaving it free.
fn slot_take<T: Rdx + Copy>(children: &mut Vec<Node<T>>, i: usize) -> (n: Node<T>)
    requires
        i < old(children)@.len(),
    ensures
        n == old(children)@[i as int],
        final(children)@ == old(children)@.update(i as int, Node::<T>::Free),
{
    let mut taken = Node::Free;
    let slot: &mut Node<T> = &mut children[i];
    core::mem::swap(&mut taken, slot);
    taken
}

/// Writes the slot at `i` of a children row.
fn slot_set<T: Rdx + Copy>(children: &mut Vec<Node<T>>, i: usize, n: Node<T>)
    requires
        i < old(children)@.len(),
    ensures
        final(children)@ == old(children)@.update(i as int, n),
{
    let slot: &mut Node<T> = &mut children[i];
    *slot = n;
}

/// Copies the entries `from .. to` of a digit run into a fresh vector.
fn run_slice(buckets: &Vec<usize>, from: usize, to: usize) -> (out: Vec<usize>)
    requires
        from <= to <= buckets@.len(),
    ensures
        out@ == buckets@.subrange(from as int, to as int),
{
    let mut out: Vec<usize> = Vec::new();
    let mut i: usize = from;
    while i < to
        invariant
            from <= i <= to <= buckets@.len(),
            out@ == buckets@.subrange(from as int, i as int),
        decreases to - i,
    {
        out.push(buckets[i]);
        proof {
            assert(buckets@.subrange(from as int, i as int + 1) =~= buckets@.subrange(
                from as int,
                i as int,
            ).push(buckets@[i as int]));
        }
        i += 1;
    }
    out
}

impl<T: Rdx + Copy> NodeInner<T> {
    /// A fresh inner node for `round` with every slot free.
    pub(crate) fn new(round: usize, nbuckets: usize) -> (inner: NodeInner<T>)
        requires
            1 <= round as int <= T::nrounds_spec(),
            nbuckets as int == T::nbuckets_spec(),
        ensures
            inner_wf(inner, round as int),
            forall|q: Seq<int>| inner_lookup(inner, round as int, q) == None::<T>,
            inner.round == round,
            inner.children@.len() == nbuckets as int,
            forall|b: int| 0 <= b < nbuckets as int ==> (#[trigger] inner.children@[b]) is Free,
            inner_counts(inner) == (1nat, 0nat, 0nat, nbuckets as nat),
    {
        let mut children: Vec<Node<T>> = Vec::new();
        let mut i: usize = 0;
        while i < nbuckets
            invariant
                i <= nbuckets,
                children@.len() == i as int,
                forall|b: int| 0 <= b < i as int ==> #[trigger] children@[b] is Free,
            decreases nbuckets - i,
        {
            children.push(Node::Free);
            i += 1;
        }
        let inner = NodeInner { round, children };
        proof {
            lemma_children_counts_free(inner.children@, nbuckets as int);
        }
        inner
    }
}

impl<T: Rdx + Copy> NodePruned<T> {
    /// A maximally compressed branch: the digits of `x` from `round - 1`
    /// down to zero, ending in a child that stores `x`.
    pub(crate) fn new(round: usize, nbuckets: usize, x: T) -> (p: NodePruned<T>)
        requires
            1 <= round as int <= T::nrounds_spec(),
            T::nrounds_spec() <= usize::MAX as int,
            nbuckets as int == T::nbuckets_spec(),
            x.supported(),
        ensures
            pruned_wf(p, round as int),
            pruned_lookup(p, round as int, suffix_path(x, round as int)) == Some(x),
            forall|q: Seq<int>|
                q != suffix_path(x, round as int) ==> pruned_lookup(p, round as int, q) == None::<
                    T,
                >,
            p.round == round,
            p.nbuckets == nbuckets,
            // maximal compression: one stored digit per elided round, the
            // value's own digits, ending in a child that stores the value
            p.buckets@.len() == round as int,
            digits_of(p.buckets@) == suffix_path(x, round as int),
            p.child == NodeLimited::Child(x),
            pruned_counts(p) == (0nat, 1nat, 1nat, 0nat),
    {
        let mut buckets: Vec<usize> = Vec::new();
        let mut i: usize = 0;
        while i < round
            invariant
                i <= round,
                1 <= round as int <= T::nrounds_spec(),
                T::nrounds_spec() <= usize::MAX as int,
                x.supported(),
                buckets@.len() == i as int,
                forall|m: int|
                    0 <= m < i as int ==> (#[trigger] buckets@[m]) as int == x.digit_spec(
                        round as int - 1 - m,
                    ),
                forall|m: int|
                    0 <= m < i as int ==> ((#[trigger] buckets@[m]) as int) < T::nbuckets_spec(),
            decreases round - i,
        {
            let r = round - i;
            let bucket = x.get_bucket(r - 1);
            proof {
                x.lemma_digit_in_range(r as int - 1);
            }
            buckets.push(bucket);
            i += 1;
        }
        let p = NodePruned { round, nbuckets, buckets, child: NodeLimited::Child(x) };
        proof {
            let rr = round as int;
            let path = suffix_path(x, rr);
            assert(digits_of(p.buckets@) =~= path);
            assert(path.take(rr) =~= path);
            assert(path.skip(rr) =~= Seq::<int>::empty());
            assert forall|q: Seq<int>| q != path implies pruned_lookup(p, rr, q) == None::<T> by {
                if q.len() == rr && q.take(rr) == digits_of(p.buckets@) {
                    assert(q =~= path);
                }
            }
        }
        p
    }
}

impl<T: Rdx + Copy> NodeInner<T> {
    /// Inserts `x` below this node, keyed by its digits at the rounds
    /// this subtree covers.  A value with the same digit path is
    /// overwritten; every other path keeps its content.
    pub(crate) fn insert(self, x: T) -> (out: NodeInner<T>)
        requires
            inner_wf(self, self.round as int),
            x.supported(),
            T::nrounds_spec() <= usize::MAX as int,
        ensures
            inner_wf(out, self.round as int),
            out.round == self.round,
            inner_lookup(out, self.round as int, suffix_path(x, self.round as int)) == Some(x),
            forall|q: Seq<int>|
                q != suffix_path(x, self.round as int) ==> inner_lookup(out, self.round as int, q)
                    == inner_lookup(self, self.round as int, q),
            // an overwrite reuses the structure; a fresh path adds exactly
            // one stored value
            inner_lookup(self, self.round as int, suffix_path(x, self.round as int)).is_some()
                ==> inner_counts(out) == inner_counts(self),
            !inner_lookup(self, self.round as int, suffix_path(x, self.round as int)).is_some()
                ==> inner_counts(out).2 == inner_counts(self).2 + 1,
            // only the slot of the value's digit is touched; a free slot
            // there grows a child (terminal round) or a maximally
            // compressed branch of the value's remaining digits, and a
            // child is overwritten in place
            ({
                let b = x.digit_spec(self.round as int - 1);
                &&& (forall|j: int|
                    0 <= j < self.children@.len() && j != b ==> out.children@[j]
                        == self.children@[j])
                &&& (self.children@[b] is Free && self.round > 1 ==> (out.children@[b]
                    matches Node::Pruned(bp) && (*bp).buckets@.len() == self.round as int - 1
                    && digits_of((*bp).buckets@) == suffix_path(x, self.round as int - 1) && (
                *bp).child == NodeLimited::Child(x)))
                &&& (self.children@[b] is Free && self.round == 1 ==> out.children@[b]
                    == Node::<T>::Child(x))
                &&& (self.children@[b] is Child ==> out.children@[b] == Node::<T>::Child(x))
                &&& (self.children@[b] is Inner ==> out.children@[b] is Inner)
            }),
        decreases self.round as int, 1int,
    {
        let ghost pre = self;
        let round = self.round;
        let NodeInner { round: _, children: mut children } = self;
        let bucket = x.get_bucket(round - 1);
        proof {
            x.lemma_digit_in_range(round as int - 1);
        }
        let slot = slot_take(&mut children, bucket);
        proof {
            assert(node_wf(pre.children@[bucket as int], round as int - 1));
        }
        let newnode = insert_into_slot(slot, round - 1, children.len(), x);
        let ghost gnew = newnode;
        slot_set(&mut children, bucket, newnode);
        let out = NodeInner { round, children };
        proof {
            let r = round as int;
            let path = suffix_path(x, r);
            assert(path[0] == x.digit_spec(r - 1));
            lemma_suffix_path_skip(x, r, 1);
            assert(inner_lookup(out, r, path) == Some(x));
            // the counts shift exactly as the replaced slot's counts do
            assert(out.children@ =~= pre.children@.update(
                bucket as int,
                Node::<T>::Free,
            ).update(bucket as int, out.children@[bucket as int]));
            assert(pre.children@.update(bucket as int, Node::<T>::Free).update(
                bucket as int,
                out.children@[bucket as int],
            ) =~= pre.children@.update(bucket as int, out.children@[bucket as int]));
            lemma_children_counts_update(
                pre.children@,
                pre.children@.len() as int,
                bucket as int,
                out.children@[bucket as int],
            );
            assert(out.children@[bucket as int] == gnew);
            assert(path.skip(1) == suffix_path(x, r - 1));
            assert(inner_lookup(pre, r, path) == node_lookup(
                pre.children@[bucket as int],
                r - 1,
                path.skip(1),
            ));
            if inner_lookup(pre, r, path).is_some() {
                assert(node_lookup(pre.children@[bucket as int], r - 1, suffix_path(
                    x,
                    r - 1,
                )).is_some());
                assert(node_counts(gnew) == node_counts(pre.children@[bucket as int]));
                assert(inner_counts(out) == inner_counts(pre));
            } else {
                assert(node_counts(gnew).2 == node_counts(pre.children@[bucket as int]).2 + 1);
                assert(inner_counts(out).2 == inner_counts(pre).2 + 1);
            }
            assert forall|q: Seq<int>| q != path implies inner_lookup(out, r, q) == inner_lookup(
                pre,
                r,
                q,
            ) by {
                if 1 <= r && q.len() == r && 0 <= q[0] < out.children@.len() {
                    if q[0] == bucket as int {
                        if q.skip(1) == suffix_path(x, r - 1) {
                            assert(q =~= seq![q[0]] + q.skip(1));
                            assert(path =~= seq![path[0]] + path.skip(1));
                            assert(q == path);
                        } else {
                            assert(out.children@[q[0]] == children@[bucket as int]);
                            assert(inner_lookup(out, r, q) == node_lookup(
                                out.children@[q[0]],
                                r - 1,
                                q.skip(1),
                            ));
                            assert(node_lookup(out.children@[q[0]], r - 1, q.skip(1))
                                == node_lookup(pre.children@[q[0]], r - 1, q.skip(1)));
                            assert(inner_lookup(pre, r, q) == node_lookup(
                                pre.children@[q[0]],
                                r - 1,
                                q.skip(1),
                            ));
                        }
                    } else {
                        assert(out.children@[q[0]] == pre.children@[q[0]]);
                        assert(inner_lookup(out, r, q) == inner_lookup(pre, r, q));
                    }
                } else {
                    assert(inner_lookup(out, r, q) is None);
                    assert(inner_lookup(pre, r, q) is None);
                }
            }
        }
        out
    }
}

/// Inserts `x` into one slot standing at level `r`: a free slot grows a
/// maximally compressed branch, a child is overwritten, an inner or
/// pruned node takes the value below itself.
fn insert_into_slot<T: Rdx + Copy>(slot: Node<T>, r: usize, nb: usize, x: T) -> (out: Node<T>)
    requires
        node_wf(slot, r as int),
        (r as int) < T::nrounds_spec(),
        T::nrounds_spec() <= usize::MAX as int,
        nb as int == T::nbuckets_spec(),
        x.supported(),
    ensures
        node_wf(out, r as int),
        node_lookup(out, r as int, suffix_path(x, r as int)) == Some(x),
        forall|q: Seq<int>|
            q != suffix_path(x, r as int) ==> node_lookup(out, r as int, q) == node_lookup(
                slot,
                r as int,
                q,
            ),
        // the slot transitions of the state machine: a free terminal slot
        // grows a child, a free slot above grows a maximally compressed
        // branch, a child is overwritten in place, an inner node stays one
        slot is Free && r == 0 ==> out == Node::<T>::Child(x),
        slot is Child ==> out == Node::<T>::Child(x),
        slot is Free && r > 0 ==> (out matches Node::Pruned(bp) && (*bp).buckets@.len() == r as int
            && digits_of((*bp).buckets@) == suffix_path(x, r as int) && (*bp).child
            == NodeLimited::Child(x)),
        slot is Inner ==> out is Inner,
        // an overwrite reuses the structure; a fresh path adds exactly one
        // stored value
        node_lookup(slot, r as int, suffix_path(x, r as int)).is_some() ==> node_counts(out)
            == node_counts(slot),
        !node_lookup(slot, r as int, suffix_path(x, r as int)).is_some() ==> node_counts(out).2
            == node_counts(slot).2 + 1,
    decreases r as int, 3int,
{
    if r == 0 {
        let out: Node<T> = match slot {
            Node::Free => Node::Child(x),
            Node::Child(_) => Node::Child(x),
            _ => unreached(),
        };
        proof {
            let empty_path = suffix_path(x, 0);
            assert(empty_path.len() == 0);
            assert(node_lookup(out, 0, empty_path) == Some(x));
            assert forall|q: Seq<int>| q != empty_path implies node_lookup(out, 0, q)
                == node_lookup(slot, 0, q) by {
                if q.len() == 0 {
                    assert(q =~= empty_path);
                }
            }
            assert(node_counts(out) == (0nat, 0nat, 1nat, 0nat));
            if slot is Free {
                assert(node_counts(slot) == (0nat, 0nat, 0nat, 1nat));
                assert(node_lookup(slot, 0, empty_path) is None);
            } else {
                assert(node_counts(slot) == (0nat, 0nat, 1nat, 0nat));
                assert(node_lookup(slot, 0, empty_path).is_some());
            }
        }
        out
    } else {
        match slot {
            Node::Free => {
                let p = NodePruned::new(r, nb, x);
                let out = Node::Pruned(Box::new(p));
                proof {
                    assert(node_lookup(out, r as int, suffix_path(x, r as int)) == Some(x));
                    assert forall|q: Seq<int>| q != suffix_path(x, r as int) implies node_lookup(
                        out,
                        r as int,
                        q,
                    ) == node_lookup(slot, r as int, q) by {
                        assert(pruned_lookup(p, r as int, q) == None::<T>);
                    }
                    assert(node_counts(out) == (0nat, 1nat, 1nat, 0nat));
                    assert(node_counts(slot) == (0nat, 0nat, 0nat, 1nat));
                    assert(node_lookup(slot, r as int, suffix_path(x, r as int)) is None);
                }
                out
            },
            Node::Inner(bx) => {
                let inner = *bx;
                proof {
                    assert(inner_wf(inner, r as int));
                }
                let inner2 = inner.insert(x);
                let out = Node::Inner(Box::new(inner2));
                proof {
                    assert(node_lookup(out, r as int, suffix_path(x, r as int)) == Some(x));
                    assert(node_wf(out, r as int));
                    assert forall|q: Seq<int>| q != suffix_path(x, r as int) implies node_lookup(
                        out,
                        r as int,
                        q,
                    ) == node_lookup(slot, r as int, q) by {
                        assert(node_lookup(out, r as int, q) == inner_lookup(inner2, r as int, q));
                        assert(node_lookup(slot, r as int, q) == inner_lookup(inner, r as int, q));
                    }
                    assert(node_counts(out) == inner_counts(inner2));
                    assert(node_counts(slot) == inner_counts(inner));
                    assert(node_lookup(slot, r as int, suffix_path(x, r as int)) == inner_lookup(
                        inner,
                        r as int,
                        suffix_path(x, r as int),
                    ));
                }
                out
            },
            Node::Pruned(bx) => {
                let p = *bx;
                proof {
                    assert(pruned_wf(p, r as int));
                }
                let out = p.insert_or_split(x);
                proof {
                    assert(node_lookup(out, r as int, suffix_path(x, r as int)) == Some(x));
                    assert(node_wf(out, r as int));
                    assert forall|q: Seq<int>| q != suffix_path(x, r as int) implies node_lookup(
                        out,
                        r as int,
                        q,
                    ) == node_lookup(slot, r as int, q) by {
                        assert(node_lookup(slot, r as int, q) == pruned_lookup(p, r as int, q));
                    }
                    assert(node_counts(slot) == pruned_counts(p));
                    assert(node_lookup(slot, r as int, suffix_path(x, r as int)) == pruned_lookup(
                        p,
                        r as int,
                        suffix_path(x, r as int),
                    ));
                }
                out
            },
            Node::Child(_) => unreached(),
        }
    }
}

impl<T: Rdx + Copy> NodePruned<T> {
    /// Inserts `x` into a compressed branch.  Where the digits of `x`
    /// leave the stored path, the path is split at the divergence round
    /// into a head (shared), a new inner node, and a tail (kept with the
    /// old content); where they never leave it, the insert descends into
    /// the final child.
    pub(crate) fn insert_or_split(self, x: T) -> (out: Node<T>)
        requires
            pruned_wf(self, self.round as int),
            x.supported(),
            T::nrounds_spec() <= usize::MAX as int,
        ensures
            node_wf(out, self.round as int),
            node_lookup(out, self.round as int, suffix_path(x, self.round as int)) == Some(x),
            forall|q: Seq<int>|
                q != suffix_path(x, self.round as int) ==> node_lookup(out, self.round as int, q)
                    == pruned_lookup(self, self.round as int, q),
            // where the whole stored path is shared, the compressed node
            // keeps its round, path and child kind; at a divergence the
            // replacement is the new inner node of the divergence round,
            // wrapped in a compressed head exactly when digits are shared
            // above it
            ({
                let i0 = run_divergence(digits_of(self.buckets@), x, self.round as int, 0);
                &&& (i0 == self.buckets@.len() ==> (out matches Node::Pruned(bp) && (*bp).round
                    == self.round && (*bp).buckets@ == self.buckets@ && ((*bp).child is Child
                    <==> self.child is Child)))
                &&& (i0 < self.buckets@.len() && i0 == 0 ==> (out matches Node::Inner(bx2) && (
                *bx2).round == self.round))
                &&& (i0 < self.buckets@.len() && i0 > 0 ==> (out matches Node::Pruned(bp) && (
                *bp).round == self.round && (*bp).buckets@ == self.buckets@.subrange(0, i0) && ((
                *bp).child matches NodeLimited::Inner(bi) && (*bi).round as int == self.round - i0)))
            }),
            // an overwrite reuses the structure; a fresh path adds exactly
            // one stored value
            pruned_lookup(self, self.round as int, suffix_path(x, self.round as int)).is_some()
                ==> node_counts(out) == pruned_counts(self),
            !pruned_lookup(self, self.round as int, suffix_path(x, self.round as int)).is_some()
                ==> node_counts(out).2 == pruned_counts(self).2 + 1,
        decreases self.round as int, 2int,
    {
        let ghost pre = self;
        let rp = self.round;
        let NodePruned { round: _, nbuckets: nb, buckets, child } = self;
        let k = buckets.len();
        let ghost rr = rp as int;
        let ghost path = suffix_path(x, rr);

        let i = find_divergence(&buckets, &x, rp);
        if i < k {
            // split: head, divergence round, tail
            let bucket_y = buckets[i];
            let head = run_slice(&buckets, 0, i);
            let tail = run_slice(&buckets, i + 1, k);
            let d = rp - i;
            let mut inner = NodeInner::new(d, nb);
            let ghost gfresh = inner;
            let oldnode: Node<T> = if tail.len() == 0 {
                limited_into_node(child)
            } else {
                Node::Pruned(
                    Box::new(NodePruned { round: d - 1, nbuckets: nb, buckets: tail, child: child }),
                )
            };
            let ghost goldnode = oldnode;
            proof {
                assert(node_wf(goldnode, d as int - 1));
                assert forall|q2: Seq<int>| true implies node_lookup(goldnode, rr - i as int - 1, q2)
                    == tail_lookup(pre, i as int, q2) by {
                    lemma_tail_lookup_shape(pre, i as int, q2, goldnode);
                }
            }
            slot_set(&mut inner.children, bucket_y, oldnode);
            proof {
                assert(inner_wf(inner, d as int));
            }
            let ghost inner1 = inner;
            let inner2 = inner.insert(x);
            let ghost ginner2 = inner2;
            let out: Node<T> = if head.len() == 0 {
                Node::Inner(Box::new(inner2))
            } else {
                Node::Pruned(
                    Box::new(
                        NodePruned {
                            round: rp,
                            nbuckets: nb,
                            buckets: head,
                            child: NodeLimited::Inner(Box::new(inner2)),
                        },
                    ),
                )
            };
            proof {
                lemma_split_lookup(pre, x, i as int, inner1, ginner2, goldnode, out);
                let ii = i as int;
                let dd = rr - ii;
                let dig = bucket_y as int;

                // the returned index is the divergence point
                assert forall|m: int| 0 <= m < ii implies #[trigger] digits_of(pre.buckets@)[m]
                    == x.digit_spec(rr - 1 - m) by {
                    assert(pre.buckets@[m] as int == x.digit_spec(rr - 1 - m));
                }
                assert(digits_of(pre.buckets@)[ii] != x.digit_spec(rr - 1 - ii));
                lemma_run_divergence_is(digits_of(pre.buckets@), x, rr, 0, ii);

                // a divergence always inserts a fresh path
                assert(!pruned_lookup(pre, rr, path).is_some()) by {
                    if path.take(k as int) == digits_of(pre.buckets@) {
                        assert(path.take(k as int)[ii] == path[ii]);
                        assert(path[ii] == x.digit_spec(rr - 1 - ii));
                    }
                }

                // one stored value was added, nothing else with it
                assert(inner1.children@ == gfresh.children@.update(dig, goldnode));
                lemma_children_counts_update(
                    gfresh.children@,
                    gfresh.children@.len() as int,
                    dig,
                    goldnode,
                );
                assert(inner_counts(inner1).2 == node_counts(goldnode).2);
                assert(node_counts(goldnode).2 == pruned_counts(pre).2) by {
                    if k == i + 1 {
                        match pre.child {
                            NodeLimited::Child(_) => {},
                            NodeLimited::Inner(_) => {},
                        }
                    } else {
                        let bt = goldnode->Pruned_0;
                        assert((*bt).child == pre.child);
                        assert(pruned_counts(*bt) == pruned_counts(pre));
                    }
                }
                assert(!inner_lookup(inner1, dd, suffix_path(x, dd)).is_some()) by {
                    let q1 = suffix_path(x, dd);
                    assert(q1[0] == x.digit_spec(dd - 1));
                    if 0 <= q1[0] < inner1.children@.len() {
                        assert(inner1.children@[q1[0]] is Free);
                    }
                }
                assert(inner_counts(ginner2).2 == inner_counts(inner1).2 + 1);
                if head@.len() == 0 {
                    assert(node_counts(out) == inner_counts(ginner2));
                } else {
                    assert(node_counts(out).2 == inner_counts(ginner2).2);
                }
            }
            return out;
        }

        // the whole stored path is shared with the incoming value
        proof {
            assert(digits_of(buckets@) =~= path.take(k as int));
        }
        match child {
            NodeLimited::Child(_y) => {
                proof {
                    assert(limited_wf(pre.child, rr - k as int));
                    assert(k as int == rr);
                }
                let out = NodePruned {
                    round: rp,
                    nbuckets: nb,
                    buckets,
                    child: NodeLimited::Child(x),
                };
                proof {
                    assert(path.take(rr) =~= path);
                    assert(path.skip(rr) =~= Seq::<int>::empty());
                    assert(pruned_lookup(out, rr, path) == Some(x));
                    assert forall|q: Seq<int>| q != path implies pruned_lookup(out, rr, q)
                        == pruned_lookup(pre, rr, q) by {
                        if q.len() == rr && q.take(rr) == digits_of(out.buckets@) {
                            assert(q =~= q.take(rr));
                            assert(q =~= path);
                        }
                    }
                    assert(pruned_wf(out, rr));
                    // an overwrite at the end of the whole shared path
                    assert(pruned_lookup(pre, rr, path).is_some());
                    assert(pruned_counts(out) == pruned_counts(pre));
                    assert forall|m: int| 0 <= m < k as int implies #[trigger] digits_of(
                        pre.buckets@,
                    )[m] == x.digit_spec(rr - 1 - m) by {
                        assert(pre.buckets@[m] as int == x.digit_spec(rr - 1 - m));
                    }
                    lemma_run_divergence_is(digits_of(pre.buckets@), x, rr, 0, k as int);
                }
                Node::Pruned(Box::new(out))
            },
            NodeLimited::Inner(bx) => {
                let inner = *bx;
                proof {
                    assert(inner_wf(inner, rr - k as int));
                    assert(inner.round as int == rr - k as int);
                }
                let inner2 = inner.insert(x);
                let out = NodePruned {
                    round: rp,
                    nbuckets: nb,
                    buckets,
                    child: NodeLimited::Inner(Box::new(inner2)),
                };
                proof {
                    let ki = k as int;
                    lemma_suffix_path_skip(x, rr, ki);
                    assert(path.take(ki) =~= digits_of(out.buckets@));
                    assert(pruned_lookup(out, rr, path) == Some(x));
                    assert forall|q: Seq<int>| q != path implies pruned_lookup(out, rr, q)
                        == pruned_lookup(pre, rr, q) by {
                        if q.len() == rr && q.take(ki) == digits_of(out.buckets@) {
                            if q.skip(ki) == suffix_path(x, rr - ki) {
                                assert(q =~= q.take(ki) + q.skip(ki));
                                assert(path =~= path.take(ki) + path.skip(ki));
                                assert(q == path);
                            } else {
                                assert(pruned_lookup(out, rr, q) == inner_lookup(
                                    inner2,
                                    rr - ki,
                                    q.skip(ki),
                                ));
                                assert(inner_lookup(inner2, rr - ki, q.skip(ki)) == inner_lookup(
                                    inner,
                                    rr - ki,
                                    q.skip(ki),
                                ));
                                assert(pruned_lookup(pre, rr, q) == inner_lookup(
                                    inner,
                                    rr - ki,
                                    q.skip(ki),
                                ));
                            }
                        } else {
                            assert(pruned_lookup(out, rr, q) is None);
                            assert(pruned_lookup(pre, rr, q) is None);
                        }
                    }
                    assert(pruned_wf(out, rr));
                    // the shared prefix keeps the compressed shape; the
                    // insert descends into the final child
                    assert(pruned_lookup(pre, rr, path) == inner_lookup(
                        inner,
                        rr - ki,
                        suffix_path(x, rr - ki),
                    ));
                    if inner_lookup(inner, rr - ki, suffix_path(x, rr - ki)).is_some() {
                        assert(inner_counts(inner2) == inner_counts(inner));
                        assert(pruned_counts(out) == pruned_counts(pre));
                    } else {
                        assert(inner_counts(inner2).2 == inner_counts(inner).2 + 1);
                        assert(pruned_counts(out).2 == pruned_counts(pre).2 + 1);
                    }
                    assert forall|m: int| 0 <= m < ki implies #[trigger] digits_of(
                        pre.buckets@,
                    )[m] == x.digit_spec(rr - 1 - m) by {
                        assert(pre.buckets@[m] as int == x.digit_spec(rr - 1 - m));
                    }
                    lemma_run_divergence_is(digits_of(pre.buckets@), x, rr, 0, ki);
                }
                Node::Pruned(Box::new(out))
            },
        }
    }
}

/// What the part of a compressed branch below position `i` answers: the
/// remaining stored digits, then the final child.
pub(crate) open spec fn tail_lookup<T: Rdx>(p: NodePruned<T>, i: int, q: Seq<int>) -> Option<T> {
    let k = p.buckets@.len() as int;
    let r2 = p.round as int - i - 1;
    if q.len() == r2 && q.take(k - i - 1) == digits_of(p.buckets@.subrange(i + 1, k)) {
        limited_lookup(p.child, p.round as int - k, q.skip(k - i - 1))
    } else {
        None
    }
}

/// The first position at which a stored digit run leaves the digits of
/// `x` (entry `m` standing for round `top - 1 - m`), or the length of the
/// run when it never does: the divergence point of a compressed branch.
pub(crate) open spec fn run_divergence<T: Rdx>(digits: Seq<int>, x: T, top: int, j: int) -> int
    decreases digits.len() - j,
{
    if j < 0 || j >= digits.len() {
        j
    } else if digits[j] == x.digit_spec(top - 1 - j) {
        run_divergence(digits, x, top, j + 1)
    } else {
        j
    }
}

/// An index below which every digit agrees and at which one disagrees
/// (or the length) is the divergence point.
proof fn lemma_run_divergence_is<T: Rdx>(digits: Seq<int>, x: T, top: int, j: int, i: int)
    requires
        0 <= j <= i <= digits.len(),
        forall|m: int| 0 <= m < i ==> #[trigger] digits[m] == x.digit_spec(top - 1 - m),
        i < digits.len() ==> digits[i] != x.digit_spec(top - 1 - i),
    ensures
        run_divergence(digits, x, top, j) == i,
    decreases i - j,
{
    if j < i {
        lemma_run_divergence_is(digits, x, top, j + 1, i);
    }
}

/// The first position where the stored digit run leaves the digits of
/// `x`, or the length of the run when it never does.
fn find_divergence<T: Rdx + Copy>(buckets: &Vec<usize>, x: &T, rp: usize) -> (i: usize)
    requires
        buckets@.len() <= rp as int <= T::nrounds_spec(),
        T::nrounds_spec() <= usize::MAX as int,
        (*x).supported(),
    ensures
        i <= buckets@.len(),
        forall|m: int|
            0 <= m < i as int ==> (#[trigger] buckets@[m]) as int == (*x).digit_spec(
                rp as int - 1 - m,
            ),
        (i as int) < buckets@.len() ==> (buckets@[i as int] as int) != (*x).digit_spec(
            rp as int - 1 - i as int,
        ),
{
    let k = buckets.len();
    let mut i: usize = 0;
    while i < k
        invariant
            i <= k,
            k == buckets@.len(),
            buckets@.len() <= rp as int <= T::nrounds_spec(),
            T::nrounds_spec() <= usize::MAX as int,
            (*x).supported(),
            forall|m: int|
                0 <= m < i as int ==> (#[trigger] buckets@[m]) as int == (*x).digit_spec(
                    rp as int - 1 - m,
                ),
        decreases k - i,
    {
        let bucket_y = buckets[i];
        let bucket_x = x.get_bucket(rp - 1 - i);
        if bucket_x != bucket_y {
            return i;
        }
        i += 1;
    }
    i
}

/// A node carrying the digits below position `i` of a compressed branch
/// answers exactly `tail_lookup` of that branch.
proof fn lemma_tail_lookup_shape<T: Rdx + Copy>(
    pre: NodePruned<T>,
    i: int,
    q2: Seq<int>,
    oldnode: Node<T>,
)
    requires
        pruned_wf(pre, pre.round as int),
        0 <= i < pre.buckets@.len(),
        pre.buckets@.len() == i + 1 ==> forall|r3: int, q3: Seq<int>|
            node_lookup(oldnode, r3, q3) == limited_lookup(pre.child, r3, q3),
        pre.buckets@.len() > i + 1 ==> (oldnode matches Node::Pruned(bp) && (*bp).round as int
            == pre.round as int - i - 1 && (*bp).buckets@ == pre.buckets@.subrange(
            i + 1,
            pre.buckets@.len() as int,
        ) && (*bp).child == pre.child),
    ensures
        node_lookup(oldnode, pre.round as int - i - 1, q2) == tail_lookup(pre, i, q2),
{
    let rr = pre.round as int;
    let k = pre.buckets@.len() as int;
    let r2 = rr - i - 1;
    let tl = k - i - 1;
    if tl == 0 {
        assert(node_lookup(oldnode, r2, q2) == limited_lookup(pre.child, r2, q2));
        assert(q2.take(0) =~= digits_of(pre.buckets@.subrange(i + 1, k)));
        assert(q2.skip(0) =~= q2);
        if q2.len() == r2 {
            assert(tail_lookup(pre, i, q2) == limited_lookup(pre.child, rr - k, q2));
        } else {
            match pre.child {
                NodeLimited::Child(_) => {
                    assert(limited_lookup(pre.child, r2, q2) is None);
                },
                NodeLimited::Inner(bx) => {
                    assert(inner_wf(*bx, rr - k));
                    assert(limited_lookup(pre.child, r2, q2) is None);
                },
            }
        }
    } else {
        let bp = oldnode->Pruned_0;
        assert(node_lookup(oldnode, r2, q2) == pruned_lookup(*bp, r2, q2));
        assert((*bp).buckets@.len() == tl);
        assert(r2 >= 1);
        if q2.len() == r2 && q2.take(tl) == digits_of((*bp).buckets@) {
            assert(pruned_lookup(*bp, r2, q2) == limited_lookup(pre.child, r2 - tl, q2.skip(tl)));
            assert(r2 - tl == rr - k);
        }
    }
}

/// What splitting a compressed branch leaves behind: the new structure
/// holds the incoming value under its own path and answers every other
/// path exactly as the old branch did.
#[verifier::rlimit(50)]
proof fn lemma_split_lookup<T: Rdx + Copy>(
    pre: NodePruned<T>,
    x: T,
    i: int,
    inner1: NodeInner<T>,
    inner2: NodeInner<T>,
    oldnode: Node<T>,
    out: Node<T>,
)
    requires
        pruned_wf(pre, pre.round as int),
        x.supported(),
        0 <= i < pre.buckets@.len(),
        forall|m: int|
            0 <= m < i ==> (#[trigger] pre.buckets@[m]) as int == x.digit_spec(
                pre.round as int - 1 - m,
            ),
        x.digit_spec(pre.round as int - 1 - i) != pre.buckets@[i] as int,
        inner1.children@.len() == T::nbuckets_spec(),
        forall|b: int|
            0 <= b < inner1.children@.len() && b != pre.buckets@[i] as int
                ==> (#[trigger] inner1.children@[b]) is Free,
        (pre.buckets@[i] as int) < inner1.children@.len(),
        inner1.children@[pre.buckets@[i] as int] == oldnode,
        node_wf(oldnode, pre.round as int - i - 1),
        forall|q2: Seq<int>|
            #[trigger] node_lookup(oldnode, pre.round as int - i - 1, q2) == tail_lookup(
                pre,
                i,
                q2,
            ),
        inner_wf(inner2, pre.round as int - i),
        inner_lookup(inner2, pre.round as int - i, suffix_path(x, pre.round as int - i)) == Some(
            x,
        ),
        forall|q1: Seq<int>|
            q1 != suffix_path(x, pre.round as int - i) ==> #[trigger] inner_lookup(
                inner2,
                pre.round as int - i,
                q1,
            ) == inner_lookup(inner1, pre.round as int - i, q1),
        i == 0 ==> (out matches Node::Inner(b2) && *b2 == inner2),
        i > 0 ==> (out matches Node::Pruned(bp) && (*bp).round as int == pre.round as int && (
        *bp).nbuckets == pre.nbuckets && (*bp).buckets@ == pre.buckets@.subrange(0, i) && ((
        *bp).child matches NodeLimited::Inner(b3) && *b3 == inner2)),
    ensures
        node_wf(out, pre.round as int),
        node_lookup(out, pre.round as int, suffix_path(x, pre.round as int)) == Some(x),
        forall|q: Seq<int>|
            q != suffix_path(x, pre.round as int) ==> node_lookup(out, pre.round as int, q)
                == pruned_lookup(pre, pre.round as int, q),
{
    let rr = pre.round as int;
    let k = pre.buckets@.len() as int;
    let dd = rr - i;
    let dig = pre.buckets@[i] as int;
    let tl = k - i - 1;
    let path = suffix_path(x, rr);
    let hs = digits_of(pre.buckets@.subrange(0, i));
    let ts = digits_of(pre.buckets@.subrange(i + 1, k));

    // structural well-formedness of the replacement
    if i > 0 {
        assert(node_wf(out, rr)) by {
            let bp = out->Pruned_0;
            assert(forall|m: int|
                0 <= m < i ==> (#[trigger] (*bp).buckets@[m]) == pre.buckets@[m]);
            assert(pruned_wf(*bp, rr));
        }
    }

    // the inserted value stands under its own path
    lemma_suffix_path_skip(x, rr, i);
    assert(path.skip(i) =~= suffix_path(x, dd));
    assert(path.take(i) =~= hs);
    assert(node_lookup(out, rr, path) == Some(x)) by {
        if i > 0 {
            let bp = out->Pruned_0;
            assert(pruned_lookup(*bp, rr, path) == limited_lookup(
                (*bp).child,
                dd,
                path.skip(i),
            ));
        } else {
            assert(path.skip(0) =~= path);
        }
    }

    // every other path answers as the old branch did
    assert forall|q: Seq<int>| q != path implies node_lookup(out, rr, q) == pruned_lookup(
        pre,
        rr,
        q,
    ) by {
        if q.len() == rr && q.take(i) == hs {
            let q1 = q.skip(i);
            assert(q1.len() == dd);
            assert(node_lookup(out, rr, q) == inner_lookup(inner2, dd, q1)) by {
                if i > 0 {
                    let bp = out->Pruned_0;
                    assert(pruned_lookup(*bp, rr, q) == limited_lookup((*bp).child, dd, q1));
                } else {
                    assert(q.skip(0) =~= q);
                }
            }
            if q1 == suffix_path(x, dd) {
                assert(q =~= q.take(i) + q1);
                assert(path =~= path.take(i) + path.skip(i));
                assert(q == path);
            } else {
                assert(inner_lookup(inner2, dd, q1) == inner_lookup(inner1, dd, q1));
                if 0 <= q1[0] < inner1.children@.len() {
                    if q1[0] == dig {
                        let q2 = q1.skip(1);
                        assert(q2 =~= q.skip(i + 1));
                        assert(inner_lookup(inner1, dd, q1) == node_lookup(oldnode, dd - 1, q2));
                        assert(node_lookup(oldnode, dd - 1, q2) == tail_lookup(pre, i, q2));
                        if q2.take(tl) == ts {
                            // the full old condition holds on both sides
                            assert(q.take(k) =~= q.take(i) + seq![q[i]] + q2.take(tl));
                            assert(digits_of(pre.buckets@) =~= hs + seq![dig] + ts);
                            assert(q[i] == q1[0]);
                            assert(q.take(k) == digits_of(pre.buckets@));
                            assert(q2.skip(tl) =~= q.skip(k));
                            assert(tail_lookup(pre, i, q2) == limited_lookup(
                                pre.child,
                                rr - k,
                                q2.skip(tl),
                            ));
                            assert(pruned_lookup(pre, rr, q) == limited_lookup(
                                pre.child,
                                rr - k,
                                q.skip(k),
                            ));
                        } else {
                            assert(tail_lookup(pre, i, q2) is None);
                            if q.take(k) == digits_of(pre.buckets@) {
                                assert forall|m: int| 0 <= m < tl implies q2.take(tl)[m]
                                    == ts[m] by {
                                    assert(q2.take(tl)[m] == q[i + 1 + m]);
                                    assert(q[i + 1 + m] == q.take(k)[i + 1 + m]);
                                    assert(digits_of(pre.buckets@)[i + 1 + m] == ts[m]);
                                }
                                assert(q2.take(tl) =~= ts);
                            }
                            assert(pruned_lookup(pre, rr, q) is None);
                        }
                    } else {
                        assert(inner1.children@[q1[0]] is Free);
                        if q.take(k) == digits_of(pre.buckets@) {
                            assert(q.take(k)[i] == digits_of(pre.buckets@)[i]);
                            assert(q[i] == dig);
                            assert(q1[0] == q[i]);
                        }
                        assert(pruned_lookup(pre, rr, q) is None);
                    }
                } else {
                    assert(inner_lookup(inner1, dd, q1) is None);
                    if q.take(k) == digits_of(pre.buckets@) {
                        assert(q.take(k)[i] == digits_of(pre.buckets@)[i]);
                        assert(q[i] == dig);
                        assert(q1[0] == q[i]);
                        assert(dig < inner1.children@.len());
                    }
                    assert(pruned_lookup(pre, rr, q) is None);
                }
            }
        } else {
            // the head already differs from the old path
            if q.len() == rr && q.take(k) == digits_of(pre.buckets@) {
                assert forall|m: int| 0 <= m < i implies q.take(i)[m] == hs[m] by {
                    assert(q.take(i)[m] == q[m]);
                    assert(q[m] == q.take(k)[m]);
                    assert(digits_of(pre.buckets@)[m] == hs[m]);
                }
                assert(q.take(i) =~= hs);
            }
            assert(node_lookup(out, rr, q) is None) by {
                if i > 0 {
                    let bp = out->Pruned_0;
                    if q.len() == rr && q.take(i) == digits_of((*bp).buckets@) {
                        assert(q.take(i) =~= hs);
                    }
                } else {
                    if 1 <= rr && q.len() == rr {
                        assert(q.take(0) =~= hs);
                    }
                }
            }
        }
    }
}

/// Unwraps the final child of a pruned node into an ordinary slot.
fn limited_into_node<T: Rdx + Copy>(l: NodeLimited<T>) -> (n: Node<T>)
    ensures
        forall|r: int, q: Seq<int>| node_lookup(n, r, q) == limited_lookup(l, r, q),
        forall|r: int| limited_wf(l, r) ==> node_wf(n, r),
        l is Child ==> node_counts(n) == (0nat, 0nat, 1nat, 0nat),
        l matches NodeLimited::Inner(bi) ==> node_counts(n) == inner_counts(*bi),
{
    match l {
        NodeLimited::Child(x) => Node::Child(x),
        NodeLimited::Inner(inner) => Node::Inner(inner),
    }
}

/// The number of (inner, pruned, child, free) nodes of a slot.
pub(crate) open spec fn node_counts<T: Rdx>(n: Node<T>) -> (nat, nat, nat, nat)
    decreases n, 1int,
{
    match n {
        Node::Free => (0, 0, 0, 1),
        Node::Child(_) => (0, 0, 1, 0),
        Node::Inner(inner) => inner_counts(*inner),
        Node::Pruned(pruned) => pruned_counts(*pruned),
    }
}

pub(crate) open spec fn pruned_counts<T: Rdx>(p: NodePruned<T>) -> (nat, nat, nat, nat)
    decreases p, 0int,
{
    match p.child {
        NodeLimited::Child(_) => (0, 1, 1, 0),
        NodeLimited::Inner(bi) => {
            let sub = inner_counts(*bi);
            (sub.0, sub.1 + 1, sub.2, sub.3)
        },
    }
}

pub(crate) open spec fn inner_counts<T: Rdx>(inner: NodeInner<T>) -> (nat, nat, nat, nat)
    decreases inner, 2int,
{
    let sub = children_counts(inner.children@, inner.children@.len() as int);
    (sub.0 + 1, sub.1, sub.2, sub.3)
}

pub(crate) open spec fn children_counts<T: Rdx>(s: Seq<Node<T>>, j: int) -> (nat, nat, nat, nat)
    decreases s, j,
{
    if j <= 0 || s.len() < j {
        (0, 0, 0, 0)
    } else {
        let rest = children_counts(s, j - 1);
        let cur = node_counts(s[j - 1]);
        (rest.0 + cur.0, rest.1 + cur.1, rest.2 + cur.2, rest.3 + cur.3)
    }
}

/// A row of free slots counts nothing but its free slots.
proof fn lemma_children_counts_free<T: Rdx>(s: Seq<Node<T>>, j: int)
    requires
        0 <= j <= s.len(),
        forall|b: int| 0 <= b < s.len() ==> (#[trigger] s[b]) is Free,
    ensures
        children_counts(s, j) == (0nat, 0nat, 0nat, j as nat),
    decreases j,
{
    if j > 0 {
        lemma_children_counts_free(s, j - 1);
        assert(s[j - 1] is Free);
        assert(node_counts(s[j - 1]) == (0nat, 0nat, 0nat, 1nat));
        assert(children_counts(s, j).3 == j as nat);
    } else {
        assert(children_counts(s, j) == (0nat, 0nat, 0nat, 0nat));
    }
}

/// Replacing one slot shifts the combined counts by the difference of the
/// old and the new slot's counts.
proof fn lemma_children_counts_update<T: Rdx>(s: Seq<Node<T>>, j: int, b: int, n: Node<T>)
    requires
        0 <= b < j <= s.len(),
    ensures
        children_counts(s.update(b, n), j).0 + node_counts(s[b]).0 == children_counts(s, j).0
            + node_counts(n).0,
        children_counts(s.update(b, n), j).1 + node_counts(s[b]).1 == children_counts(s, j).1
            + node_counts(n).1,
        children_counts(s.update(b, n), j).2 + node_counts(s[b]).2 == children_counts(s, j).2
            + node_counts(n).2,
        children_counts(s.update(b, n), j).3 + node_counts(s[b]).3 == children_counts(s, j).3
            + node_counts(n).3,
    decreases j,
{
    let s2 = s.update(b, n);
    if b == j - 1 {
        lemma_children_counts_same(s, s2, j - 1);
        assert(s2[j - 1] == n);
    } else {
        lemma_children_counts_update(s, j - 1, b, n);
        assert(s2[j - 1] == s[j - 1]);
    }
}

/// The combined counts of a prefix only depend on the slots in it.
proof fn lemma_children_counts_same<T: Rdx>(s1: Seq<Node<T>>, s2: Seq<Node<T>>, j: int)
    requires
        0 <= j <= s1.len(),
        j <= s2.len(),
        forall|b: int| 0 <= b < j ==> s1[b] == s2[b],
    ensures
        children_counts(s1, j) == children_counts(s2, j),
    decreases j,
{
    if j > 0 {
        lemma_children_counts_same(s1, s2, j - 1);
    }
}

/// Slot accounting of one subtree: the node provides `nbuckets` slots if
/// inner and one slot if compressed; every node below it fills exactly
/// one slot, and the free slots fill the rest.
proof fn lemma_node_accounting<T: Rdx>(n: Node<T>, r: int)
    requires
        node_wf(n, r),
    ensures
        node_counts(n).0 * T::nbuckets_spec() + node_counts(n).1 + 1 == node_counts(n).0
            + node_counts(n).1 + node_counts(n).2 + node_counts(n).3,
    decreases n, 1int,
{
    match n {
        Node::Free => {
            assert(node_counts(n) == (0nat, 0nat, 0nat, 1nat));
            assert(node_counts(n).0 * T::nbuckets_spec() == 0) by (nonlinear_arith)
                requires
                    node_counts(n).0 == 0,
            ;
        },
        Node::Child(_) => {
            assert(node_counts(n) == (0nat, 0nat, 1nat, 0nat));
            assert(node_counts(n).0 * T::nbuckets_spec() == 0) by (nonlinear_arith)
                requires
                    node_counts(n).0 == 0,
            ;
        },
        Node::Inner(inner) => {
            lemma_inner_accounting(*inner, r);
        },
        Node::Pruned(pruned) => {
            lemma_pruned_accounting(*pruned, r);
        },
    }
}

proof fn lemma_pruned_accounting<T: Rdx>(p: NodePruned<T>, r: int)
    requires
        pruned_wf(p, r),
    ensures
        pruned_counts(p).0 * T::nbuckets_spec() + pruned_counts(p).1 + 1 == pruned_counts(p).0
            + pruned_counts(p).1 + pruned_counts(p).2 + pruned_counts(p).3,
    decreases p, 0int,
{
    match p.child {
        NodeLimited::Child(_) => {
            assert(pruned_counts(p) == (0nat, 1nat, 1nat, 0nat));
            assert(pruned_counts(p).0 * T::nbuckets_spec() == 0) by (nonlinear_arith)
                requires
                    pruned_counts(p).0 == 0,
            ;
        },
        NodeLimited::Inner(bi) => {
            lemma_inner_accounting(*bi, r - p.buckets@.len() as int);
        },
    }
}

proof fn lemma_inner_accounting<T: Rdx>(inner: NodeInner<T>, r: int)
    requires
        inner_wf(inner, r),
    ensures
        inner_counts(inner).0 * T::nbuckets_spec() + inner_counts(inner).1 + 1 == inner_counts(
            inner,
        ).0 + inner_counts(inner).1 + inner_counts(inner).2 + inner_counts(inner).3,
    decreases inner, 2int,
{
    let nb = T::nbuckets_spec();
    let cc = children_counts(inner.children@, inner.children@.len() as int);
    lemma_children_accounting(inner.children@, inner.children@.len() as int, r - 1);
    assert((cc.0 + 1) * nb == cc.0 * nb + nb) by (nonlinear_arith);
}

proof fn lemma_children_accounting<T: Rdx>(s: Seq<Node<T>>, j: int, r: int)
    requires
        0 <= j <= s.len(),
        forall|b: int| 0 <= b < s.len() ==> node_wf(#[trigger] s[b], r),
    ensures
        children_counts(s, j).0 * T::nbuckets_spec() + children_counts(s, j).1 + j
            == children_counts(s, j).0 + children_counts(s, j).1 + children_counts(s, j).2
            + children_counts(s, j).3,
    decreases s, j,
{
    if j > 0 {
        let rest = children_counts(s, j - 1);
        let cur = node_counts(s[j - 1]);
        lemma_children_accounting(s, j - 1, r);
        lemma_node_accounting(s[j - 1], r);
        assert((rest.0 + cur.0) * T::nbuckets_spec() == rest.0 * T::nbuckets_spec() + cur.0
            * T::nbuckets_spec()) by (nonlinear_arith);
    } else {
        assert(children_counts(s, j) == (0nat, 0nat, 0nat, 0nat));
        assert(children_counts(s, j).0 * T::nbuckets_spec() == 0) by (nonlinear_arith)
            requires
                children_counts(s, j).0 == 0,
        ;
    }
}

/// A count clamped to what a machine word can report.
pub open spec fn sat_count(c: nat) -> int {
    if c <= usize::MAX as nat {
        c as int
    } else {
        usize::MAX as int
    }
}

/// Adds two counts, clamping at the machine word.
fn sat_add(a: usize, b: usize) -> (r: usize)
    ensures
        r as int == sat_count((a + b) as nat),
{
    if a > usize::MAX - b {
        usize::MAX
    } else {
        a + b
    }
}

/// Adds two already clamped counts, clamping the true sum.
fn sat_add_counts(a: usize, b: usize, ca: Ghost<nat>, cb: Ghost<nat>) -> (r: usize)
    requires
        a as int == sat_count(ca@),
        b as int == sat_count(cb@),
    ensures
        r as int == sat_count((ca@ + cb@) as nat),
{
    sat_add(a, b)
}

impl<T: Rdx + Copy> NodeInner<T> {
    /// Counts the (inner, pruned, child, free) nodes below, the inner
    /// node itself included.  Each count is exact up to the machine word
    /// and clamps there.
    pub(crate) fn nnodes(&self) -> (r: (usize, usize, usize, usize))
        ensures
            r.0 as int == sat_count(inner_counts(*self).0),
            r.1 as int == sat_count(inner_counts(*self).1),
            r.2 as int == sat_count(inner_counts(*self).2),
            r.3 as int == sat_count(inner_counts(*self).3),
        decreases *self, 1int,
    {
        let mut r: (usize, usize, usize, usize) = (1, 0, 0, 0);
        let n = self.children.len();
        let mut j: usize = 0;
        while j < n
            invariant
                j <= n,
                n == self.children@.len(),
                r.0 as int == sat_count((children_counts(self.children@, j as int).0 + 1) as nat),
                r.1 as int == sat_count(children_counts(self.children@, j as int).1),
                r.2 as int == sat_count(children_counts(self.children@, j as int).2),
                r.3 as int == sat_count(children_counts(self.children@, j as int).3),
            decreases n - j,
        {
            let sub = node_nnodes(&self.children[j]);
            let ghost cc = children_counts(self.children@, j as int);
            let ghost cur = node_counts(self.children@[j as int]);
            r = (
                sat_add_counts(r.0, sub.0, Ghost((cc.0 + 1) as nat), Ghost(cur.0)),
                sat_add_counts(r.1, sub.1, Ghost(cc.1), Ghost(cur.1)),
                sat_add_counts(r.2, sub.2, Ghost(cc.2), Ghost(cur.2)),
                sat_add_counts(r.3, sub.3, Ghost(cc.3), Ghost(cur.3)),
            );
            j += 1;
        }
        r
    }
}

/// Counts the (inner, pruned, child, free) nodes of one slot.
fn node_nnodes<T: Rdx + Copy>(n: &Node<T>) -> (r: (usize, usize, usize, usize))
    ensures
        r.0 as int == sat_count(node_counts(*n).0),
        r.1 as int == sat_count(node_counts(*n).1),
        r.2 as int == sat_count(node_counts(*n).2),
        r.3 as int == sat_count(node_counts(*n).3),
    decreases *n, 0int,
{
    match n {
        Node::Free => (0, 0, 0, 1),
        Node::Child(_) => (0, 0, 1, 0),
        Node::Inner(inner) => inner.nnodes(),
        Node::Pruned(pruned) => {
            match &pruned.child {
                NodeLimited::Child(_) => (0, 1, 1, 0),
                NodeLimited::Inner(bi) => {
                    let sub = bi.nnodes();
                    let r1 = sat_add(sub.1, 1);
                    (sub.0, r1, sub.2, sub.3)
                },
            }
        },
    }
}

/// Every stored value of an inner node sits under its own digit path.
pub(crate) open spec fn inner_paths_ok<T: Rdx>(inner: NodeInner<T>, r: int) -> bool {
    forall|q: Seq<int>|
        (#[trigger] inner_lookup(inner, r, q)).is_some() ==> q == suffix_path(
            inner_lookup(inner, r, q).unwrap(),
            r,
        )
}

/// A successful lookup consumes a path of exactly the level's length.
proof fn lemma_lookup_some_len<T: Rdx>(n: Node<T>, r: int, q: Seq<int>)
    requires
        node_lookup(n, r, q).is_some(),
    ensures
        q.len() == r,
{
    match n {
        Node::Free => {},
        Node::Child(_) => {},
        Node::Inner(_) => {},
        Node::Pruned(_) => {},
    }
}

proof fn lemma_limited_some_len<T: Rdx>(l: NodeLimited<T>, r: int, q: Seq<int>)
    requires
        limited_lookup(l, r, q).is_some(),
    ensures
        q.len() == r,
{
    match l {
        NodeLimited::Child(_) => {},
        NodeLimited::Inner(_) => {},
    }
}

/// What descending into slot `b` of an inner node preserves: the child's
/// values still sit under their own (shorter) paths, and each of them
/// carries digit `b` at the round the inner node consumes.
proof fn lemma_inner_child_facts<T: Rdx>(inner: NodeInner<T>, r: int, b: int)
    requires
        inner_wf(inner, r),
        inner_paths_ok(inner, r),
        0 <= b < inner.children@.len(),
    ensures
        node_paths_ok(inner.children@[b], r - 1),
        forall|q: Seq<int>|
            (#[trigger] node_lookup(inner.children@[b], r - 1, q)).is_some() ==> node_lookup(
                inner.children@[b],
                r - 1,
                q,
            ).unwrap().digit_spec(r - 1) == b,
{
    let ch = inner.children@[b];
    assert forall|q: Seq<int>| (#[trigger] node_lookup(ch, r - 1, q)).is_some() implies (q
        == suffix_path(node_lookup(ch, r - 1, q).unwrap(), r - 1) && node_lookup(
        ch,
        r - 1,
        q,
    ).unwrap().digit_spec(r - 1) == b) by {
        let v = node_lookup(ch, r - 1, q).unwrap();
        lemma_lookup_some_len(ch, r - 1, q);
        let qq = seq![b] + q;
        assert(qq.skip(1) =~= q);
        assert(inner_lookup(inner, r, qq) == node_lookup(ch, r - 1, q));
        assert(qq == suffix_path(v, r));
        lemma_suffix_path_skip(v, r, 1);
        assert(q =~= suffix_path(v, r - 1));
        assert(v.digit_spec(r - 1) == suffix_path(v, r)[0]);
        assert(suffix_path(v, r)[0] == qq[0]);
    }
}

/// What descending through a compressed run preserves: the child's values
/// sit under their own paths, and each of them spells the stored digits
/// along the elided rounds.
proof fn lemma_pruned_child_facts<T: Rdx>(p: NodePruned<T>, r: int)
    requires
        pruned_wf(p, r),
        forall|q: Seq<int>|
            (#[trigger] pruned_lookup(p, r, q)).is_some() ==> q == suffix_path(
                pruned_lookup(p, r, q).unwrap(),
                r,
            ),
    ensures
        forall|q: Seq<int>|
            #![trigger limited_lookup(p.child, r - p.buckets@.len(), q)]
            limited_lookup(p.child, r - p.buckets@.len(), q).is_some() ==> {
                let v = limited_lookup(p.child, r - p.buckets@.len(), q).unwrap();
                q == suffix_path(v, r - p.buckets@.len()) && suffix_path(v, r).take(
                    p.buckets@.len() as int,
                ) == digits_of(p.buckets@)
            },
{
    let k = p.buckets@.len() as int;
    assert forall|q: Seq<int>|
        #![trigger limited_lookup(p.child, r - p.buckets@.len(), q)]
        limited_lookup(p.child, r - k, q).is_some() implies {
        let v = limited_lookup(p.child, r - k, q).unwrap();
        q == suffix_path(v, r - k) && suffix_path(v, r).take(k) == digits_of(p.buckets@)
    } by {
        let v = limited_lookup(p.child, r - k, q).unwrap();
        lemma_limited_some_len(p.child, r - k, q);
        let qq = digits_of(p.buckets@) + q;
        assert(qq.take(k) =~= digits_of(p.buckets@));
        assert(qq.skip(k) =~= q);
        assert(pruned_lookup(p, r, qq) == limited_lookup(p.child, r - k, q));
        assert(qq == suffix_path(v, r));
        lemma_suffix_path_skip(v, r, k);
        assert(q =~= suffix_path(v, r - k));
        assert(suffix_path(v, r).take(k) =~= qq.take(k));
    }
}

/// The reversal flags of the elided rounds of a compressed run, folded
/// over its first `j` digits.  Entry `m` stands for round `top - 1 - m`.
pub(crate) open spec fn run_fold<T: Rdx>(digits: Seq<int>, top: int, j: int) -> bool
    decreases j,
{
    if j <= 0 {
        false
    } else {
        run_fold::<T>(digits, top, j - 1) ^ T::reverse_spec(top - j, digits[j - 1])
    }
}

/// Folding a value's own digits gives `path_fold` over those rounds.
proof fn lemma_run_fold_matches<T: Rdx>(x: T, digits: Seq<int>, top: int, j: int)
    requires
        0 <= j <= top,
        forall|m: int| 0 <= m < j ==> #[trigger] digits[m] == x.digit_spec(top - 1 - m),
    ensures
        run_fold::<T>(digits, top, j) == crate::order::path_fold(x, top - j, top),
    decreases j,
{
    if j > 0 {
        lemma_run_fold_matches(x, digits, top, j - 1);
    }
}

/// Collects the values of a slot at level `r`, ascending when `rev` is
/// false and descending when it is true: inside a subtree reached through
/// a reversed bucket, the intended order of everything below is flipped.
fn node_collect<T: Rdx + Copy>(n: &Node<T>, r: usize, rev: bool) -> (vs: Vec<T>)
    requires
        node_wf(*n, r as int),
        node_paths_ok(*n, r as int),
        r as int <= T::nrounds_spec(),
        T::nrounds_spec() <= usize::MAX as int,
    ensures
        forall|i: int|
            0 <= i < vs@.len() ==> node_lookup(
                *n,
                r as int,
                suffix_path(#[trigger] vs@[i], r as int),
            ) == Some(vs@[i]),
        forall|q: Seq<int>|
            (#[trigger] node_lookup(*n, r as int, q)).is_some() ==> vs@.contains(
                node_lookup(*n, r as int, q).unwrap(),
            ),
        forall|i: int, j: int|
            #![trigger vs@[i], vs@[j]]
            0 <= i < j < vs@.len() ==> le_from(vs@[i], vs@[j], r as int, rev) && vs@[i] != vs@[j],
    decreases *n, 0int,
{
    match n {
        Node::Free => {
            let vs: Vec<T> = Vec::new();
            proof {
                assert forall|q: Seq<int>| !(#[trigger] node_lookup(*n, r as int, q)).is_some() by {
                    assert(node_lookup(*n, r as int, q) is None);
                }
            }
            vs
        },
        Node::Child(x) => {
            let mut vs: Vec<T> = Vec::new();
            vs.push(*x);
            proof {
                assert(suffix_path(vs@[0], 0int) =~= Seq::<int>::empty());
                assert forall|q: Seq<int>| (#[trigger] node_lookup(*n, r as int, q)).is_some()
                    implies vs@.contains(node_lookup(*n, r as int, q).unwrap()) by {
                    assert(vs@[0] == node_lookup(*n, r as int, q).unwrap());
                }
            }
            vs
        },
        Node::Inner(bx) => {
            proof {
                assert forall|q: Seq<int>| (#[trigger] inner_lookup(**bx, r as int, q)).is_some()
                    implies q == suffix_path(inner_lookup(**bx, r as int, q).unwrap(), r as int) by {
                    assert(node_lookup(*n, r as int, q) == inner_lookup(**bx, r as int, q));
                }
            }
            let vs = inner_collect(&**bx, r, rev);
            proof {
                assert forall|q: Seq<int>| (#[trigger] node_lookup(*n, r as int, q)).is_some()
                    implies vs@.contains(node_lookup(*n, r as int, q).unwrap()) by {
                    assert(node_lookup(*n, r as int, q) == inner_lookup(**bx, r as int, q));
                }
            }
            vs
        },
        Node::Pruned(bp) => {
            let p = &**bp;
            let ghost rr = r as int;
            let k = p.buckets.len();
            let ghost kk = k as int;
            let ghost digits = digits_of(p.buckets@);
            proof {
                assert(pruned_wf(*p, rr));
                assert forall|q: Seq<int>| (#[trigger] pruned_lookup(*p, rr, q)).is_some()
                    implies q == suffix_path(pruned_lookup(*p, rr, q).unwrap(), rr) by {
                    assert(node_lookup(*n, rr, q) == pruned_lookup(*p, rr, q));
                }
                lemma_pruned_child_facts(*p, rr);
            }

            // fold the reversal flags of the elided rounds
            let mut rev2 = rev;
            let mut j: usize = 0;
            while j < k
                invariant
                    j <= k,
                    k == p.buckets@.len(),
                    pruned_wf(*p, rr),
                    rr == r as int,
                    r as int <= T::nrounds_spec(),
                    T::nrounds_spec() <= usize::MAX as int,
                    digits == digits_of(p.buckets@),
                    rev2 == rev ^ run_fold::<T>(digits, rr, j as int),
                decreases k - j,
            {
                let flag = T::reverse(r - 1 - j, p.buckets[j]);
                rev2 = rev2 ^ flag;
                j += 1;
            }

            let sub: Vec<T> = match &p.child {
                NodeLimited::Child(x) => {
                    let mut vs: Vec<T> = Vec::new();
                    vs.push(*x);
                    vs
                },
                NodeLimited::Inner(bi) => {
                    proof {
                        assert(inner_wf(**bi, rr - kk));
                        assert forall|q: Seq<int>|
                            (#[trigger] inner_lookup(**bi, rr - kk, q)).is_some() implies q
                            == suffix_path(inner_lookup(**bi, rr - kk, q).unwrap(), rr - kk) by {
                            assert(limited_lookup(p.child, rr - kk, q) == inner_lookup(
                                **bi,
                                rr - kk,
                                q,
                            ));
                        }
                    }
                    inner_collect(&**bi, r - k, rev2)
                },
            };
            proof {
                // every collected value answers the child's lookup
                assert forall|i: int| 0 <= i < sub@.len() implies limited_lookup(
                    p.child,
                    rr - kk,
                    suffix_path(#[trigger] sub@[i], rr - kk),
                ) == Some(sub@[i]) by {
                    match p.child {
                        NodeLimited::Child(_) => {
                            assert(suffix_path(sub@[i], 0int) =~= Seq::<int>::empty());
                        },
                        NodeLimited::Inner(bi) => {},
                    }
                }
                // soundness at this level
                assert forall|i: int| 0 <= i < sub@.len() implies node_lookup(
                    *n,
                    rr,
                    suffix_path(#[trigger] sub@[i], rr),
                ) == Some(sub@[i]) by {
                    let v = sub@[i];
                    let sp = suffix_path(v, rr);
                    assert(limited_lookup(p.child, rr - kk, suffix_path(v, rr - kk)) == Some(v));
                    assert(sp.take(kk) == digits);
                    lemma_suffix_path_skip(v, rr, kk);
                    assert(sp.skip(kk) =~= suffix_path(v, rr - kk));
                    assert(pruned_lookup(*p, rr, sp) == limited_lookup(
                        p.child,
                        rr - kk,
                        sp.skip(kk),
                    ));
                }
                // completeness at this level
                assert forall|q: Seq<int>| (#[trigger] node_lookup(*n, rr, q)).is_some()
                    implies sub@.contains(node_lookup(*n, rr, q).unwrap()) by {
                    assert(node_lookup(*n, rr, q) == pruned_lookup(*p, rr, q));
                    assert(limited_lookup(p.child, rr - kk, q.skip(kk)).is_some());
                    match p.child {
                        NodeLimited::Child(y) => {
                            assert(sub@[0] == y);
                            assert(sub@.contains(y));
                        },
                        NodeLimited::Inner(bi) => {
                            assert(inner_lookup(*bi, rr - kk, q.skip(kk)).is_some());
                        },
                    }
                }
                // the order below lifts through the shared digits
                assert forall|i: int, j2: int|
                    #![trigger sub@[i], sub@[j2]]
                    0 <= i < j2 < sub@.len() implies le_from(sub@[i], sub@[j2], rr, rev)
                    && sub@[i] != sub@[j2] by {
                    let v = sub@[i];
                    let w = sub@[j2];
                    if sub@.len() > 1 {
                        match p.child {
                            NodeLimited::Child(_) => {},
                            NodeLimited::Inner(bi) => {
                                assert(le_from(v, w, rr - kk, rev2) && v != w);
                                assert(suffix_path(v, rr).take(kk) == digits);
                                assert(suffix_path(w, rr).take(kk) == digits);
                                assert forall|m: int| rr - kk <= m < rr implies v.digit_spec(m)
                                    == w.digit_spec(m) by {
                                    assert(suffix_path(v, rr)[rr - 1 - m] == v.digit_spec(m));
                                    assert(suffix_path(v, rr).take(kk)[rr - 1 - m] == suffix_path(
                                        v,
                                        rr,
                                    )[rr - 1 - m]);
                                    assert(suffix_path(w, rr).take(kk)[rr - 1 - m] == suffix_path(
                                        w,
                                        rr,
                                    )[rr - 1 - m]);
                                }
                                assert forall|m: int| 0 <= m < kk implies #[trigger] digits[m]
                                    == v.digit_spec(rr - 1 - m) by {
                                    assert(suffix_path(v, rr).take(kk)[m] == digits[m]);
                                }
                                lemma_run_fold_matches(v, digits, rr, kk);
                                crate::order::lemma_le_from_descend(v, w, rr - kk, rr, rev);
                            },
                        }
                    }
                }
            }
            sub
        },
    }
}

/// Collects the values below an inner node at level `r`, scanning its
/// buckets upward (or downward when `rev` is set) and flipping the
/// direction below every bucket whose reversal flag is set.
fn inner_collect<T: Rdx + Copy>(inner: &NodeInner<T>, r: usize, rev: bool) -> (vs: Vec<T>)
    requires
        inner_wf(*inner, r as int),
        inner_paths_ok(*inner, r as int),
        r as int <= T::nrounds_spec(),
        T::nrounds_spec() <= usize::MAX as int,
    ensures
        forall|i: int|
            0 <= i < vs@.len() ==> inner_lookup(
                *inner,
                r as int,
                suffix_path(#[trigger] vs@[i], r as int),
            ) == Some(vs@[i]),
        forall|q: Seq<int>|
            (#[trigger] inner_lookup(*inner, r as int, q)).is_some() ==> vs@.contains(
                inner_lookup(*inner, r as int, q).unwrap(),
            ),
        forall|i: int, j: int|
            #![trigger vs@[i], vs@[j]]
            0 <= i < j < vs@.len() ==> le_from(vs@[i], vs@[j], r as int, rev) && vs@[i] != vs@[j],
    decreases *inner, 1int,
{
    let ghost rr = r as int;
    let nbuckets = inner.children.len();
    let mut acc: Vec<T> = Vec::new();
    let mut m: usize = 0;
    while m < nbuckets
        invariant
            m <= nbuckets,
            nbuckets == inner.children@.len(),
            inner_wf(*inner, rr),
            inner_paths_ok(*inner, rr),
            rr == r as int,
            r as int <= T::nrounds_spec(),
            T::nrounds_spec() <= usize::MAX as int,
            forall|i: int|
                0 <= i < acc@.len() ==> inner_lookup(
                    *inner,
                    rr,
                    suffix_path(#[trigger] acc@[i], rr),
                ) == Some(acc@[i]),
            !rev ==> forall|i: int|
                0 <= i < acc@.len() ==> (#[trigger] acc@[i]).digit_spec(rr - 1) < m as int,
            rev ==> forall|i: int|
                0 <= i < acc@.len() ==> (#[trigger] acc@[i]).digit_spec(rr - 1) >= nbuckets as int
                    - m as int,
            forall|q: Seq<int>|
                (#[trigger] inner_lookup(*inner, rr, q)).is_some() && (if rev {
                    q[0] >= nbuckets as int - m as int
                } else {
                    q[0] < m as int
                }) ==> acc@.contains(inner_lookup(*inner, rr, q).unwrap()),
            forall|i: int, j: int|
                #![trigger acc@[i], acc@[j]]
                0 <= i < j < acc@.len() ==> le_from(acc@[i], acc@[j], rr, rev) && acc@[i]
                    != acc@[j],
        decreases nbuckets - m,
    {
        let idx = if rev {
            nbuckets - 1 - m
        } else {
            m
        };
        let ghost di = idx as int;
        proof {
            lemma_inner_child_facts(*inner, rr, di);
        }
        let flag = T::reverse(r - 1, idx);
        let mut sub = node_collect(&inner.children[idx], r - 1, rev ^ flag);
        let ghost accpre = acc@;
        let ghost subseq = sub@;
        acc.append(&mut sub);
        proof {
            let ch = inner.children@[di];
            assert(acc@ == accpre + subseq);
            // each new value answers this node's lookup under its path
            assert forall|i: int| 0 <= i < subseq.len() implies inner_lookup(
                *inner,
                rr,
                suffix_path(#[trigger] subseq[i], rr),
            ) == Some(subseq[i]) && subseq[i].digit_spec(rr - 1) == di by {
                let v = subseq[i];
                assert(node_lookup(ch, rr - 1, suffix_path(v, rr - 1)) == Some(v));
                assert(v.digit_spec(rr - 1) == di);
                let sp = suffix_path(v, rr);
                assert(sp[0] == di);
                lemma_suffix_path_skip(v, rr, 1);
                assert(sp.skip(1) =~= suffix_path(v, rr - 1));
                assert(inner_lookup(*inner, rr, sp) == node_lookup(ch, rr - 1, sp.skip(1)));
            }
            // the new values continue the accumulated order
            assert forall|i: int, j: int|
                #![trigger acc@[i], acc@[j]]
                0 <= i < j < acc@.len() implies le_from(acc@[i], acc@[j], rr, rev) && acc@[i]
                != acc@[j] by {
                if i < accpre.len() && j < accpre.len() {
                    assert(acc@[i] == accpre[i] && acc@[j] == accpre[j]);
                } else if i >= accpre.len() {
                    let v = subseq[i - accpre.len()];
                    let w = subseq[j - accpre.len()];
                    assert(acc@[i] == v && acc@[j] == w);
                    assert(le_from(v, w, rr - 1, rev ^ T::reverse_spec(rr - 1, di)) && v != w);
                    assert(v.digit_spec(rr - 1) == di && w.digit_spec(rr - 1) == di);
                } else {
                    let a = accpre[i];
                    let v = subseq[j - accpre.len()];
                    assert(acc@[i] == a && acc@[j] == v);
                    assert(v.digit_spec(rr - 1) == di);
                    if rev {
                        assert(a.digit_spec(rr - 1) >= nbuckets as int - m as int);
                    } else {
                        assert(a.digit_spec(rr - 1) < m as int);
                    }
                    assert(a.digit_spec(rr - 1) != v.digit_spec(rr - 1));
                }
            }
            // the newly covered bucket is now complete
            assert forall|q: Seq<int>|
                (#[trigger] inner_lookup(*inner, rr, q)).is_some() && (if rev {
                    q[0] >= nbuckets as int - (m + 1) as int
                } else {
                    q[0] < (m + 1) as int
                }) implies acc@.contains(inner_lookup(*inner, rr, q).unwrap()) by {
                let v = inner_lookup(*inner, rr, q).unwrap();
                if q[0] == di {
                    assert(node_lookup(ch, rr - 1, q.skip(1)).is_some());
                    assert(subseq.contains(node_lookup(ch, rr - 1, q.skip(1)).unwrap()));
                    let w = choose|w: int| 0 <= w < subseq.len() && subseq[w] == v;
                    assert(acc@[accpre.len() + w] == v);
                } else {
                    assert(accpre.contains(v));
                    let w = choose|w: int| 0 <= w < accpre.len() && accpre[w] == v;
                    assert(acc@[w] == v);
                }
            }
        }
        m += 1;
    }
    proof {
        assert forall|q: Seq<int>| (#[trigger] inner_lookup(*inner, rr, q)).is_some()
            implies acc@.contains(inner_lookup(*inner, rr, q).unwrap()) by {
            assert(0 <= q[0] < nbuckets as int);
        }
    }
    acc
}

/// An insert-and-iterate ordered container over the digit codec of `T`:
/// one stored value per full digit path, held with path compression.
pub struct RdxTree<T: Rdx + Copy> {
    root: Node<T>,
}

impl<T: Rdx + Copy> RdxTree<T> {
    /// The container invariant: a well-formed root-level inner node whose
    /// stored values each sit under their own digit path.
    pub closed spec fn wf(self) -> bool {
        &&& node_wf(self.root, T::nrounds_spec())
        &&& node_paths_ok(self.root, T::nrounds_spec())
        &&& self.root is Inner
        &&& T::nrounds_spec() <= usize::MAX as int
    }

    /// The stored value under a full digit path, if any.
    pub closed spec fn lookup(self, p: Seq<int>) -> Option<T> {
        node_lookup(self.root, T::nrounds_spec(), p)
    }

    /// An empty trie: a root inner node with every slot free.
    pub fn new() -> (t: RdxTree<T>)
        requires
            1 <= T::nrounds_spec(),
            T::nrounds_spec() <= usize::MAX as int,
        ensures
            t.wf(),
            forall|p: Seq<int>| t.lookup(p) == None::<T>,
            t.counts_spec() == (1nat, 0nat, 0nat, T::nbuckets_spec() as nat),
    {
        let rounds = T::cfg_nrounds();
        let buckets = T::cfg_nbuckets();
        let root_inner = NodeInner::new(rounds, buckets);
        let t = RdxTree { root: Node::Inner(Box::new(root_inner)) };
        proof {
            assert(node_wf(t.root, T::nrounds_spec()));
            assert forall|p: Seq<int>| t.lookup(p) == None::<T> by {
                assert(node_lookup(t.root, T::nrounds_spec(), p) == inner_lookup(
                    root_inner,
                    T::nrounds_spec(),
                    p,
                ));
            }
            assert forall|q: Seq<int>| !(#[trigger] node_lookup(
                t.root,
                T::nrounds_spec(),
                q,
            )).is_some() by {
                assert(node_lookup(t.root, T::nrounds_spec(), q) == inner_lookup(
                    root_inner,
                    T::nrounds_spec(),
                    q,
                ));
            }
        }
        t
    }

    /// Stores `x` under its digit path.  A value already stored under the
    /// same path is overwritten — the container is keyed by digit path —
    /// and every other path keeps its content.
    pub fn insert(&mut self, x: T)
        requires
            old(self).wf(),
            x.supported(),
        ensures
            final(self).wf(),
            final(self).lookup(suffix_path(x, T::nrounds_spec())) == Some(x),
            forall|p: Seq<int>|
                p != suffix_path(x, T::nrounds_spec()) ==> final(self).lookup(p) == old(
                    self,
                ).lookup(p),
            // overwriting a stored path reuses the structure; a fresh path
            // adds exactly one stored value
            old(self).lookup(suffix_path(x, T::nrounds_spec())).is_some() ==> final(self).counts_spec()
                == old(self).counts_spec(),
            !old(self).lookup(suffix_path(x, T::nrounds_spec())).is_some() ==> final(self).counts_spec().2
                == old(self).counts_spec().2 + 1,
    {
        let ghost oldroot = self.root;
        let mut taken = Node::Free;
        core::mem::swap(&mut taken, &mut self.root);
        match taken {
            Node::Inner(bx) => {
                let inner = *bx;
                proof {
                    assert(inner_wf(inner, T::nrounds_spec()));
                }
                let inner2 = inner.insert(x);
                self.root = Node::Inner(Box::new(inner2));
                proof {
                    let rr = T::nrounds_spec();
                    let path = suffix_path(x, rr);
                    assert(node_lookup(self.root, rr, path) == inner_lookup(inner2, rr, path));
                    assert forall|q: Seq<int>| q != path implies node_lookup(self.root, rr, q)
                        == node_lookup(oldroot, rr, q) by {
                        assert(node_lookup(self.root, rr, q) == inner_lookup(inner2, rr, q));
                        assert(node_lookup(oldroot, rr, q) == inner_lookup(inner, rr, q));
                    }
                    assert forall|q: Seq<int>| (#[trigger] node_lookup(self.root, rr, q)).is_some()
                        implies q == suffix_path(node_lookup(self.root, rr, q).unwrap(), rr) by {
                        if q != path {
                            assert(node_lookup(self.root, rr, q) == node_lookup(oldroot, rr, q));
                        }
                    }
                    assert(node_lookup(oldroot, rr, path) == inner_lookup(inner, rr, path));
                    assert(node_counts(oldroot) == inner_counts(inner));
                    assert(node_counts(self.root) == inner_counts(inner2));
                }
            },
            _ => {
                let _: () = unreached();
            },
        }
    }

    /// Counts the (inner, pruned, child, free) nodes of the whole
    /// structure, clamping each count at the machine word.
    pub fn nnodes(&self) -> (r: (usize, usize, usize, usize))
        requires
            self.wf(),
        ensures
            r.0 as int == sat_count(self.counts_spec().0),
            r.1 as int == sat_count(self.counts_spec().1),
            r.2 as int == sat_count(self.counts_spec().2),
            r.3 as int == sat_count(self.counts_spec().3),
    {
        match &self.root {
            Node::Inner(inner) => inner.nnodes(),
            _ => unreached(),
        }
    }

    /// The (inner, pruned, child, free) node counts of the structure.
    pub closed spec fn counts_spec(self) -> (nat, nat, nat, nat) {
        node_counts(self.root)
    }

    /// A pass over the stored values in ascending order: every stored
    /// value exactly once, strictly ascending under the digit-defined
    /// order.  The iterator only reads the container; a new one starts
    /// from the beginning again.
    pub fn iter(&self) -> (it: RdxTreeIter<T>)
        requires
            self.wf(),
        ensures
            it.wf(),
            it.at() == 0,
            forall|i: int|
                0 <= i < it.items().len() ==> self.lookup(
                    suffix_path(#[trigger] it.items()[i], T::nrounds_spec()),
                ) == Some(it.items()[i]),
            forall|q: Seq<int>|
                (#[trigger] self.lookup(q)).is_some() ==> it.items().contains(
                    self.lookup(q).unwrap(),
                ),
            forall|i: int, j: int|
                #![trigger it.items()[i], it.items()[j]]
                0 <= i < j < it.items().len() ==> rdx_lt(it.items()[i], it.items()[j]),
    {
        let ghost rr = T::nrounds_spec();
        let rounds = T::cfg_nrounds();
        let values: Vec<T> = match &self.root {
            Node::Inner(bx) => {
                proof {
                    assert forall|q: Seq<int>| (#[trigger] inner_lookup(**bx, rr, q)).is_some()
                        implies q == suffix_path(inner_lookup(**bx, rr, q).unwrap(), rr) by {
                        assert(node_lookup(self.root, rr, q) == inner_lookup(**bx, rr, q));
                    }
                }
                let vs = inner_collect(&**bx, rounds, false);
                proof {
                    assert forall|q: Seq<int>| (#[trigger] node_lookup(self.root, rr, q)).is_some()
                        implies vs@.contains(node_lookup(self.root, rr, q).unwrap()) by {
                        assert(node_lookup(self.root, rr, q) == inner_lookup(**bx, rr, q));
                    }
                    assert forall|i: int, j: int|
                        #![trigger vs@[i], vs@[j]]
                        0 <= i < j < vs@.len() implies rdx_lt(vs@[i], vs@[j]) by {
                        let v = vs@[i];
                        let w = vs@[j];
                        assert(le_from(v, w, rr, false) && v != w);
                        if le_from(w, v, rr, false) {
                            lemma_le_from_antisym_digits(v, w, rr, false);
                            v.lemma_digits_injective(w);
                        }
                    }
                }
                vs
            },
            _ => unreached(),
        };
        RdxTreeIter { values, pos: 0 }
    }
}

/// Structural accounting of a well-formed trie.  Every inner node
/// provides `nbuckets` slots and every compressed node exactly one;
/// every node below the root fills exactly one slot and the free slots
/// fill the rest.  The compressed nodes cancel out, so the free count is
/// determined by the inner and child counts alone:
/// `free == inner * (nbuckets - 1) + 1 - child`, stated here without
/// subtraction, together with the root inner node always being counted.
pub proof fn lemma_counts_accounting<T: Rdx + Copy>(t: RdxTree<T>)
    requires
        t.wf(),
    ensures
        t.counts_spec().0 * T::nbuckets_spec() + 1 == t.counts_spec().0 + t.counts_spec().2
            + t.counts_spec().3,
        t.counts_spec().0 >= 1,
{
    lemma_node_accounting(t.root, T::nrounds_spec());
    let bx = t.root->Inner_0;
    assert(node_counts(t.root) == inner_counts(*bx));
}

/// A finite, non-restartable pass over the values of one `RdxTree`, in
/// ascending order of the stored values.
pub struct RdxTreeIter<T: Rdx + Copy> {
    values: Vec<T>,
    pos: usize,
}

impl<T: Rdx + Copy> RdxTreeIter<T> {
    /// The values this pass yields, first to last.
    pub closed spec fn items(self) -> Seq<T> {
        self.values@
    }

    /// How many values have been yielded already.
    pub closed spec fn at(self) -> int {
        self.pos as int
    }

    /// The cursor never runs past the end.
    pub closed spec fn wf(self) -> bool {
        self.pos as int <= self.values@.len()
    }

    /// Yields the next stored value, or nothing once the pass is done.
    pub fn next(&mut self) -> (r: Option<T>)
        requires
            old(self).wf(),
        ensures
            final(self).wf(),
            final(self).items() == old(self).items(),
            old(self).at() < old(self).items().len() ==> r == Some(
                old(self).items()[old(self).at()],
            ) && final(self).at() == old(self).at() + 1,
            old(self).at() >= old(self).items().len() ==> r is None && final(self).at() == old(
                self,
            ).at(),
    {
        if self.pos < self.values.len() {
            let x = self.values[self.pos];
            self.pos = self.pos + 1;
            Some(x)
        } else {
            None
        }
    }
}

} // verus!
