//! An `O(log n)` range-fingerprint index over an [`ItemSource`].
//!
//! Each leaf accumulates one item's identity and each internal node is the merge
//! of its children, so a range fold touches `O(log n)` nodes. That is sound only
//! because [`Accumulator::merge`] is associative *and* commutative, which lets
//! the fold visit nodes in whatever order the iterative walk reaches them.
//!
//! The tree is built once per session in `O(n)` and then answers every range
//! query in the session's many rounds in `O(log n)`.
use crate::reconcile::engine::rbsr::fingerprint;
use crate::reconcile::engine::rbsr::fingerprint::{Accumulator, Fingerprint};
use crate::reconcile::error::ReconcileError;
use crate::reconcile::source;
use crate::reconcile::source::{Bound, ItemSource};
use vstd::prelude::*;

verus! {

/// The sum of the nodes in `[a, b)`.
spec fn sum_in(nodes: Seq<Accumulator>, a: int, b: int) -> int
    decreases b - a,
{
    if b <= a {
        0
    } else {
        sum_in(nodes, a, b - 1) + nodes[b - 1]@.sum
    }
}

/// The number of identities under the nodes in `[a, b)`.
spec fn count_in(nodes: Seq<Accumulator>, a: int, b: int) -> int
    decreases b - a,
{
    if b <= a {
        0
    } else {
        count_in(nodes, a, b - 1) + nodes[b - 1]@.count
    }
}

/// Whether an internal node is the merge of its two children.
spec fn merges_children(nodes: Seq<Accumulator>, i: int) -> bool {
    nodes[i]@ == fingerprint::merged(nodes[2 * i]@, nodes[2 * i + 1]@)
}

/// Whether the leaves hold one identity each.
spec fn leaves_hold(nodes: Seq<Accumulator>, ids: Seq<Seq<u8>>) -> bool {
    forall|i: int|
        0 <= i < ids.len() ==> (#[trigger] nodes[ids.len() + i])@ == fingerprint::holding(
            seq![ids[i]],
        )
}

/// Taking a node off the front of a range.
proof fn lemma_split_front(nodes: Seq<Accumulator>, a: int, b: int)
    requires
        a < b,
    ensures
        sum_in(nodes, a, b) == nodes[a]@.sum + sum_in(nodes, a + 1, b),
        count_in(nodes, a, b) == nodes[a]@.count + count_in(nodes, a + 1, b),
    decreases b - a,
{
    reveal_with_fuel(sum_in, 2);
    reveal_with_fuel(count_in, 2);
    if a + 1 < b {
        lemma_split_front(nodes, a, b - 1);
    }
}

/// A range of nodes holds what the range of their parents holds.
proof fn lemma_parents(nodes: Seq<Accumulator>, a: int, b: int)
    requires
        0 <= a <= b,
        forall|i: int| a <= i < b ==> #[trigger] merges_children(nodes, i),
    ensures
        sum_in(nodes, 2 * a, 2 * b) % fingerprint::digest_modulus() as int == sum_in(nodes, a, b)
            % fingerprint::digest_modulus() as int,
        count_in(nodes, 2 * a, 2 * b) == count_in(nodes, a, b),
    decreases b - a,
{
    if a < b {
        lemma_parents(nodes, a, b - 1);
        assert(merges_children(nodes, b - 1));
        reveal_with_fuel(sum_in, 3);
        reveal_with_fuel(count_in, 3);
        assert(sum_in(nodes, 2 * a, 2 * b) == sum_in(nodes, 2 * a, 2 * (b - 1)) + nodes[2 * b
            - 2]@.sum + nodes[2 * b - 1]@.sum);
    }
}

/// Changing a node outside a range does not change what the range holds.
proof fn lemma_update_outside(nodes: Seq<Accumulator>, i: int, node: Accumulator, a: int, b: int)
    requires
        0 <= i < nodes.len(),
        0 <= a,
        b <= nodes.len(),
        i < a || i >= b,
    ensures
        sum_in(nodes.update(i, node), a, b) == sum_in(nodes, a, b),
        count_in(nodes.update(i, node), a, b) == count_in(nodes, a, b),
    decreases b - a,
{
    if a < b {
        lemma_update_outside(nodes, i, node, a, b - 1);
    }
}

/// Adding a term to a reduced sum and to what is left of it comes to the same.
proof fn lemma_absorb(s: int, n: int, rest: int, m: int)
    requires
        m > 0,
    ensures
        ((s + n) % m + rest) % m == (s + (n + rest)) % m,
{
    vstd::arithmetic::div_mod::lemma_add_mod_noop_right(rest, s + n, m);
}

/// Congruent terms may stand for each other in a sum.
proof fn lemma_congruent(s: int, x: int, y: int, m: int)
    requires
        m > 0,
        x % m == y % m,
    ensures
        (s + x) % m == (s + y) % m,
{
    vstd::arithmetic::div_mod::lemma_add_mod_noop_right(s, x, m);
    vstd::arithmetic::div_mod::lemma_add_mod_noop_right(s, y, m);
}

/// Counts are not negative.
proof fn lemma_count_nonnegative(nodes: Seq<Accumulator>, a: int, b: int)
    ensures
        count_in(nodes, a, b) >= 0,
        sum_in(nodes, a, b) >= 0,
    decreases b - a,
{
    if a < b {
        lemma_count_nonnegative(nodes, a, b - 1);
    }
}

/// A range of leaves holds the identities they were built from.
proof fn lemma_leaves(nodes: Seq<Accumulator>, ids: Seq<Seq<u8>>, lo: int, hi: int)
    requires
        0 <= lo <= hi <= ids.len(),
        leaves_hold(nodes, ids),
    ensures
        sum_in(nodes, ids.len() + lo, ids.len() + hi) % fingerprint::digest_modulus() as int
            == fingerprint::id_total(ids.subrange(lo, hi)) % fingerprint::digest_modulus(),
        count_in(nodes, ids.len() + lo, ids.len() + hi) == hi - lo,
    decreases hi - lo,
{
    if lo < hi {
        lemma_leaves(nodes, ids, lo, hi - 1);
        assert(ids.subrange(lo, hi).drop_last() =~= ids.subrange(lo, hi - 1));
        let leaf = nodes[ids.len() + (hi - 1)];
        assert(leaf@ == fingerprint::holding(seq![ids[hi - 1]]));
        assert(seq![ids[hi - 1]].drop_last() =~= Seq::<Seq<u8>>::empty());
        assert(fingerprint::id_total(seq![ids[hi - 1]]) == fingerprint::id_value(ids[hi - 1])) by {
            reveal_with_fuel(fingerprint::id_total, 2);
        }
    } else {
        assert(ids.subrange(lo, hi) =~= Seq::<Seq<u8>>::empty());
    }
}

/// A sealed fingerprint index over a sealed [`ItemSource`].
pub struct SegmentTree<S: ItemSource> {
    source: S,
    /// One-indexed iterative segment tree: leaf `i` lives at `size + i`, and
    /// internal node `i` is `merge(node 2i, node 2i+1)`.
    nodes: Vec<Accumulator>,
    size: usize,
}

impl<S: ItemSource> SegmentTree<S> {
    /// The sort keys of the indexed source.
    pub closed spec fn keys(&self) -> Seq<Seq<u8>> {
        self.source.keys()
    }

    /// The identities of the indexed source.
    pub closed spec fn ids(&self) -> Seq<Seq<u8>> {
        self.source.ids()
    }

    /// Whether the leaves hold the source's identities, and every internal node
    /// the merge of its children.
    pub closed spec fn nodes_hold(&self) -> bool {
        &&& self.size == self.source.ids().len()
        &&& self.size > 0 ==> self.nodes@.len() == 2 * self.size
        &&& self.size > 0 ==> leaves_hold(self.nodes@, self.source.ids())
        &&& forall|i: int| 1 <= i < self.size ==> #[trigger] merges_children(self.nodes@, i)
    }

    /// Whether the index is well formed over a sealed source.
    pub open spec fn wf(&self) -> bool {
        &&& source::sealed(self.keys(), self.ids())
        &&& 2 * self.ids().len() <= usize::MAX
        &&& self.nodes_hold()
    }

    /// Builds the accumulator tree over the source in `O(n)`.
    pub fn build(source: S) -> (tree: Self)
        requires
            2 * source.keys().len() <= usize::MAX,
        ensures
            tree.wf(),
            tree.keys() == source.keys(),
            tree.ids() == source.ids(),
    {
        let size: usize = source.len();
        if size == 0 {
            return SegmentTree { source, nodes: Vec::new(), size };
        }
        let ghost ids = source.ids();
        let mut nodes: Vec<Accumulator> = Vec::with_capacity(2 * size);
        let mut i: usize = 0;
        while i < size
            invariant
                i <= size,
                nodes@.len() == i,
            decreases size - i,
        {
            nodes.push(Accumulator::default());
            i = i + 1;
        }
        let mut leaf: usize = 0;
        while leaf < size
            invariant
                leaf <= size,
                size == source.keys().len(),
                2 * size <= usize::MAX,
                source::sealed(source.keys(), source.ids()),
                ids == source.ids(),
                nodes@.len() == size + leaf,
                forall|k: int|
                    0 <= k < leaf ==> (#[trigger] nodes@[size + k])@ == fingerprint::holding(
                        seq![ids[k]],
                    ),
            decreases size - leaf,
        {
            let mut node = Accumulator::default();
            node.add(source.id(leaf));
            proof {
                let one = seq![ids[leaf as int]];
                assert(one.drop_last() =~= Seq::<Seq<u8>>::empty());
                reveal_with_fuel(fingerprint::id_total, 2);
                assert(fingerprint::id_total(one) == fingerprint::id_value(ids[leaf as int]));
                assert(node@ == fingerprint::holding(one));
            }
            nodes.push(node);
            leaf = leaf + 1;
        }
        proof {
            assert(leaves_hold(nodes@, ids));
            lemma_leaves(nodes@, ids, 0, size as int);
        }
        let mut index: usize = size;
        while index > 1
            invariant
                1 <= index <= size,
                size == ids.len(),
                2 * size <= usize::MAX,
                nodes@.len() == 2 * size,
                leaves_hold(nodes@, ids),
                forall|k: int| index <= k < size ==> #[trigger] merges_children(nodes@, k),
                count_in(nodes@, index as int, 2 * index) == size,
            decreases index,
        {
            index = index - 1;
            let ghost before = nodes@;
            let mut node = nodes[2 * index];
            proof {
                lemma_split_front_pair(before, index as int);
                lemma_count_nonnegative(before, index + 1, 2 * index);
            }
            node.merge(&nodes[2 * index + 1]);
            nodes.set(index, node);
            proof {
                lemma_update_outside(before, index as int, node, index + 1, 2 * index);
                lemma_split_front(nodes@, index as int, 2 * index);
                assert forall|k: int| index <= k < size implies #[trigger] merges_children(
                    nodes@,
                    k,
                ) by {
                    if k > index {
                        assert(merges_children(before, k));
                    }
                }
                assert forall|k: int| 0 <= k < ids.len() implies (#[trigger] nodes@[ids.len() + k])@
                    == fingerprint::holding(seq![ids[k]]) by {
                    assert(nodes@[ids.len() + k] == before[ids.len() + k]);
                }
            }
        }
        SegmentTree { source, nodes, size }
    }

    /// The indexed source.
    pub fn source(&self) -> (source: &S)
        ensures
            source.keys() == self.keys(),
            source.ids() == self.ids(),
    {
        &self.source
    }

    /// Number of indexed items.
    pub fn len(&self) -> (n: usize)
        requires
            self.wf(),
        ensures
            n == self.ids().len(),
    {
        self.size
    }

    /// Whether the indexed source is empty.
    pub fn is_empty(&self) -> (r: bool)
        requires
            self.wf(),
        ensures
            r == (self.ids().len() == 0),
    {
        self.size == 0
    }

    /// Maps a `[lo, hi)` bound pair onto a half-open index window.
    ///
    /// Both peers run this over the same bounds, which is why split boundaries
    /// must land on real item sort keys. Fails on an inverted pair, whether or not
    /// any item lies between its bounds.
    pub fn window(&self, lo: &Bound, hi: &Bound) -> (r: Result<(usize, usize), ReconcileError>)
        requires
            self.wf(),
        ensures
            match r {
                Ok((start, end)) => {
                    &&& !source::bound_lt(hi@, lo@)
                    &&& start == source::seek_index(self.keys(), lo@)
                    &&& end == source::seek_index(self.keys(), hi@)
                    &&& start <= end <= self.ids().len()
                },
                Err(error) => {
                    &&& source::bound_lt(hi@, lo@)
                    &&& error == ReconcileError::MalformedBound
                },
            },
    {
        if hi.precedes(lo) {
            return Err(ReconcileError::MalformedBound);
        }
        let start: usize = self.source.seek(lo);
        let end: usize = self.source.seek(hi);
        proof {
            source::lemma_seek_monotonic(self.keys(), lo@, hi@);
        }
        Ok((start, end))
    }

    /// Summarizes the items in the half-open index range `[lo, hi)`.
    pub fn fingerprint(&self, lo: usize, hi: usize) -> (fingerprint: Fingerprint)
        requires
            self.wf(),
            lo < hi ==> hi <= self.ids().len(),
        ensures
            fingerprint@ == fingerprint::fingerprint_of(
                if lo < hi {
                    self.ids().subrange(lo as int, hi as int)
                } else {
                    Seq::empty()
                },
            ),
    {
        self.accumulate(lo, hi).finalize()
    }

    /// The combinable partial state for `[lo, hi)`, folded from `O(log n)` cached
    /// nodes.
    pub fn accumulate(&self, lo: usize, hi: usize) -> (acc: Accumulator)
        requires
            self.wf(),
            lo < hi ==> hi <= self.ids().len(),
        ensures
            acc@ == fingerprint::holding(
                if lo < hi {
                    self.ids().subrange(lo as int, hi as int)
                } else {
                    Seq::empty()
                },
            ),
    {
        let mut acc = Accumulator::default();
        if lo >= hi || self.size == 0 {
            return acc;
        }
        let mut left: usize = lo + self.size;
        let mut right: usize = hi + self.size;
        let ghost nodes = self.nodes@;
        let ghost ids = self.source.ids();
        let ghost m = fingerprint::digest_modulus() as int;
        proof {
            lemma_leaves(nodes, ids, lo as int, hi as int);
            assert(acc@.sum == 0);
        }
        while left < right
            invariant
                nodes == self.nodes@,
                ids == self.source.ids(),
                self.size == ids.len(),
                2 * self.size <= usize::MAX,
                nodes.len() == 2 * self.size,
                m == fingerprint::digest_modulus(),
                forall|i: int| 1 <= i < self.size ==> #[trigger] merges_children(nodes, i),
                1 <= left <= right <= 2 * self.size,
                lo < hi <= ids.len(),
                acc@.sum < m,
                (acc@.sum + sum_in(nodes, left as int, right as int)) % m == fingerprint::id_total(
                    ids.subrange(lo as int, hi as int),
                ) % fingerprint::digest_modulus(),
                acc@.count + count_in(nodes, left as int, right as int) == hi - lo,
            decreases right - left,
        {
            proof {
                lemma_split_front(nodes, left as int, right as int);
                lemma_count_nonnegative(nodes, left + 1, right as int);
                lemma_absorb(
                    acc@.sum as int,
                    nodes[left as int]@.sum as int,
                    sum_in(nodes, left + 1, right as int),
                    m,
                );
            }
            if left % 2 == 1 {
                acc.merge(&self.nodes[left]);
                left = left + 1;
            }
            proof {
                if left < right {
                    lemma_count_nonnegative(nodes, left as int, right - 1);
                    lemma_absorb(
                        acc@.sum as int,
                        nodes[right - 1]@.sum as int,
                        sum_in(nodes, left as int, right - 1),
                        m,
                    );
                }
            }
            if right % 2 == 1 {
                right = right - 1;
                acc.merge(&self.nodes[right]);
            }
            proof {
                let a = left as int / 2;
                let b = right as int / 2;
                assert(2 * a == left && 2 * b == right);
                lemma_parents(nodes, a, b);
                lemma_congruent(
                    acc@.sum as int,
                    sum_in(nodes, left as int, right as int),
                    sum_in(nodes, a, b),
                    m,
                );
            }
            left = left / 2;
            right = right / 2;
        }
        acc
    }
}

/// The two children of a node stand at the end of the frontier below it.
proof fn lemma_split_front_pair(nodes: Seq<Accumulator>, i: int)
    requires
        1 <= i,
    ensures
        count_in(nodes, i + 1, 2 * (i + 1)) == count_in(nodes, i + 1, 2 * i) + nodes[2 * i]@.count
            + nodes[2 * i + 1]@.count,
{
    reveal_with_fuel(count_in, 3);
}

} // verus!
