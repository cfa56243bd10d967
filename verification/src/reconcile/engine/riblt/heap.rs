//! A min-heap of stream positions, each paired with the source due there.
use vstd::multiset::Multiset;
use vstd::prelude::*;

verus! {

/// The order entries leave the heap in: by position, then by source.
pub open spec fn entry_le(a: (u64, usize), b: (u64, usize)) -> bool {
    a.0 < b.0 || (a.0 == b.0 && a.1 <= b.1)
}

/// Whether the entry at `p` is not below its parent.
spec fn above_parent(s: Seq<(u64, usize)>, p: int) -> bool {
    entry_le(s[(p - 1) / 2], s[p])
}

/// Whether the array is a binary min-heap.
spec fn heap_ordered(s: Seq<(u64, usize)>) -> bool {
    forall|p: int| 0 < p < s.len() ==> #[trigger] above_parent(s, p)
}

/// The root of a heap is its least entry.
proof fn lemma_root_is_least(s: Seq<(u64, usize)>, p: int)
    requires
        heap_ordered(s),
        0 <= p < s.len(),
    ensures
        entry_le(s[0], s[p]),
    decreases p,
{
    if p > 0 {
        assert(above_parent(s, p));
        lemma_root_is_least(s, (p - 1) / 2);
    }
}

/// Exchanging two entries keeps the contents.
proof fn lemma_swap_keeps_contents(s: Seq<(u64, usize)>, i: int, j: int)
    requires
        0 <= i < s.len(),
        0 <= j < s.len(),
    ensures
        s.update(i, s[j]).update(j, s[i]).to_multiset() == s.to_multiset(),
{
    broadcast use vstd::seq_lib::group_to_multiset_ensures;

    vstd::seq_lib::to_multiset_update(s, i, s[j]);
    let t = s.update(i, s[j]);
    vstd::seq_lib::to_multiset_update(t, j, s[i]);
    assert(s.contains(s[i]));
    assert(t.update(j, s[i]).to_multiset() =~= s.to_multiset());
}

/// A binary min-heap of `(position, source)` entries.
pub struct MinHeap {
    entries: Vec<(u64, usize)>,
}

impl View for MinHeap {
    type V = Multiset<(u64, usize)>;

    closed spec fn view(&self) -> Multiset<(u64, usize)> {
        self.entries@.to_multiset()
    }
}

impl MinHeap {
    /// Whether the entries are in heap order.
    pub closed spec fn wf(&self) -> bool {
        heap_ordered(self.entries@)
    }

    /// An empty heap.
    pub fn new() -> (heap: Self)
        ensures
            heap.wf(),
            heap@ == Multiset::<(u64, usize)>::empty(),
    {
        broadcast use vstd::seq_lib::group_to_multiset_ensures;

        let heap = MinHeap { entries: Vec::new() };
        assert(heap@ =~= Multiset::<(u64, usize)>::empty());
        heap
    }

    /// The least entry, if there is one.
    pub fn peek(&self) -> (top: Option<(u64, usize)>)
        requires
            self.wf(),
        ensures
            top is None <==> self@ == Multiset::<(u64, usize)>::empty(),
            top matches Some(least) ==> {
                &&& self@.contains(least)
                &&& forall|e: (u64, usize)| #[trigger] self@.contains(e) ==> entry_le(least, e)
            },
    {
        broadcast use vstd::seq_lib::group_to_multiset_ensures;

        if self.entries.len() == 0 {
            assert(self@ =~= Multiset::<(u64, usize)>::empty());
            return None;
        }
        let least = self.entries[0];
        proof {
            assert(self.entries@.contains(self.entries@[0]));
            assert(self@.count(least) > 0);
            assert forall|e: (u64, usize)| #[trigger] self@.contains(e) implies entry_le(least, e) by {
                assert(self.entries@.contains(e));
                let p = choose|p: int| 0 <= p < self.entries@.len() && self.entries@[p] == e;
                lemma_root_is_least(self.entries@, p);
            }
        }
        Some(least)
    }

    /// Adds an entry.
    pub fn push(&mut self, entry: (u64, usize))
        requires
            old(self).wf(),
        ensures
            final(self).wf(),
            final(self)@ == old(self)@.insert(entry),
    {
        broadcast use vstd::seq_lib::group_to_multiset_ensures;

        let ghost before = self.entries@;
        self.entries.push(entry);
        let mut i: usize = self.entries.len() - 1;
        proof {
            assert forall|p: int| 0 < p < self.entries@.len() && p != i implies #[trigger] above_parent(
                self.entries@,
                p,
            ) by {
                assert(above_parent(before, p));
            }
        }
        while i > 0
            invariant
                i < self.entries@.len(),
                self.entries@.to_multiset() == before.to_multiset().insert(entry),
                forall|p: int|
                    0 < p < self.entries@.len() && p != i ==> #[trigger] above_parent(
                        self.entries@,
                        p,
                    ),
                forall|p: int|
                    0 < p < self.entries@.len() && (p - 1) / 2 == i && i > 0 ==> entry_le(
                        self.entries@[(i - 1) / 2],
                        #[trigger] self.entries@[p],
                    ),
            ensures
                heap_ordered(self.entries@),
            decreases i,
        {
            let parent: usize = (i - 1) / 2;
            let upper = self.entries[parent];
            let lower = self.entries[i];
            if upper.0 < lower.0 || (upper.0 == lower.0 && upper.1 <= lower.1) {
                proof {
                    assert(above_parent(self.entries@, i as int));
                }
                break;
            }
            let ghost s = self.entries@;
            self.entries.set(i, upper);
            self.entries.set(parent, lower);
            proof {
                lemma_swap_keeps_contents(s, i as int, parent as int);
                let t = self.entries@;
                assert(t =~= s.update(i as int, s[parent as int]).update(parent as int, s[i as int]));
                assert forall|p: int| 0 < p < t.len() && p != parent implies #[trigger] above_parent(
                    t,
                    p,
                ) by {
                    if p != i {
                        assert(above_parent(s, p));
                        if (p - 1) / 2 == i {
                            assert(entry_le(s[(i - 1) / 2], s[p]));
                        }
                    }
                }
                assert forall|p: int|
                    0 < p < t.len() && (p - 1) / 2 == parent && parent > 0 implies entry_le(
                    t[(parent - 1) / 2],
                    #[trigger] t[p],
                ) by {
                    assert(above_parent(s, parent as int));
                    if p != i {
                        assert(above_parent(s, p));
                    }
                }
            }
            i = parent;
        }
    }

    /// Replaces the least entry.
    pub fn replace_top(&mut self, entry: (u64, usize))
        requires
            old(self).wf(),
            old(self)@ != Multiset::<(u64, usize)>::empty(),
        ensures
            final(self).wf(),
            exists|least: (u64, usize)|
                {
                    &&& #[trigger] old(self)@.contains(least)
                    &&& forall|e: (u64, usize)| #[trigger] old(self)@.contains(e) ==> entry_le(least, e)
                    &&& final(self)@ == old(self)@.remove(least).insert(entry)
                },
    {
        broadcast use vstd::seq_lib::group_to_multiset_ensures;

        let ghost before = self.entries@;
        let ghost least = before[0];
        proof {
            if before.len() == 0 {
                assert(before.to_multiset() =~= Multiset::<(u64, usize)>::empty());
            }
            assert(before.contains(before[0]));
            assert forall|e: (u64, usize)| #[trigger] before.to_multiset().contains(e) implies entry_le(
                least,
                e,
            ) by {
                assert(before.contains(e));
                let p = choose|p: int| 0 <= p < before.len() && before[p] == e;
                lemma_root_is_least(before, p);
            }
        }
        self.entries.set(0, entry);
        let mut i: usize = 0;
        let len: usize = self.entries.len();
        proof {
            vstd::seq_lib::to_multiset_update(before, 0, entry);
            let s = self.entries@;
            assert forall|p: int| 0 < p < s.len() && (p - 1) / 2 != 0 implies #[trigger] above_parent(
                s,
                p,
            ) by {
                assert(above_parent(before, p));
            }
        }
        while i < len / 2
            invariant
                len == self.entries@.len(),
                i < len,
                self.entries@.to_multiset() == before.to_multiset().insert(entry).remove(least),
                forall|p: int|
                    0 < p < self.entries@.len() && (p - 1) / 2 != i ==> #[trigger] above_parent(
                        self.entries@,
                        p,
                    ),
                forall|p: int|
                    0 < p < self.entries@.len() && (p - 1) / 2 == i && i > 0 ==> entry_le(
                        self.entries@[(i - 1) / 2],
                        #[trigger] self.entries@[p],
                    ),
            ensures
                heap_ordered(self.entries@),
                self.entries@.to_multiset() == before.to_multiset().insert(entry).remove(least),
            decreases len - i,
        {
            let left: usize = 2 * i + 1;
            let mut child: usize = left;
            if left + 1 < len {
                let a = self.entries[left];
                let b = self.entries[left + 1];
                if b.0 < a.0 || (b.0 == a.0 && b.1 < a.1) {
                    child = left + 1;
                }
            }
            let upper = self.entries[i];
            let lower = self.entries[child];
            if upper.0 < lower.0 || (upper.0 == lower.0 && upper.1 <= lower.1) {
                proof {
                    let s = self.entries@;
                    assert forall|p: int| 0 < p < s.len() implies #[trigger] above_parent(s, p) by {
                        if (p - 1) / 2 == i {
                            assert(p == left || p == left + 1);
                        }
                    }
                }
                break;
            }
            let ghost s = self.entries@;
            self.entries.set(i, lower);
            self.entries.set(child, upper);
            proof {
                lemma_swap_keeps_contents(s, i as int, child as int);
                let t = self.entries@;
                assert(t =~= s.update(i as int, s[child as int]).update(child as int, s[i as int]));
                assert forall|p: int| 0 < p < t.len() && (p - 1) / 2 != child implies #[trigger] above_parent(
                    t,
                    p,
                ) by {
                    if (p - 1) / 2 == i {
                        assert(p == left || p == left + 1);
                    } else {
                        assert(above_parent(s, p));
                        if p == i {
                            assert(entry_le(s[(i - 1) / 2], s[child as int]));
                        }
                    }
                }
                assert forall|p: int| 0 < p < t.len() && (p - 1) / 2 == child implies entry_le(
                    t[(child - 1) / 2],
                    #[trigger] t[p],
                ) by {
                    assert(above_parent(s, p));
                }
            }
            i = child;
        }
        proof {
            if i >= len / 2 {
                let s = self.entries@;
                assert forall|p: int| 0 < p < s.len() implies #[trigger] above_parent(s, p) by {
                    assert((p - 1) / 2 != i || above_parent(s, p));
                }
            }
            assert(self@ =~= before.to_multiset().remove(least).insert(entry));
            assert(before.to_multiset().contains(least));
        }
    }
}

} // verus!
