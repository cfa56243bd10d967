//! Duplicate-free lists, compared as the sets they hold.
use vstd::prelude::*;

verus! {

/// Filtering keeps exactly the elements that satisfy the predicate, and
/// introduces no duplicates.
pub proof fn lemma_filter<A>(s: Seq<A>, keep: spec_fn(A) -> bool)
    ensures
        forall|x: A| #[trigger] s.filter(keep).contains(x) <==> s.contains(x) && keep(x),
        s.no_duplicates() ==> s.filter(keep).no_duplicates(),
        s.filter(keep).len() <= s.len(),
    decreases s.len(),
{
    reveal(Seq::filter);
    if s.len() > 0 {
        let rest = s.drop_last();
        let kept = rest.filter(keep);
        let all = s.filter(keep);
        lemma_filter(rest, keep);
        assert forall|x: A| #[trigger] all.contains(x) <==> s.contains(x) && keep(x) by {
            if all.contains(x) {
                let k = choose|k: int| 0 <= k < all.len() && all[k] == x;
                if k < kept.len() {
                    assert(kept[k] == x);
                    assert(kept.contains(x));
                    let j = choose|j: int| 0 <= j < rest.len() && rest[j] == x;
                    assert(s[j] == x);
                } else {
                    assert(s[s.len() - 1] == x);
                }
            }
            if s.contains(x) && keep(x) {
                let j = choose|j: int| 0 <= j < s.len() && s[j] == x;
                if j < rest.len() {
                    assert(rest[j] == x);
                    assert(kept.contains(x));
                    let k = choose|k: int| 0 <= k < kept.len() && kept[k] == x;
                    assert(all[k] == x);
                } else {
                    assert(all[kept.len() as int] == x);
                }
            }
        }
        if s.no_duplicates() {
            assert(rest.no_duplicates());
            if keep(s.last()) {
                assert(!kept.contains(s.last())) by {
                    if rest.contains(s.last()) {
                        let j = choose|j: int| 0 <= j < rest.len() && rest[j] == s.last();
                        assert(s[j] == s[s.len() - 1]);
                    }
                }
                assert forall|i: int, j: int| 0 <= i < j < all.len() implies all[i] != all[j] by {
                    assert(all[i] == kept[i]);
                    if j < kept.len() {
                        assert(all[j] == kept[j]);
                    } else {
                        assert(kept.contains(all[i]));
                    }
                }
            }
        }
    } else {
        assert(s.filter(keep) =~= s);
    }
}

/// A duplicate-free list holds each of its elements once.
pub proof fn lemma_count<A>(s: Seq<A>, x: A)
    requires
        s.no_duplicates(),
    ensures
        s.to_multiset().count(x) == if s.contains(x) {
            1nat
        } else {
            0nat
        },
{
    broadcast use vstd::seq_lib::group_to_multiset_ensures;

    s.lemma_multiset_has_no_duplicates();
    if s.contains(x) {
        assert(s.to_multiset().contains(x));
    } else {
        assert(!s.to_multiset().contains(x));
    }
}

/// A duplicate-free list drawn from another is no longer than it.
pub proof fn lemma_sublist_len<A>(a: Seq<A>, s: Seq<A>)
    requires
        a.no_duplicates(),
        forall|x: A| a.contains(x) ==> s.contains(x),
    ensures
        a.len() <= s.len(),
{
    vstd::seq_lib::seq_to_set_is_finite(a);
    vstd::seq_lib::seq_to_set_is_finite(s);
    a.unique_seq_to_set();
    s.lemma_cardinality_of_set();
    assert(a.to_set().subset_of(s.to_set()));
    vstd::set_lib::lemma_len_subset(a.to_set(), s.to_set());
}

/// Appending an element that is not there keeps a list duplicate-free.
pub proof fn lemma_push<A>(s: Seq<A>, x: A)
    ensures
        s.no_duplicates() && !s.contains(x) ==> s.push(x).no_duplicates(),
        forall|y: A| #[trigger] s.push(x).contains(y) <==> s.contains(y) || y == x,
{
    let t = s.push(x);
    assert forall|y: A| #[trigger] t.contains(y) <==> s.contains(y) || y == x by {
        if s.contains(y) {
            let k = choose|k: int| 0 <= k < s.len() && s[k] == y;
            assert(t[k] == y);
        }
        if y == x {
            assert(t[s.len() as int] == y);
        }
        if t.contains(y) && y != x {
            let k = choose|k: int| 0 <= k < t.len() && t[k] == y;
            assert(s[k] == y);
        }
    }
    if s.no_duplicates() && !s.contains(x) {
        assert forall|i: int, j: int| 0 <= i < j < t.len() implies t[i] != t[j] by {
            if j == s.len() {
                assert(s.contains(s[i]));
            }
        }
    }
}

} // verus!
