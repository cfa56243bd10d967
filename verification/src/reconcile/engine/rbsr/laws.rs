//! What holds of a range-based session as a whole.
use crate::reconcile::bytes;
use crate::reconcile::engine;
use crate::reconcile::engine::rbsr::caps;
use crate::reconcile::engine::rbsr::engine as rbsr_engine;
use crate::reconcile::engine::rbsr::engine::{RbsrView, Role};
use crate::reconcile::engine::rbsr::fingerprint;
use crate::reconcile::engine::rbsr::initiator;
use crate::reconcile::engine::rbsr::message;
use crate::reconcile::engine::rbsr::message::{ModeView, RangeView};
use crate::reconcile::engine::rbsr::responder;
use crate::reconcile::engine::{DiffView, Progress};
use crate::reconcile::error::ReconcileError;
use crate::reconcile::lists;
use crate::reconcile::source;
use crate::reconcile::source::BoundView;
use vstd::multiset::Multiset;
use vstd::prelude::*;

verus! {

/// A local set: sort keys and the identities they belong to, index by index.
pub struct Holdings {
    /// The sort keys.
    pub keys: Seq<Seq<u8>>,
    /// The identities.
    pub ids: Seq<Seq<u8>>,
}

/// The identities a set holds in `[lo, hi)`.
pub open spec fn within(h: Holdings, lo: BoundView, hi: BoundView) -> Seq<Seq<u8>> {
    h.ids.subrange(
        source::seek_index(h.keys, lo) as int,
        source::seek_index(h.keys, hi) as int,
    )
}

/// Whether a set is sealed and holds each identity once.
pub open spec fn proper(h: Holdings) -> bool {
    source::sealed(h.keys, h.ids) && h.ids.no_duplicates()
}

/// Whether two sets give an identity they share the same sort key.
pub open spec fn consistent(a: Holdings, b: Holdings) -> bool {
    forall|i: int, j: int|
        0 <= i < a.ids.len() && 0 <= j < b.ids.len() && #[trigger] a.ids[i] == #[trigger] b.ids[j]
            ==> a.keys[i] == b.keys[j]
}

/// Whether two runs of identities hold the same ones.
pub open spec fn same_elements(a: Seq<Seq<u8>>, b: Seq<Seq<u8>>) -> bool {
    forall|x: Seq<u8>| #[trigger] a.contains(x) <==> b.contains(x)
}

/// Whether windows of the two sets have equal fingerprints only where they hold
/// the same identities. The hash makes a window that breaks this a `2^-128`
/// event.
pub open spec fn collision_free(a: Holdings, b: Holdings) -> bool {
    forall|i: int, j: int, k: int, l: int|
        0 <= i <= j <= a.ids.len() && 0 <= k <= l <= b.ids.len() && fingerprint::fingerprint_of(
            #[trigger] a.ids.subrange(i, j),
        ) == fingerprint::fingerprint_of(#[trigger] b.ids.subrange(k, l)) ==> same_elements(
            a.ids.subrange(i, j),
            b.ids.subrange(k, l),
        )
}

/// Whether two peers can reconcile: proper sets that agree on the sort keys of
/// what they share, and whose windows do not collide.
pub open spec fn reconcilable(a: Holdings, b: Holdings) -> bool {
    proper(a) && proper(b) && consistent(a, b) && collision_free(a, b)
}

/// What `x` holds and `y` lacks, counted over the ranges that are settled.
pub open spec fn settled_part(
    x: Holdings,
    y: Holdings,
    lo: BoundView,
    ranges: Seq<RangeView>,
) -> Multiset<Seq<u8>>
    decreases ranges.len(),
{
    if ranges.len() == 0 {
        Multiset::empty()
    } else {
        let hi = ranges[0].upper;
        let rest = settled_part(x, y, hi, ranges.skip(1));
        if ranges[0].mode is Skip {
            rest.add(initiator::only(within(x, lo, hi), within(y, lo, hi)).to_multiset())
        } else {
            rest
        }
    }
}

/// Whether every range is agreed on or carries the fingerprint of what `a` holds
/// in it.
pub open spec fn asked_by(a: Holdings, lo: BoundView, ranges: Seq<RangeView>) -> bool
    decreases ranges.len(),
{
    ranges.len() == 0 || {
        let hi = ranges[0].upper;
        &&& asked_by(a, hi, ranges.skip(1))
        &&& match ranges[0].mode {
            ModeView::Skip => true,
            ModeView::Fingerprint(found) => found == fingerprint::fingerprint_of(
                within(a, lo, hi),
            ),
            ModeView::IdList(_) => false,
        }
    }
}

/// Whether every range is agreed on, or carries the fingerprint of what `b`
/// holds in it, or lists it.
pub open spec fn answered_by(b: Holdings, lo: BoundView, ranges: Seq<RangeView>) -> bool
    decreases ranges.len(),
{
    ranges.len() == 0 || {
        let hi = ranges[0].upper;
        &&& answered_by(b, hi, ranges.skip(1))
        &&& match ranges[0].mode {
            ModeView::Skip => true,
            ModeView::Fingerprint(found) => found == fingerprint::fingerprint_of(
                within(b, lo, hi),
            ),
            ModeView::IdList(listed) => {
                &&& listed == within(b, lo, hi)
                &&& listed.len() <= caps::MAX_IDS_PER_RANGE
            },
        }
    }
}

/// Whether ranges tile the keyspace from `lo` to `hi`.
pub open spec fn tiles_to(lo: BoundView, hi: BoundView, ranges: Seq<RangeView>) -> bool
    decreases ranges.len(),
{
    if ranges.len() == 0 {
        false
    } else {
        &&& source::bound_lt(lo, ranges[0].upper)
        &&& if ranges.len() == 1 {
            ranges[0].upper == hi
        } else {
            ranges[0].upper != BoundView::Max && tiles_to(ranges[0].upper, hi, ranges.skip(1))
        }
    }
}

/// The bounds of a window map to ordered indices.
pub proof fn lemma_window(h: Holdings, lo: BoundView, hi: BoundView)
    requires
        source::sealed(h.keys, h.ids),
        source::bound_lt(lo, hi),
    ensures
        0 <= source::seek_index(h.keys, lo) <= source::seek_index(h.keys, hi) <= h.ids.len(),
        initiator::window_ids(h.keys, h.ids, lo, hi) == Some(within(h, lo, hi)),
{
    source::lemma_seek_splits(h.keys, lo);
    source::lemma_seek_splits(h.keys, hi);
    source::lemma_bound_order(lo, hi, lo);
    source::lemma_seek_monotonic(h.keys, lo, hi);
}

/// An identity both sets hold lies in the same window of each.
proof fn lemma_same_window(a: Holdings, b: Holdings, lo: BoundView, hi: BoundView, x: Seq<u8>)
    requires
        proper(a),
        proper(b),
        consistent(a, b),
        source::bound_lt(lo, hi),
        within(b, lo, hi).contains(x),
        a.ids.contains(x),
    ensures
        within(a, lo, hi).contains(x),
{
    lemma_window(a, lo, hi);
    lemma_window(b, lo, hi);
    source::lemma_seek_splits(a.keys, lo);
    source::lemma_seek_splits(a.keys, hi);
    source::lemma_seek_splits(b.keys, lo);
    source::lemma_seek_splits(b.keys, hi);
    let w = within(b, lo, hi);
    let k = choose|k: int| 0 <= k < w.len() && w[k] == x;
    let j = source::seek_index(b.keys, lo) + k;
    assert(b.ids[j] == x);
    let i = choose|i: int| 0 <= i < a.ids.len() && a.ids[i] == x;
    assert(a.keys[i] == b.keys[j]);
    let s = source::seek_index(a.keys, lo) as int;
    assert(within(a, lo, hi)[i - s] == x);
}

/// Filters that agree on a list keep the same of it.
proof fn lemma_filter_agrees(
    s: Seq<Seq<u8>>,
    p: spec_fn(Seq<u8>) -> bool,
    q: spec_fn(Seq<u8>) -> bool,
)
    requires
        forall|x: Seq<u8>| s.contains(x) ==> p(x) == q(x),
    ensures
        s.filter(p) == s.filter(q),
    decreases s.len(),
{
    reveal(Seq::filter);
    if s.len() > 0 {
        assert forall|x: Seq<u8>| s.drop_last().contains(x) implies p(x) == q(x) by {
            let k = choose|k: int| 0 <= k < s.drop_last().len() && s.drop_last()[k] == x;
            assert(s[k] == x);
            assert(s.contains(x));
        }
        lemma_filter_agrees(s.drop_last(), p, q);
        assert(s.contains(s[s.len() - 1]));
    }
}

/// Windows that hold the same identities have no difference.
proof fn lemma_no_difference(a: Seq<Seq<u8>>, b: Seq<Seq<u8>>)
    requires
        same_elements(a, b),
    ensures
        initiator::only(a, b).to_multiset() == Multiset::<Seq<u8>>::empty(),
        initiator::only(b, a).to_multiset() == Multiset::<Seq<u8>>::empty(),
{
    broadcast use vstd::seq_lib::group_to_multiset_ensures;

    lists::lemma_filter(a, |id: Seq<u8>| !b.contains(id));
    lists::lemma_filter(b, |id: Seq<u8>| !a.contains(id));
    let ab = initiator::only(a, b);
    let ba = initiator::only(b, a);
    if ab.len() > 0 {
        assert(ab.contains(ab[0]));
    }
    if ba.len() > 0 {
        assert(ba.contains(ba[0]));
    }
    assert(ab.to_multiset() =~= Multiset::<Seq<u8>>::empty());
    assert(ba.to_multiset() =~= Multiset::<Seq<u8>>::empty());
}

/// Settled parts add up over concatenation.
proof fn lemma_settled_concat(
    x: Holdings,
    y: Holdings,
    lo: BoundView,
    hi: BoundView,
    p: Seq<RangeView>,
    rest: Seq<RangeView>,
)
    requires
        tiles_to(lo, hi, p),
    ensures
        settled_part(x, y, lo, p + rest) == settled_part(x, y, lo, p).add(
            settled_part(x, y, hi, rest),
        ),
    decreases p.len(),
{
    assert((p + rest)[0] == p[0]);
    assert((p + rest).skip(1) =~= p.skip(1) + rest);
    if p.len() > 1 {
        lemma_settled_concat(x, y, p[0].upper, hi, p.skip(1), rest);
    } else {
        assert(p.skip(1) =~= Seq::<RangeView>::empty());
        assert(p.skip(1) + rest =~= rest);
        assert(settled_part(x, y, hi, p.skip(1)) == Multiset::<Seq<u8>>::empty());
    }
    let hi0 = p[0].upper;
    assert(settled_part(x, y, hi0, (p + rest).skip(1)) =~= settled_part(
        x,
        y,
        hi0,
        p.skip(1),
    ).add(settled_part(x, y, hi, rest)));
    assert(settled_part(x, y, lo, p + rest) =~= settled_part(x, y, lo, p).add(
        settled_part(x, y, hi, rest),
    ));
}

/// Answers stay answers over concatenation.
proof fn lemma_answered_concat(
    b: Holdings,
    lo: BoundView,
    hi: BoundView,
    p: Seq<RangeView>,
    rest: Seq<RangeView>,
)
    requires
        tiles_to(lo, hi, p),
        answered_by(b, lo, p),
        answered_by(b, hi, rest),
    ensures
        answered_by(b, lo, p + rest),
    decreases p.len(),
{
    assert((p + rest)[0] == p[0]);
    assert((p + rest).skip(1) =~= p.skip(1) + rest);
    if p.len() > 1 {
        lemma_answered_concat(b, p[0].upper, hi, p.skip(1), rest);
    } else {
        assert(p.skip(1) + rest =~= rest);
    }
}

/// A tiling up to a bound, and a tiling from it on, tile together.
proof fn lemma_tiles_concat(
    lo: BoundView,
    hi: BoundView,
    p: Seq<RangeView>,
    rest: Seq<RangeView>,
)
    requires
        tiles_to(lo, hi, p),
        rest.len() == 0 ==> hi == BoundView::Max,
        rest.len() > 0 ==> hi != BoundView::Max && message::tiles_from(hi, rest),
    ensures
        message::tiles_from(lo, p + rest),
    decreases p.len(),
{
    assert((p + rest)[0] == p[0]);
    assert((p + rest).skip(1) =~= p.skip(1) + rest);
    if p.len() > 1 {
        lemma_tiles_concat(p[0].upper, hi, p.skip(1), rest);
    } else {
        assert(p.skip(1) + rest =~= rest);
    }
}

/// Ranges none of which is settled settle nothing.
proof fn lemma_unsettled(x: Holdings, y: Holdings, lo: BoundView, ranges: Seq<RangeView>)
    requires
        forall|i: int| 0 <= i < ranges.len() ==> !((#[trigger] ranges[i]).mode is Skip),
    ensures
        settled_part(x, y, lo, ranges) == Multiset::<Seq<u8>>::empty(),
    decreases ranges.len(),
{
    if ranges.len() > 0 {
        let rest = ranges.skip(1);
        assert forall|i: int| 0 <= i < rest.len() implies !((#[trigger] rest[i]).mode is Skip) by {
            assert(rest[i] == ranges[i + 1]);
        }
        lemma_unsettled(x, y, ranges[0].upper, rest);
        assert(!(ranges[0].mode is Skip));
    }
}

/// The key of an item seeks to the item.
pub proof fn lemma_seek_own_key(keys: Seq<Seq<u8>>, i: int)
    requires
        source::ascending(keys),
        0 <= i < keys.len(),
    ensures
        source::seek_index(keys, BoundView::Key(keys[i])) == i,
{
    let bound = BoundView::Key(keys[i]);
    bytes::lemma_lex_irreflexive(keys[i]);
    assert forall|j: int| 0 <= j < i implies source::bound_lt(
        BoundView::Key(#[trigger] keys[j]),
        bound,
    ) by {}
    source::lemma_seek_unique(keys, bound, i as nat);
}

/// The buckets of a window, from bucket `b` on, tile the rest of it and carry
/// the fingerprints of what it holds.
pub proof fn lemma_buckets(h: Holdings, lo: BoundView, hi: BoundView, b: int)
    requires
        source::sealed(h.keys, h.ids),
        source::bound_lt(lo, hi),
        ({
            let start = source::seek_index(h.keys, lo) as int;
            let end = source::seek_index(h.keys, hi) as int;
            end - start >= 2 && 0 <= b < responder::bucket_count(end - start)
        }),
    ensures
        ({
            let start = source::seek_index(h.keys, lo) as int;
            let end = source::seek_index(h.keys, hi) as int;
            let all = responder::buckets(h.keys, h.ids, start, end, hi);
            let from = if b == 0 {
                lo
            } else {
                BoundView::Key(h.keys[responder::bucket_edge(start, end, b)])
            };
            &&& tiles_to(from, hi, all.skip(b))
            &&& answered_by(h, from, all.skip(b))
        }),
    decreases
            responder::bucket_count(
                source::seek_index(h.keys, hi) - source::seek_index(h.keys, lo),
            ) - b,
{
    let start = source::seek_index(h.keys, lo) as int;
    let end = source::seek_index(h.keys, hi) as int;
    let count = responder::bucket_count(end - start);
    let all = responder::buckets(h.keys, h.ids, start, end, hi);
    let edge = responder::bucket_edge(start, end, b);
    let next = responder::bucket_edge(start, end, b + 1);
    let from = if b == 0 {
        lo
    } else {
        BoundView::Key(h.keys[edge])
    };
    lemma_window(h, lo, hi);
    source::lemma_seek_splits(h.keys, lo);
    source::lemma_seek_splits(h.keys, hi);
    responder::lemma_bucket_edges(start, end, b);
    responder::lemma_bucket_edges(start, end, b + 1);
    reveal_with_fuel(answered_by, 2);
    let suffix = all.skip(b);
    assert(suffix[0] == all[b]);
    assert(suffix.skip(1) =~= all.skip(b + 1));
    if b > 0 {
        lemma_seek_own_key(h.keys, edge);
    }
    assert(source::seek_index(h.keys, from) == edge);
    if b + 1 < count {
        responder::lemma_bucket_edges(start, end, b + 2);
        let upper = BoundView::Key(h.keys[next]);
        lemma_seek_own_key(h.keys, next);
        lemma_buckets(h, lo, hi, b + 1);
        assert(source::bound_lt(from, upper)) by {
            let at = BoundView::Key(h.keys[edge]);
            assert(bytes::lex_lt(h.keys[edge], h.keys[next]));
            if b == 0 {
                source::lemma_bound_order(lo, at, upper);
                source::lemma_bound_order(lo, lo, upper);
            }
        }
        assert(within(h, from, upper) == h.ids.subrange(edge, next));
    } else {
        assert(b + 1 == count);
        assert(b > 0);
        assert(source::bound_lt(from, hi));
        assert(suffix.len() == 1);
        assert(within(h, from, hi) == h.ids.subrange(edge, next));
    }
}

/// A response from `b` to a tiling asked by `a`: no error stops it, it tiles the
/// same keyspace, it carries what `b` holds, and it settles nothing that is not
/// settled already.
proof fn lemma_response(
    a: Holdings,
    b: Holdings,
    made: nat,
    listed: nat,
    lo: BoundView,
    ranges: Seq<RangeView>,
)
    requires
        reconcilable(a, b),
        message::tiles_from(lo, ranges),
        asked_by(a, lo, ranges),
    ensures
        ({
            let (out, stopped) = responder::responded(b.keys, b.ids, made, listed, lo, ranges);
            &&& stopped is None
            &&& message::tiles_from(lo, out)
            &&& answered_by(b, lo, out)
            &&& settled_part(a, b, lo, out) == settled_part(a, b, lo, ranges)
            &&& settled_part(b, a, lo, out) == settled_part(b, a, lo, ranges)
        }),
    decreases ranges.len(),
{
    let range = ranges[0];
    let hi = range.upper;
    lemma_window(a, lo, hi);
    lemma_window(b, lo, hi);
    let start = source::seek_index(b.keys, lo) as int;
    let end = source::seek_index(b.keys, hi) as int;
    let step = responder::refined(b.keys, b.ids, made, listed, lo, range);
    assert(step is Ok);
    let (piece, bytes) = step->Ok_0;
    let (rest, stopped) = responder::responded(
        b.keys,
        b.ids,
        made + piece.len(),
        bytes,
        hi,
        ranges.skip(1),
    );
    if ranges.len() > 1 {
        lemma_response(a, b, made + piece.len(), bytes, hi, ranges.skip(1));
    } else {
        assert(ranges.skip(1) =~= Seq::<RangeView>::empty());
        assert(rest =~= Seq::<RangeView>::empty());
    }
    if piece.len() == 1 {
        assert(piece.skip(1) =~= Seq::<RangeView>::empty());
    }
    reveal_with_fuel(settled_part, 2);
    let split = !(piece.len() == 1 && piece[0].upper == hi);
    if split {
        assert(piece == responder::buckets(b.keys, b.ids, start, end, hi));
        lemma_buckets(b, lo, hi, 0);
        assert(piece.skip(0) =~= piece);
        lemma_unsettled(a, b, lo, piece);
        lemma_unsettled(b, a, lo, piece);
    } else {
        assert(tiles_to(lo, hi, piece));
        assert(answered_by(b, lo, piece)) by {
            assert(answered_by(b, hi, piece.skip(1)));
        }
    }
    lemma_settled_concat(a, b, lo, hi, piece, rest);
    lemma_settled_concat(b, a, lo, hi, piece, rest);
    lemma_answered_concat(b, lo, hi, piece, rest);
    lemma_tiles_concat(lo, hi, piece, rest);
    if !(range.mode is Skip) && piece[0].mode is Skip {
        let wa = within(a, lo, hi);
        let wb = within(b, lo, hi);
        assert(fingerprint::fingerprint_of(wa) == fingerprint::fingerprint_of(wb));
        assert(same_elements(wa, wb));
        lemma_no_difference(wa, wb);
    }
    assert(settled_part(a, b, lo, piece + rest) =~= settled_part(a, b, lo, ranges));
    assert(settled_part(b, a, lo, piece + rest) =~= settled_part(b, a, lo, ranges));
}

/// What `a` makes of a tiling answered by `b`: no error stops it, the tiling
/// stays as it is, and what it learns is exactly what becomes settled.
proof fn lemma_mapping(
    a: Holdings,
    b: Holdings,
    diff: DiffView,
    lo: BoundView,
    ranges: Seq<RangeView>,
)
    requires
        reconcilable(a, b),
        message::tiles_from(lo, ranges),
        answered_by(b, lo, ranges),
    ensures
        ({
            let (out, learned, stopped) = initiator::reconciled(a.keys, a.ids, diff, lo, ranges);
            &&& stopped is None
            &&& out.len() == ranges.len()
            &&& forall|i: int|
                0 <= i < out.len() ==> (#[trigger] out[i]).upper == ranges[i].upper
            &&& message::tiles_from(lo, out)
            &&& asked_by(a, lo, out)
            &&& learned.need.to_multiset().add(settled_part(b, a, lo, ranges))
                == diff.need.to_multiset().add(settled_part(b, a, lo, out))
            &&& learned.have.to_multiset().add(settled_part(a, b, lo, ranges))
                == diff.have.to_multiset().add(settled_part(a, b, lo, out))
        }),
    decreases ranges.len(),
{
    let range = ranges[0];
    let hi = range.upper;
    lemma_window(a, lo, hi);
    lemma_window(b, lo, hi);
    let wa = within(a, lo, hi);
    let wb = within(b, lo, hi);
    reveal_with_fuel(initiator::reconciled, 2);
    reveal_with_fuel(settled_part, 2);
    reveal_with_fuel(asked_by, 2);
    let step = initiator::mapped(a.keys, a.ids, diff, lo, range);
    assert(step is Ok);
    let (answer, next) = step->Ok_0;
    let (rest, learned, stopped) = initiator::reconciled(
        a.keys,
        a.ids,
        next,
        hi,
        ranges.skip(1),
    );
    if ranges.len() > 1 {
        lemma_mapping(a, b, next, hi, ranges.skip(1));
    } else {
        assert(ranges.skip(1) =~= Seq::<RangeView>::empty());
        assert(rest =~= Seq::<RangeView>::empty());
    }
    let out = seq![answer] + rest;
    assert(out[0] == answer);
    assert(out.skip(1) =~= rest);
    assert forall|i: int| 0 <= i < out.len() implies (#[trigger] out[i]).upper
        == ranges[i].upper by {
        if i > 0 {
            assert(out[i] == rest[i - 1]);
            assert(ranges.skip(1)[i - 1] == ranges[i]);
        }
    }
    match range.mode {
        ModeView::Skip => {},
        ModeView::Fingerprint(theirs) => {
            if answer.mode is Skip {
                assert(same_elements(wa, wb));
                lemma_no_difference(wa, wb);
                assert(diff.need.to_multiset().add(initiator::only(wb, wa).to_multiset())
                    =~= diff.need.to_multiset());
                assert(diff.have.to_multiset().add(initiator::only(wa, wb).to_multiset())
                    =~= diff.have.to_multiset());
            }
        },
        ModeView::IdList(theirs) => {
            vstd::seq_lib::lemma_multiset_commutative(diff.need, initiator::only(wb, wa));
            vstd::seq_lib::lemma_multiset_commutative(diff.have, initiator::only(wa, wb));
        },
    }
    lemma_balance(b, a, lo, ranges, out, learned.need, next.need, diff.need);
    lemma_balance(a, b, lo, ranges, out, learned.have, next.have, diff.have);
}

/// What is learned over the ranges after the first, and what the first adds,
/// balance over all of them.
proof fn lemma_balance(
    x: Holdings,
    y: Holdings,
    lo: BoundView,
    ranges: Seq<RangeView>,
    out: Seq<RangeView>,
    learned: Seq<Seq<u8>>,
    next: Seq<Seq<u8>>,
    known: Seq<Seq<u8>>,
)
    requires
        ranges.len() > 0,
        out.len() > 0,
        out[0].upper == ranges[0].upper,
        learned.to_multiset().add(settled_part(x, y, ranges[0].upper, ranges.skip(1)))
            == next.to_multiset().add(settled_part(x, y, ranges[0].upper, out.skip(1))),
        ({
            let hi = ranges[0].upper;
            let part = initiator::only(within(x, lo, hi), within(y, lo, hi)).to_multiset();
            if ranges[0].mode is Skip == out[0].mode is Skip {
                next.to_multiset() == known.to_multiset()
            } else {
                &&& out[0].mode is Skip
                &&& next.to_multiset() == known.to_multiset().add(part)
            }
        }),
    ensures
        learned.to_multiset().add(settled_part(x, y, lo, ranges)) == known.to_multiset().add(
            settled_part(x, y, lo, out),
        ),
{
    let hi = ranges[0].upper;
    let part = initiator::only(within(x, lo, hi), within(y, lo, hi)).to_multiset();
    let before = settled_part(x, y, hi, ranges.skip(1));
    let after = settled_part(x, y, hi, out.skip(1));
    assert forall|id: Seq<u8>|
        learned.to_multiset().add(settled_part(x, y, lo, ranges)).count(id)
            == known.to_multiset().add(settled_part(x, y, lo, out)).count(id) by {
        assert(learned.to_multiset().add(before).count(id) == next.to_multiset().add(
            after,
        ).count(id));
    }
    assert(learned.to_multiset().add(settled_part(x, y, lo, ranges)) =~= known.to_multiset().add(
        settled_part(x, y, lo, out),
    ));
}

/// Where a session between an initiator over `a` and a responder over `b` stands
/// when the initiator speaks: its message tiles the keyspace and carries what
/// `a` holds, and it has learned exactly the difference within the ranges that
/// are settled.
pub open spec fn conversing(
    a: Holdings,
    b: Holdings,
    ranges: Seq<RangeView>,
    diff: DiffView,
) -> bool {
    &&& message::tiles(ranges)
    &&& asked_by(a, BoundView::Min, ranges)
    &&& diff.need.to_multiset() == settled_part(b, a, BoundView::Min, ranges)
    &&& diff.have.to_multiset() == settled_part(a, b, BoundView::Min, ranges)
}

/// A session opens with one range over everything, and nothing learned.
pub proof fn lemma_session_opens(a: Holdings, b: Holdings)
    requires
        source::sealed(a.keys, a.ids),
    ensures
        conversing(a, b, initiator::opening(a.ids), engine::no_difference()),
{
    broadcast use vstd::seq_lib::group_to_multiset_ensures;

    let ranges = initiator::opening(a.ids);
    source::lemma_seek_ends(a.keys);
    assert(within(a, BoundView::Min, BoundView::Max) =~= a.ids);
    assert(ranges.skip(1) =~= Seq::<RangeView>::empty());
    reveal_with_fuel(asked_by, 2);
    lemma_unsettled(a, b, BoundView::Min, ranges);
    lemma_unsettled(b, a, BoundView::Min, ranges);
    assert(engine::no_difference().need.to_multiset() =~= Multiset::<Seq<u8>>::empty());
    assert(engine::no_difference().have.to_multiset() =~= Multiset::<Seq<u8>>::empty());
}

/// Whether a run of ranges has one that ends on a bound.
pub open spec fn has_bound(ranges: Seq<RangeView>, bound: BoundView) -> bool {
    exists|j: int| 0 <= j < ranges.len() && (#[trigger] ranges[j]).upper == bound
}

/// Whether no range lists more identities than a list may hold.
pub open spec fn lists_within_cap(ranges: Seq<RangeView>) -> bool {
    forall|i: int|
        0 <= i < ranges.len() ==> ((#[trigger] ranges[i]).mode matches ModeView::IdList(ids)
            ==> ids.len() <= caps::MAX_IDS_PER_RANGE)
}

/// What a response adds tiles the keyspace from where its ranges start.
proof fn lemma_responded_tiles(
    h: Holdings,
    made: nat,
    listed: nat,
    lo: BoundView,
    ranges: Seq<RangeView>,
)
    requires
        source::sealed(h.keys, h.ids),
        message::tiles_from(lo, ranges),
        responder::responded(h.keys, h.ids, made, listed, lo, ranges).1 is None,
    ensures
        ({
            let out = responder::responded(h.keys, h.ids, made, listed, lo, ranges).0;
            &&& message::tiles_from(lo, out)
            &&& lists_within_cap(out)
            &&& forall|i: int| 0 <= i < ranges.len() ==> has_bound(out, (#[trigger] ranges[i]).upper)
        }),
    decreases ranges.len(),
{
    let hi = ranges[0].upper;
    lemma_window(h, lo, hi);
    reveal_with_fuel(responder::responded, 2);
    let start = source::seek_index(h.keys, lo) as int;
    let end = source::seek_index(h.keys, hi) as int;
    let step = responder::refined(h.keys, h.ids, made, listed, lo, ranges[0]);
    assert(step is Ok);
    let (piece, bytes) = step->Ok_0;
    let rest = responder::responded(
        h.keys,
        h.ids,
        made + piece.len(),
        bytes,
        hi,
        ranges.skip(1),
    ).0;
    let out = piece + rest;
    if ranges.len() > 1 {
        lemma_responded_tiles(h, made + piece.len(), bytes, hi, ranges.skip(1));
    } else {
        assert(ranges.skip(1) =~= Seq::<RangeView>::empty());
        assert(rest =~= Seq::<RangeView>::empty());
    }
    if piece.len() == 1 && piece[0].upper == hi {
        assert(piece.skip(1) =~= Seq::<RangeView>::empty());
        assert(tiles_to(lo, hi, piece));
    } else {
        assert(piece == responder::buckets(h.keys, h.ids, start, end, hi));
        lemma_buckets(h, lo, hi, 0);
        assert(piece.skip(0) =~= piece);
    }
    lemma_tiles_concat(lo, hi, piece, rest);
    assert(out[piece.len() - 1].upper == hi);
    assert forall|i: int| 0 <= i < ranges.len() implies has_bound(
        out,
        (#[trigger] ranges[i]).upper,
    ) by {
        if i > 0 {
            let later = ranges.skip(1);
            assert(later[i - 1] == ranges[i]);
            assert(has_bound(rest, later[i - 1].upper));
            let j = choose|j: int|
                0 <= j < rest.len() && (#[trigger] rest[j]).upper == ranges[i].upper;
            assert(out[piece.len() + j] == rest[j]);
        }
    }
    assert forall|i: int| 0 <= i < out.len() implies ((
    #[trigger] out[i]).mode matches ModeView::IdList(ids) ==> ids.len()
        <= caps::MAX_IDS_PER_RANGE) by {
        if i >= piece.len() {
            assert(out[i] == rest[i - piece.len()]);
        } else {
            assert(out[i] == piece[i]);
        }
    }
}

/// The responder's answer to any tiling it does not refuse tiles the same
/// keyspace, whatever it refines: every incoming bound is kept, and no list is
/// longer than the cap.
pub proof fn lemma_responder_keeps_the_tiling(h: Holdings, ranges: Seq<RangeView>)
    requires
        source::sealed(h.keys, h.ids),
        message::tiles(ranges),
        responder::response(h.keys, h.ids, ranges).1 is None,
    ensures
        ({
            let out = responder::response(h.keys, h.ids, ranges).0;
            &&& message::tiles(out)
            &&& lists_within_cap(out)
            &&& forall|i: int| 0 <= i < ranges.len() ==> has_bound(out, (#[trigger] ranges[i]).upper)
        }),
{
    lemma_responded_tiles(h, 0, 0, BoundView::Min, ranges);
}

/// The initiator never changes the tiling: every incoming range maps to one
/// outgoing range over the same bounds.
pub proof fn lemma_initiator_keeps_the_bounds(
    h: Holdings,
    diff: DiffView,
    lo: BoundView,
    incoming: Seq<RangeView>,
)
    ensures
        ({
            let (out, learned, stopped) = initiator::reconciled(h.keys, h.ids, diff, lo, incoming);
            &&& out.len() <= incoming.len()
            &&& stopped is None ==> out.len() == incoming.len()
            &&& forall|i: int|
                0 <= i < out.len() ==> (#[trigger] out[i]).upper == incoming[i].upper
        }),
    decreases incoming.len(),
{
    if incoming.len() > 0 {
        let step = initiator::mapped(h.keys, h.ids, diff, lo, incoming[0]);
        if step is Ok {
            let (answer, next) = step->Ok_0;
            let hi = incoming[0].upper;
            lemma_initiator_keeps_the_bounds(h, next, hi, incoming.skip(1));
            let rest = initiator::reconciled(h.keys, h.ids, next, hi, incoming.skip(1)).0;
            let out = seq![answer] + rest;
            assert forall|i: int| 0 <= i < out.len() implies (#[trigger] out[i]).upper
                == incoming[i].upper by {
                if i > 0 {
                    assert(out[i] == rest[i - 1]);
                    assert(incoming.skip(1)[i - 1] == incoming[i]);
                }
            }
        }
    }
}

/// One round keeps a session where it should stand, and no error stops it.
pub proof fn lemma_round_keeps_conversing(
    a: Holdings,
    b: Holdings,
    ranges: Seq<RangeView>,
    diff: DiffView,
)
    requires
        reconcilable(a, b),
        conversing(a, b, ranges, diff),
    ensures
        ({
            let (reply, refused) = responder::response(b.keys, b.ids, ranges);
            let (next, learned, stopped) = initiator::reconciled(
                a.keys,
                a.ids,
                diff,
                BoundView::Min,
                reply,
            );
            &&& refused is None
            &&& stopped is None
            &&& conversing(a, b, next, learned)
        }),
{
    let reply = responder::response(b.keys, b.ids, ranges).0;
    lemma_response(a, b, 0, 0, BoundView::Min, ranges);
    lemma_mapping(a, b, diff, BoundView::Min, reply);
    let (next, learned, stopped) = initiator::reconciled(
        a.keys,
        a.ids,
        diff,
        BoundView::Min,
        reply,
    );
    let need = diff.need.to_multiset();
    let have = diff.have.to_multiset();
    assert(learned.need.to_multiset() =~= settled_part(b, a, BoundView::Min, next)) by {
        assert forall|x: Seq<u8>|
            learned.need.to_multiset().count(x) == settled_part(
                b,
                a,
                BoundView::Min,
                next,
            ).count(x) by {
            assert(learned.need.to_multiset().add(need).count(x) == need.add(
                settled_part(b, a, BoundView::Min, next),
            ).count(x));
        }
    }
    assert(learned.have.to_multiset() =~= settled_part(a, b, BoundView::Min, next)) by {
        assert forall|x: Seq<u8>|
            learned.have.to_multiset().count(x) == settled_part(
                a,
                b,
                BoundView::Min,
                next,
            ).count(x) by {
            assert(learned.have.to_multiset().add(have).count(x) == have.add(
                settled_part(a, b, BoundView::Min, next),
            ).count(x));
        }
    }
}

/// The settled part of a wholly settled tiling is the whole difference from
/// there up.
proof fn lemma_all_settled(x: Holdings, y: Holdings, lo: BoundView, ranges: Seq<RangeView>)
    requires
        proper(x),
        proper(y),
        consistent(y, x),
        message::tiles_from(lo, ranges),
        message::all_skip(ranges),
    ensures
        settled_part(x, y, lo, ranges) == initiator::only(
            x.ids.subrange(source::seek_index(x.keys, lo) as int, x.ids.len() as int),
            y.ids,
        ).to_multiset(),
    decreases ranges.len(),
{
    broadcast use vstd::seq_lib::group_to_multiset_ensures;

    let hi = ranges[0].upper;
    let len = x.ids.len() as int;
    let s = source::seek_index(x.keys, lo) as int;
    let e = source::seek_index(x.keys, hi) as int;
    lemma_window(x, lo, hi);
    lemma_window(y, lo, hi);
    let wx = within(x, lo, hi);
    let wy = within(y, lo, hi);
    let lacks = |id: Seq<u8>| !y.ids.contains(id);
    let lacks_here = |id: Seq<u8>| !wy.contains(id);
    assert forall|id: Seq<u8>| wx.contains(id) implies lacks_here(id) == lacks(id) by {
        if wy.contains(id) {
            let k = choose|k: int| 0 <= k < wy.len() && wy[k] == id;
            assert(y.ids[source::seek_index(y.keys, lo) + k] == id);
        }
        if y.ids.contains(id) {
            lemma_same_window(y, x, lo, hi, id);
        }
    }
    lemma_filter_agrees(wx, lacks_here, lacks);
    assert(initiator::only(wx, wy) == wx.filter(lacks));
    assert(ranges[0].mode is Skip);
    let rest = ranges.skip(1);
    let upper = x.ids.subrange(e, len);
    if ranges.len() > 1 {
        assert(message::all_skip(rest)) by {
            assert forall|i: int| 0 <= i < rest.len() implies (#[trigger] rest[i]).mode is Skip by {
                assert(rest[i] == ranges[i + 1]);
            }
        }
        lemma_all_settled(x, y, hi, rest);
    } else {
        source::lemma_seek_ends(x.keys);
        assert(upper =~= Seq::<Seq<u8>>::empty());
        assert(upper.filter(lacks) =~= Seq::<Seq<u8>>::empty()) by {
            reveal(Seq::filter);
        }
        assert(rest =~= Seq::<RangeView>::empty());
        assert(upper.filter(lacks).to_multiset() =~= Multiset::<Seq<u8>>::empty());
    }
    assert(settled_part(x, y, hi, rest) == upper.filter(lacks).to_multiset());
    assert(x.ids.subrange(s, len) =~= wx + upper);
    Seq::filter_distributes_over_add(wx, upper, lacks);
    vstd::seq_lib::lemma_multiset_commutative(wx.filter(lacks), upper.filter(lacks));
    assert(settled_part(x, y, lo, ranges) =~= (wx + upper).filter(lacks).to_multiset());
}

/// Whether `list` holds, each once, exactly what `x` has and `y` lacks.
pub open spec fn is_difference(list: Seq<Seq<u8>>, x: Holdings, y: Holdings) -> bool {
    &&& list.no_duplicates()
    &&& forall|id: Seq<u8>| #[trigger]
        list.contains(id) <==> x.ids.contains(id) && !y.ids.contains(id)
}

/// A list that counts what `x` has and `y` lacks is that difference.
proof fn lemma_counts_the_difference(list: Seq<Seq<u8>>, x: Holdings, y: Holdings)
    requires
        proper(x),
        list.to_multiset() == initiator::only(x.ids, y.ids).to_multiset(),
    ensures
        is_difference(list, x, y),
{
    broadcast use vstd::seq_lib::group_to_multiset_ensures;

    let part = initiator::only(x.ids, y.ids);
    lists::lemma_filter(x.ids, |id: Seq<u8>| !y.ids.contains(id));
    part.lemma_multiset_has_no_duplicates();
    list.lemma_multiset_has_no_duplicates_conv();
    assert forall|id: Seq<u8>| #[trigger] list.contains(id) <==> part.contains(id) by {
        assert(list.contains(id) <==> list.to_multiset().count(id) > 0);
        assert(part.contains(id) <==> part.to_multiset().count(id) > 0);
    }
}

/// A session whose message is all-skip has learned exactly the true difference,
/// in both directions and each identity once.
pub proof fn lemma_convergence_is_exact(
    a: Holdings,
    b: Holdings,
    ranges: Seq<RangeView>,
    diff: DiffView,
)
    requires
        reconcilable(a, b),
        conversing(a, b, ranges, diff),
        message::all_skip(ranges),
    ensures
        is_difference(diff.need, b, a),
        is_difference(diff.have, a, b),
{
    source::lemma_seek_ends(a.keys);
    source::lemma_seek_ends(b.keys);
    assert(a.ids.subrange(0, a.ids.len() as int) =~= a.ids);
    assert(b.ids.subrange(0, b.ids.len() as int) =~= b.ids);
    lemma_all_settled(a, b, BoundView::Min, ranges);
    lemma_all_settled(b, a, BoundView::Min, ranges);
    lemma_counts_the_difference(diff.need, b, a);
    lemma_counts_the_difference(diff.have, a, b);
}

/// One exchange between an initiating and a responding engine: the responder
/// answers what the initiator says, and the initiator either speaks again or has
/// converged on exactly the true difference.
pub proof fn lemma_exchange_converges_on_the_difference(
    initiating: RbsrView,
    responding: RbsrView,
    ranges: Seq<RangeView>,
)
    requires
        initiating.role == Role::Initiator,
        responding.role == Role::Responder,
        ({
            let a = Holdings { keys: initiating.keys, ids: initiating.ids };
            let b = Holdings { keys: responding.keys, ids: responding.ids };
            reconcilable(a, b) && conversing(a, b, ranges, initiating.diff)
        }),
    ensures
        ({
            let a = Holdings { keys: initiating.keys, ids: initiating.ids };
            let b = Holdings { keys: responding.keys, ids: responding.ids };
            let (spoken, heard) = rbsr_engine::answered(responding, ranges);
            &&& heard == Ok::<Progress, ReconcileError>(Progress::Continue)
            &&& spoken.pending matches Some(reply) && {
                let (after, answer) = rbsr_engine::answered(initiating, reply);
                match answer {
                    Ok(Progress::Continue) => {
                        after.pending matches Some(next) && conversing(a, b, next, after.diff)
                    },
                    Ok(Progress::Converged) => {
                        &&& is_difference(after.diff.need, b, a)
                        &&& is_difference(after.diff.have, a, b)
                    },
                    Err(_) => false,
                }
            }
        }),
{
    let a = Holdings { keys: initiating.keys, ids: initiating.ids };
    let b = Holdings { keys: responding.keys, ids: responding.ids };
    lemma_round_keeps_conversing(a, b, ranges, initiating.diff);
    let reply = responder::response(b.keys, b.ids, ranges).0;
    let (next, learned, stopped) = initiator::reconciled(
        a.keys,
        a.ids,
        initiating.diff,
        BoundView::Min,
        reply,
    );
    if message::all_skip(next) {
        lemma_convergence_is_exact(a, b, next, learned);
    }
}

/// Agreement costs one range each way, however large the sets: the responder
/// answers the opening with a single skip, and the initiator converges with
/// nothing learned.
pub proof fn lemma_agreement_converges_at_once(initiating: RbsrView, responding: RbsrView)
    requires
        initiating.role == Role::Initiator,
        responding.role == Role::Responder,
        source::sealed(initiating.keys, initiating.ids),
        source::sealed(responding.keys, responding.ids),
        initiating.ids.to_multiset() == responding.ids.to_multiset(),
    ensures
        ({
            let (spoken, heard) = rbsr_engine::answered(
                responding,
                initiator::opening(initiating.ids),
            );
            &&& heard == Ok::<Progress, ReconcileError>(Progress::Continue)
            &&& spoken.pending == Some(seq![initiator::settled(BoundView::Max)])
            &&& rbsr_engine::answered(initiating, spoken.pending->Some_0) == (
                RbsrView { pending: None, ..initiating },
                Ok::<Progress, ReconcileError>(Progress::Converged),
            )
        }),
{
    let opening = initiator::opening(initiating.ids);
    let skip = seq![initiator::settled(BoundView::Max)];
    source::lemma_seek_ends(initiating.keys);
    source::lemma_seek_ends(responding.keys);
    fingerprint::lemma_fingerprint_order_independent(initiating.ids, responding.ids);
    assert(responding.ids.subrange(0, responding.ids.len() as int) =~= responding.ids);
    assert(initiating.ids.subrange(0, initiating.ids.len() as int) =~= initiating.ids);
    assert(opening.skip(1) =~= Seq::<RangeView>::empty());
    assert(skip.skip(1) =~= Seq::<RangeView>::empty());
    assert(skip + Seq::<RangeView>::empty() =~= skip);
    reveal_with_fuel(responder::responded, 2);
    reveal_with_fuel(initiator::reconciled, 2);
    assert(responder::response(responding.keys, responding.ids, opening).0 =~= skip);
    assert(initiator::reconciled(
        initiating.keys,
        initiating.ids,
        initiating.diff,
        BoundView::Min,
        skip,
    ).0 =~= skip);
    assert(message::all_skip(skip));
}

/// The identity bytes a run of ranges lists.
pub open spec fn listed_bytes(ranges: Seq<RangeView>) -> nat
    decreases ranges.len(),
{
    if ranges.len() == 0 {
        0
    } else {
        listed_bytes(ranges.drop_last()) + match ranges.last().mode {
            ModeView::IdList(ids) => responder::id_bytes(ids),
            _ => 0,
        }
    }
}

/// Listed bytes add up over concatenation.
proof fn lemma_listed_concat(p: Seq<RangeView>, rest: Seq<RangeView>)
    ensures
        listed_bytes(p + rest) == listed_bytes(p) + listed_bytes(rest),
    decreases rest.len(),
{
    if rest.len() == 0 {
        assert(p + rest =~= p);
    } else {
        assert((p + rest).drop_last() =~= p + rest.drop_last());
        lemma_listed_concat(p, rest.drop_last());
    }
}

/// Fingerprints list nothing.
pub proof fn lemma_nothing_listed(ranges: Seq<RangeView>)
    requires
        forall|i: int| 0 <= i < ranges.len() ==> !((#[trigger] ranges[i]).mode is IdList),
    ensures
        listed_bytes(ranges) == 0,
    decreases ranges.len(),
{
    if ranges.len() > 0 {
        assert(!(ranges[ranges.len() - 1].mode is IdList));
        assert forall|i: int| 0 <= i < ranges.drop_last().len() implies !((
        #[trigger] ranges.drop_last()[i]).mode is IdList) by {
            assert(ranges.drop_last()[i] == ranges[i]);
        }
        lemma_nothing_listed(ranges.drop_last());
    }
}

/// What a response adds to a message that holds some ranges and bytes already.
proof fn lemma_responded_is_bounded(
    h: Holdings,
    made: nat,
    listed: nat,
    lo: BoundView,
    incoming: Seq<RangeView>,
)
    requires
        source::sealed(h.keys, h.ids),
        listed <= caps::MAX_LISTED_ID_BYTES,
    ensures
        ({
            let out = responder::responded(h.keys, h.ids, made, listed, lo, incoming).0;
            let full = (caps::MAX_RANGES_PER_MESSAGE + caps::BRANCHING_FACTOR - 1) as nat;
            &&& made + out.len() <= (if made > full {
                made
            } else {
                full
            }) + incoming.len()
            &&& listed + listed_bytes(out) <= caps::MAX_LISTED_ID_BYTES
        }),
    decreases incoming.len(),
{
    if incoming.len() > 0 {
        let hi = incoming[0].upper;
        match responder::refined(h.keys, h.ids, made, listed, lo, incoming[0]) {
            Ok((piece, bytes)) => {
                let rest = responder::responded(
                    h.keys,
                    h.ids,
                    made + piece.len(),
                    bytes,
                    hi,
                    incoming.skip(1),
                ).0;
                lemma_responded_is_bounded(h, made + piece.len(), bytes, hi, incoming.skip(1));
                lemma_listed_concat(piece, rest);
                if piece.len() == 1 && piece[0].upper == hi {
                    assert(piece.drop_last() =~= Seq::<RangeView>::empty());
                    reveal_with_fuel(listed_bytes, 2);
                } else {
                    lemma_nothing_listed(piece);
                }
            },
            Err(_) => {},
        }
    }
}

/// No response grows without bound, whatever it answers: it lists at most
/// [`caps::MAX_LISTED_ID_BYTES`], and past [`caps::MAX_RANGES_PER_MESSAGE`] ranges
/// it only answers one range for one.
pub proof fn lemma_response_is_bounded(h: Holdings, incoming: Seq<RangeView>)
    requires
        source::sealed(h.keys, h.ids),
    ensures
        ({
            let out = responder::response(h.keys, h.ids, incoming).0;
            &&& out.len() < caps::MAX_RANGES_PER_MESSAGE + caps::BRANCHING_FACTOR + incoming.len()
            &&& listed_bytes(out) <= caps::MAX_LISTED_ID_BYTES
        }),
{
    lemma_responded_is_bounded(h, 0, 0, BoundView::Min, incoming);
}

} // verus!
