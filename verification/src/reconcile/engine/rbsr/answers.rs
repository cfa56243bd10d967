//! What each side makes of one range, from what it holds there.
//!
//! Both sides see a range through the items they hold between its bounds. The
//! initiator learns from a list exactly what one side has there and the other lacks;
//! the responder lists a small window whole and divides a large one evenly.
use crate::reconcile::engine::rbsr::fingerprint;
use crate::reconcile::engine::rbsr::initiator;
use crate::reconcile::engine::rbsr::message;
use crate::reconcile::engine::rbsr::message::{ModeView, RangeView};
use crate::reconcile::engine::rbsr::responder;
use crate::reconcile::engine::DiffView;
use crate::reconcile::error::ReconcileError;
use crate::reconcile::lists;
use crate::reconcile::source;
use crate::reconcile::source::BoundView;
use vstd::prelude::*;

verus! {

/// The window a pair of bounds maps onto holds the identities of exactly the items
/// whose keys lie between them, in key order; an inverted pair maps onto none.
pub proof fn lemma_window_holds_what_lies_between(
    keys: Seq<Seq<u8>>,
    ids: Seq<Seq<u8>>,
    lo: BoundView,
    hi: BoundView,
)
    requires
        source::sealed(keys, ids),
    ensures
        source::bound_lt(hi, lo) <==> initiator::window_ids(keys, ids, lo, hi) is None,
        initiator::window_ids(keys, ids, lo, hi) matches Some(window) ==> exists|
            start: int,
            end: int,
        |
            {
                &&& 0 <= start <= end <= ids.len()
                &&& window == #[trigger] ids.subrange(start, end)
                &&& forall|i: int|
                    0 <= i < ids.len() ==> (start <= i < end <==> {
                        &&& !source::bound_lt(BoundView::Key(#[trigger] keys[i]), lo)
                        &&& source::bound_lt(BoundView::Key(keys[i]), hi)
                    })
            },
{
    if !source::bound_lt(hi, lo) {
        let start = source::seek_index(keys, lo) as int;
        let end = source::seek_index(keys, hi) as int;
        source::lemma_seek_splits(keys, lo);
        source::lemma_seek_splits(keys, hi);
        source::lemma_seek_monotonic(keys, lo, hi);
        assert(ids.subrange(start, end) == initiator::window_ids(keys, ids, lo, hi)->Some_0);
    }
}

/// What a responder answers to one range. It settles what is settled or agreed on,
/// refuses inverted bounds and a list of more than 64 identities, and otherwise lists
/// a window of up to 64 items whole, or divides a larger one; unless the message
/// already holds 16384 ranges, or the list would take it past 8 MiB of identities,
/// when it hands its own fingerprint back for a later round.
pub proof fn lemma_range_is_refined(
    keys: Seq<Seq<u8>>,
    ids: Seq<Seq<u8>>,
    made: nat,
    listed: nat,
    lo: BoundView,
    range: RangeView,
)
    requires
        source::sealed(keys, ids),
    ensures
        ({
            let hi = range.upper;
            let answer = responder::refined(keys, ids, made, listed, lo, range);
            let skip = RangeView { upper: hi, mode: ModeView::Skip };
            match initiator::window_ids(keys, ids, lo, hi) {
                None => answer matches Err(ReconcileError::MalformedBound),
                Some(window) => match range.mode {
                    ModeView::Skip => answer == Ok::<(Seq<RangeView>, nat), ReconcileError>(
                        (seq![skip], listed),
                    ),
                    ModeView::IdList(theirs) => if theirs.len() > 64 {
                        answer matches Err(ReconcileError::IdListTooLarge { size, max }) && size
                            == theirs.len() as usize && max == 64
                    } else {
                        answer == Ok::<(Seq<RangeView>, nat), ReconcileError>((seq![skip], listed))
                    },
                    ModeView::Fingerprint(theirs) => {
                        let own = fingerprint::fingerprint_of(window);
                        let bytes = window.fold_left(0nat, |sum: nat, id: Seq<u8>| sum + id.len());
                        &&& answer is Ok
                        &&& own == theirs ==> answer->Ok_0 == (seq![skip], listed)
                        &&& own != theirs && (made >= 16_384 || (window.len() <= 64 && listed + bytes
                            > 8_388_608)) ==> answer->Ok_0 == (
                            seq![RangeView { upper: hi, mode: ModeView::Fingerprint(own) }],
                            listed,
                        )
                        &&& own != theirs && made < 16_384 && window.len() <= 64 && listed + bytes
                            <= 8_388_608 ==> answer->Ok_0 == (
                            seq![RangeView { upper: hi, mode: ModeView::IdList(window) }],
                            listed + bytes,
                        )
                        &&& own != theirs && made < 16_384 && window.len() > 64 ==> {
                            &&& answer->Ok_0.0.len() == 16
                            &&& answer->Ok_0.0.last().upper == hi
                            &&& answer->Ok_0.1 == listed
                        }
                    },
                },
            }
        }),
{
    let hi = range.upper;
    if !source::bound_lt(hi, lo) {
        source::lemma_seek_splits(keys, hi);
        source::lemma_seek_monotonic(keys, lo, hi);
        lemma_id_bytes_is_the_sum(initiator::window_ids(keys, ids, lo, hi)->Some_0);
    }
}

/// The bytes of a run of identities, summed one at a time.
proof fn lemma_id_bytes_is_the_sum(ids: Seq<Seq<u8>>)
    ensures
        responder::id_bytes(ids) == ids.fold_left(0nat, |sum: nat, id: Seq<u8>| sum + id.len()),
    decreases ids.len(),
{
    if ids.len() > 0 {
        lemma_id_bytes_is_the_sum(ids.drop_last());
    }
}

/// A large window is divided into sixteen stretches of its items, one after another
/// and none empty, that differ in size by at most one. Each is summarized by the
/// fingerprint of its own items, and ends where the next begins: on the key of its
/// first item, and the last where the window does.
pub proof fn lemma_buckets_are_even(
    keys: Seq<Seq<u8>>,
    ids: Seq<Seq<u8>>,
    start: int,
    end: int,
    hi: BoundView,
) -> (edges: Seq<int>)
    requires
        0 <= start,
        end <= ids.len(),
        end - start > 64,
    ensures
        edges.len() == 17,
        edges[0] == start,
        edges[16] == end,
        forall|b: int|
            0 <= b < 16 ==> (end - start) / 16 <= #[trigger] edges[b + 1] - edges[b] <= (end - start)
                / 16 + 1,
        responder::buckets(keys, ids, start, end, hi).len() == 16,
        forall|b: int|
            0 <= b < 16 ==> #[trigger] responder::buckets(keys, ids, start, end, hi)[b] == (
            RangeView {
                upper: if b < 15 {
                    BoundView::Key(keys[edges[b + 1]])
                } else {
                    hi
                },
                mode: ModeView::Fingerprint(
                    fingerprint::fingerprint_of(ids.subrange(edges[b], edges[b + 1])),
                ),
            }),
{
    let span = end - start;
    let edges = Seq::new(17, |b: int| responder::bucket_edge(start, end, b));
    assert forall|b: int| 0 <= b < 16 implies span / 16 <= #[trigger] edges[b + 1] - edges[b]
        <= span / 16 + 1 by {
        let p = span * b;
        assert(span * (b + 1) == p + span) by (nonlinear_arith)
            requires
                p == span * b,
        ;
        assert(edges[b + 1] == start + (p + span) / 16);
        assert(edges[b] == start + p / 16);
    }
    assert(edges[0] == start) by {
        assert(span * 0 == 0);
    }
    assert(edges[16] == end);
    edges
}

/// What the initiator makes of one range. It settles what is settled or agreed on,
/// asks again, with its own fingerprint, about what is not, and refuses inverted
/// bounds and a list of more than 64 identities. From a list it learns, in this order
/// and beside what it knew, the listed identities it does not hold in the range and
/// those it holds there that are not listed; and that settles the range.
pub proof fn lemma_range_is_mapped(
    keys: Seq<Seq<u8>>,
    ids: Seq<Seq<u8>>,
    diff: DiffView,
    lo: BoundView,
    range: RangeView,
)
    ensures
        ({
            let hi = range.upper;
            let answer = initiator::mapped(keys, ids, diff, lo, range);
            let skip = RangeView { upper: hi, mode: ModeView::Skip };
            match initiator::window_ids(keys, ids, lo, hi) {
                None => answer matches Err(ReconcileError::MalformedBound),
                Some(window) => match range.mode {
                    ModeView::Skip => answer == Ok::<(RangeView, DiffView), ReconcileError>(
                        (skip, diff),
                    ),
                    ModeView::Fingerprint(theirs) => {
                        let own = fingerprint::fingerprint_of(window);
                        answer == Ok::<(RangeView, DiffView), ReconcileError>(
                            (
                                if own == theirs {
                                    skip
                                } else {
                                    RangeView { upper: hi, mode: ModeView::Fingerprint(own) }
                                },
                                diff,
                            ),
                        )
                    },
                    ModeView::IdList(theirs) => if theirs.len() > 64 {
                        answer matches Err(ReconcileError::IdListTooLarge { size, max }) && size
                            == theirs.len() as usize && max == 64
                    } else {
                        answer matches Ok((settled, learned)) && {
                            &&& settled == skip
                            &&& diff.need.is_prefix_of(learned.need)
                            &&& diff.have.is_prefix_of(learned.have)
                            &&& forall|x: Seq<u8>| #[trigger]
                                learned.need.skip(diff.need.len() as int).contains(x)
                                    <==> theirs.contains(x) && !window.contains(x)
                            &&& forall|x: Seq<u8>| #[trigger]
                                learned.have.skip(diff.have.len() as int).contains(x)
                                    <==> window.contains(x) && !theirs.contains(x)
                            &&& theirs.no_duplicates() ==> learned.need.skip(
                                diff.need.len() as int,
                            ).no_duplicates()
                            &&& window.no_duplicates() ==> learned.have.skip(
                                diff.have.len() as int,
                            ).no_duplicates()
                        }
                    },
                },
            }
        }),
{
    if let Some(window) = initiator::window_ids(keys, ids, lo, range.upper) {
        if let ModeView::IdList(theirs) = range.mode {
            let need = initiator::only(theirs, window);
            let have = initiator::only(window, theirs);
            lists::lemma_filter(theirs, |id: Seq<u8>| !window.contains(id));
            lists::lemma_filter(window, |id: Seq<u8>| !theirs.contains(id));
            assert((diff.need + need).skip(diff.need.len() as int) =~= need);
            assert((diff.have + have).skip(diff.have.len() as int) =~= have);
            assert(diff.need.is_prefix_of(diff.need + need));
            assert(diff.have.is_prefix_of(diff.have + have));
        }
    }
}

/// Each incoming range is answered in its turn, from where the one before it ended: a
/// responder's answer to a message is its answers to the ranges, one after another, up
/// to the first it refuses.
pub proof fn lemma_response_is_range_by_range(
    keys: Seq<Seq<u8>>,
    ids: Seq<Seq<u8>>,
    made: nat,
    listed: nat,
    lo: BoundView,
    first: RangeView,
    rest: Seq<RangeView>,
)
    ensures
        responder::responded(keys, ids, made, listed, lo, Seq::empty()) == (
            Seq::<RangeView>::empty(),
            None::<ReconcileError>,
        ),
        ({
            let whole = responder::responded(keys, ids, made, listed, lo, seq![first] + rest);
            match responder::refined(keys, ids, made, listed, lo, first) {
                Err(error) => whole.1 == Some(error),
                Ok((ranges, bytes)) => {
                    let left = responder::responded(
                        keys,
                        ids,
                        made + ranges.len(),
                        bytes,
                        first.upper,
                        rest,
                    );
                    whole == (ranges + left.0, left.1)
                },
            }
        }),
{
    assert((seq![first] + rest).skip(1) =~= rest);
}

/// Each incoming range is mapped in its turn, from where the one before it ended, with
/// what was learned from those before it kept: an initiator's answer to a message is
/// its answers to the ranges, one for one, up to the first it refuses.
pub proof fn lemma_mapping_is_range_by_range(
    keys: Seq<Seq<u8>>,
    ids: Seq<Seq<u8>>,
    diff: DiffView,
    lo: BoundView,
    first: RangeView,
    rest: Seq<RangeView>,
)
    ensures
        initiator::reconciled(keys, ids, diff, lo, Seq::empty()) == (
            Seq::<RangeView>::empty(),
            diff,
            None::<ReconcileError>,
        ),
        ({
            let whole = initiator::reconciled(keys, ids, diff, lo, seq![first] + rest);
            match initiator::mapped(keys, ids, diff, lo, first) {
                Err(error) => whole.1 == diff && whole.2 == Some(error),
                Ok((answer, learned)) => {
                    let left = initiator::reconciled(keys, ids, learned, first.upper, rest);
                    whole == (seq![answer] + left.0, left.1, left.2)
                },
            }
        }),
{
    assert((seq![first] + rest).skip(1) =~= rest);
}

/// A session opens with one range over the whole keyspace, with the fingerprint of the
/// whole set.
pub proof fn lemma_opening_is_one_range(ids: Seq<Seq<u8>>)
    ensures
        initiator::opening(ids).len() == 1,
        initiator::opening(ids)[0].upper is Max,
        initiator::opening(ids)[0].mode matches ModeView::Fingerprint(digest) && digest
            == fingerprint::fingerprint_of(ids),
        message::tiles(initiator::opening(ids)),
{
}

/// Ranges tile the keyspace exactly if there is one at least, their upper bounds
/// strictly ascend from the low end, and the last is the high end.
pub proof fn lemma_tilings_ascend(lo: BoundView, ranges: Seq<RangeView>)
    ensures
        message::tiles_from(lo, ranges) <==> {
            &&& ranges.len() >= 1
            &&& source::bound_lt(lo, ranges[0].upper)
            &&& ranges.last().upper is Max
            &&& forall|i: int|
                0 <= i < ranges.len() - 1 ==> source::bound_lt(
                    (#[trigger] ranges[i]).upper,
                    ranges[i + 1].upper,
                )
        },
    decreases ranges.len(),
{
    if ranges.len() > 1 {
        let rest = ranges.skip(1);
        lemma_tilings_ascend(ranges[0].upper, rest);
        if message::tiles_from(lo, ranges) {
            assert forall|i: int| 0 <= i < ranges.len() - 1 implies source::bound_lt(
                (#[trigger] ranges[i]).upper,
                ranges[i + 1].upper,
            ) by {
                if i > 0 {
                    assert(rest[i - 1] == ranges[i] && rest[i - 1 + 1] == ranges[i + 1]);
                }
            }
        }
        if ranges.len() >= 1 && source::bound_lt(lo, ranges[0].upper) && ranges.last().upper is Max
            && forall|i: int|
            0 <= i < ranges.len() - 1 ==> source::bound_lt(
                (#[trigger] ranges[i]).upper,
                ranges[i + 1].upper,
            ) {
            assert(source::bound_lt(ranges[0].upper, ranges[1].upper));
            assert forall|i: int| 0 <= i < rest.len() - 1 implies source::bound_lt(
                (#[trigger] rest[i]).upper,
                rest[i + 1].upper,
            ) by {
                assert(rest[i] == ranges[i + 1] && rest[i + 1] == ranges[i + 1 + 1]);
            }
        }
    }
}

/// A message has converged exactly if no range of it is in question or listed.
pub proof fn lemma_all_skip_is_every_range(ranges: Seq<RangeView>)
    ensures
        message::all_skip(ranges) <==> ranges == ranges.map_values(
            |range: RangeView| RangeView { upper: range.upper, mode: ModeView::Skip },
        ),
{
    let settled = ranges.map_values(
        |range: RangeView| RangeView { upper: range.upper, mode: ModeView::Skip },
    );
    if message::all_skip(ranges) {
        assert(settled =~= ranges);
    }
    if ranges == settled {
        assert forall|i: int| 0 <= i < ranges.len() implies (#[trigger] ranges[i]).mode is Skip by {
            assert(settled[i].mode is Skip);
        }
    }
}

} // verus!
