//! The initiator's per-round transform.
//!
//! The initiator never changes the tiling: every incoming range maps to exactly
//! one outgoing range over the same bounds. It answers a matching fingerprint
//! with a skip, a mismatching one by echoing its own, and an ID list by
//! resolving the leaf into its need and have sets and then skipping. Refinement
//! is the responder's job alone, which is what keeps the initiator's outgoing
//! message the same shape as the one it received and makes an all-skip message
//! an unambiguous convergence signal.
use crate::reconcile::engine;
use crate::reconcile::engine::rbsr::caps;
use crate::reconcile::engine::rbsr::fingerprint;
use crate::reconcile::engine::rbsr::message;
use crate::reconcile::engine::rbsr::message::{Mode, ModeView, Range, RangeView, RbsrMessage};
use crate::reconcile::engine::rbsr::segment_tree::SegmentTree;
use crate::reconcile::engine::{Diff, DiffView};
use crate::reconcile::error::ReconcileError;
use crate::reconcile::source;
use crate::reconcile::source::{Bound, BoundView, ItemId, ItemSource};
use vstd::prelude::*;

verus! {

/// The identities a source holds in `[lo, hi)`, unless the bounds are inverted.
pub open spec fn window_ids(
    keys: Seq<Seq<u8>>,
    ids: Seq<Seq<u8>>,
    lo: BoundView,
    hi: BoundView,
) -> Option<Seq<Seq<u8>>> {
    if source::bound_lt(hi, lo) {
        None
    } else {
        Some(
            ids.subrange(
                source::seek_index(keys, lo) as int,
                source::seek_index(keys, hi) as int,
            ),
        )
    }
}

/// The opening message: one full-range fingerprint over the whole local set.
pub open spec fn opening(ids: Seq<Seq<u8>>) -> Seq<RangeView> {
    seq![
        RangeView {
            upper: BoundView::Max,
            mode: ModeView::Fingerprint(fingerprint::fingerprint_of(ids)),
        },
    ]
}

/// A range both peers agree on.
pub open spec fn settled(upper: BoundView) -> RangeView {
    RangeView { upper, mode: ModeView::Skip }
}

/// What `a` holds and `b` lacks, in the order of `a`.
pub open spec fn only(a: Seq<Seq<u8>>, b: Seq<Seq<u8>>) -> Seq<Seq<u8>> {
    a.filter(|id: Seq<u8>| !b.contains(id))
}

/// The difference a listed range settles: identities the peer listed but the
/// local set lacks are needed, and local identities the peer omitted are held.
pub open spec fn resolved(
    diff: DiffView,
    theirs: Seq<Seq<u8>>,
    mine: Seq<Seq<u8>>,
) -> DiffView {
    DiffView {
        need: diff.need + only(theirs, mine),
        have: diff.have + only(mine, theirs),
    }
}

/// What the initiator makes of one incoming range.
pub open spec fn mapped(
    keys: Seq<Seq<u8>>,
    ids: Seq<Seq<u8>>,
    diff: DiffView,
    lo: BoundView,
    range: RangeView,
) -> Result<(RangeView, DiffView), ReconcileError> {
    match window_ids(keys, ids, lo, range.upper) {
        None => Err(ReconcileError::MalformedBound),
        Some(mine) => match range.mode {
            ModeView::Skip => Ok((settled(range.upper), diff)),
            ModeView::Fingerprint(theirs) => if fingerprint::fingerprint_of(mine) == theirs {
                Ok((settled(range.upper), diff))
            } else {
                Ok(
                    (
                        RangeView {
                            upper: range.upper,
                            mode: ModeView::Fingerprint(fingerprint::fingerprint_of(mine)),
                        },
                        diff,
                    ),
                )
            },
            ModeView::IdList(theirs) => if theirs.len() > caps::MAX_IDS_PER_RANGE {
                Err(
                    ReconcileError::IdListTooLarge {
                        size: theirs.len() as usize,
                        max: caps::MAX_IDS_PER_RANGE,
                    },
                )
            } else {
                Ok((settled(range.upper), resolved(diff, theirs, mine)))
            },
        },
    }
}

/// What the initiator makes of incoming ranges from `lo` up: the outgoing
/// ranges, the difference learned, and the error that stopped it if one did.
pub open spec fn reconciled(
    keys: Seq<Seq<u8>>,
    ids: Seq<Seq<u8>>,
    diff: DiffView,
    lo: BoundView,
    incoming: Seq<RangeView>,
) -> (Seq<RangeView>, DiffView, Option<ReconcileError>)
    decreases incoming.len(),
{
    if incoming.len() == 0 {
        (Seq::empty(), diff, None)
    } else {
        match mapped(keys, ids, diff, lo, incoming[0]) {
            Err(error) => (Seq::empty(), diff, Some(error)),
            Ok((range, learned)) => {
                let (rest, total, error) = reconciled(
                    keys,
                    ids,
                    learned,
                    incoming[0].upper,
                    incoming.skip(1),
                );
                (seq![range] + rest, total, error)
            },
        }
    }
}

/// The opening message: one full-range fingerprint over the whole local set.
pub fn initiate<S: ItemSource>(index: &SegmentTree<S>) -> (message: RbsrMessage)
    requires
        index.wf(),
    ensures
        message@ == opening(index.ids()),
{
    let mut ranges: Vec<Range> = Vec::new();
    let len: usize = index.len();
    ranges.push(Range::fingerprint(Bound::Max, index.fingerprint(0, len)));
    proof {
        if len == 0 {
            assert(index.ids() =~= Seq::<Seq<u8>>::empty());
        } else {
            assert(index.ids().subrange(0, len as int) =~= index.ids());
        }
        assert(message::range_views(ranges@) =~= opening(index.ids()));
    }
    RbsrMessage::new(ranges)
}

/// Maps the responder's message to the next outgoing message, recording any
/// resolved leaves into `diff`.
pub fn reconcile<S: ItemSource>(
    index: &SegmentTree<S>,
    diff: &mut Diff,
    incoming: &RbsrMessage,
) -> (r: Result<RbsrMessage, ReconcileError>)
    requires
        index.wf(),
    ensures
        ({
            let (out, learned, stopped) = reconciled(
                index.keys(),
                index.ids(),
                old(diff)@,
                BoundView::Min,
                incoming@,
            );
            &&& final(diff)@ == learned
            &&& match r {
                Ok(message) => stopped is None && message@ == out,
                Err(error) => stopped == Some(error),
            }
        }),
{
    let ranges = incoming.ranges();
    let ghost all = incoming@;
    let ghost keys = index.keys();
    let ghost ids = index.ids();
    let ghost start = diff@;
    let mut out: Vec<Range> = Vec::with_capacity(ranges.len());
    let mut lo = Bound::Min;
    let mut i: usize = 0;
    proof {
        assert(all.skip(0) =~= all);
        let whole = reconciled(keys, ids, start, BoundView::Min, all);
        assert(message::range_views(out@) + whole.0 =~= whole.0);
    }
    while i < ranges.len()
        invariant
            i <= ranges@.len(),
            index.wf(),
            all == incoming@,
            all == message::range_views(ranges@),
            keys == index.keys(),
            ids == index.ids(),
            start == old(diff)@,
            ({
                let whole = reconciled(keys, ids, start, BoundView::Min, all);
                let left = reconciled(keys, ids, diff@, lo@, all.skip(i as int));
                whole == (message::range_views(out@) + left.0, left.1, left.2)
            }),
        decreases ranges.len() - i,
    {
        let range = &ranges[i];
        let hi = &range.upper_bound;
        let ghost before = diff@;
        let ghost done = message::range_views(out@);
        proof {
            assert(all.skip(i as int)[0] == range@);
            assert(all.skip(i as int).skip(1) =~= all.skip(i + 1));
        }
        let (first, last) = match index.window(&lo, hi) {
            Ok(window) => window,
            Err(error) => {
                return Err(error);
            },
        };
        let ghost mine = ids.subrange(first as int, last as int);
        assert(first == last ==> mine =~= Seq::<Seq<u8>>::empty());
        let answer = match &range.mode {
            Mode::Skip => Range::skip(hi.clone()),
            Mode::Fingerprint(theirs) => {
                let own = index.fingerprint(first, last);
                if own.same(theirs) {
                    Range::skip(hi.clone())
                } else {
                    Range::fingerprint(hi.clone(), own)
                }
            },
            Mode::IdList(theirs) => {
                match resolve_leaf(index, diff, theirs.as_slice(), first, last) {
                    Ok(_) => {},
                    Err(error) => {
                        return Err(error);
                    },
                }
                Range::skip(hi.clone())
            },
        };
        out.push(answer);
        proof {
            let left = reconciled(keys, ids, diff@, hi@, all.skip(i + 1));
            assert(mapped(keys, ids, before, lo@, range@) == Ok::<(RangeView, DiffView), ReconcileError>((answer@, diff@)));
            assert(message::range_views(out@) =~= done.push(answer@));
            assert(done + (seq![answer@] + left.0) =~= message::range_views(out@) + left.0);
        }
        lo = hi.clone();
        i = i + 1;
    }
    proof {
        assert(all.skip(i as int) =~= Seq::<RangeView>::empty());
        assert(message::range_views(out@) + Seq::<RangeView>::empty() =~= message::range_views(
            out@,
        ));
    }
    Ok(RbsrMessage::new(out))
}

/// Whether an identity is among those a source holds in `[start, end)`.
fn holds<S: ItemSource>(source: &S, id: &ItemId, start: usize, end: usize) -> (r: bool)
    requires
        start <= end <= source.keys().len(),
        source.keys().len() == source.ids().len(),
    ensures
        r == source.ids().subrange(start as int, end as int).contains(id@),
{
    let ghost mine = source.ids().subrange(start as int, end as int);
    let mut i: usize = start;
    while i < end
        invariant
            start <= i <= end <= source.keys().len(),
            source.keys().len() == source.ids().len(),
            mine == source.ids().subrange(start as int, end as int),
            forall|j: int| 0 <= j < i - start ==> mine[j] != id@,
        decreases end - i,
    {
        if source.id(i).same(id) {
            assert(mine[i - start] == id@);
            return true;
        }
        i = i + 1;
    }
    false
}

/// Whether an identity is among those listed.
fn listed(ids: &[ItemId], id: &ItemId) -> (r: bool)
    ensures
        r == engine::id_views(ids@).contains(id@),
{
    let mut i: usize = 0;
    while i < ids.len()
        invariant
            i <= ids@.len(),
            forall|j: int| 0 <= j < i ==> (#[trigger] engine::id_views(ids@)[j]) != id@,
        decreases ids.len() - i,
    {
        if ids[i].same(id) {
            assert(engine::id_views(ids@)[i as int] == id@);
            return true;
        }
        i = i + 1;
    }
    false
}

/// Records the difference a listed range settles: identities the peer listed but
/// the local set lacks are needed, and local identities the peer omitted are
/// held.
fn resolve_leaf<S: ItemSource>(
    index: &SegmentTree<S>,
    diff: &mut Diff,
    remote_ids: &[ItemId],
    start: usize,
    end: usize,
) -> (r: Result<(), ReconcileError>)
    requires
        index.wf(),
        start <= end <= index.ids().len(),
    ensures
        match r {
            Ok(_) => {
                &&& remote_ids@.len() <= caps::MAX_IDS_PER_RANGE
                &&& final(diff)@ == resolved(
                    old(diff)@,
                    engine::id_views(remote_ids@),
                    index.ids().subrange(start as int, end as int),
                )
            },
            Err(error) => {
                &&& remote_ids@.len() > caps::MAX_IDS_PER_RANGE
                &&& final(diff)@ == old(diff)@
                &&& error == (ReconcileError::IdListTooLarge {
                    size: remote_ids@.len() as usize,
                    max: caps::MAX_IDS_PER_RANGE,
                })
            },
        },
{
    if remote_ids.len() > caps::MAX_IDS_PER_RANGE {
        return Err(
            ReconcileError::IdListTooLarge {
                size: remote_ids.len(),
                max: caps::MAX_IDS_PER_RANGE,
            },
        );
    }
    let source = index.source();
    let ghost theirs = engine::id_views(remote_ids@);
    let ghost mine = index.ids().subrange(start as int, end as int);
    let ghost lacking = |id: Seq<u8>| !mine.contains(id);
    let ghost omitted = |id: Seq<u8>| !theirs.contains(id);
    let ghost before = diff@;
    let mut i: usize = 0;
    proof {
        reveal(Seq::filter);
        assert(theirs.take(0).filter(lacking) =~= Seq::<Seq<u8>>::empty());
        assert(before.need + Seq::<Seq<u8>>::empty() =~= before.need);
    }
    while i < remote_ids.len()
        invariant
            i <= remote_ids@.len(),
            index.wf(),
            source.keys() == index.keys(),
            source.ids() == index.ids(),
            start <= end <= index.ids().len(),
            theirs == engine::id_views(remote_ids@),
            mine == index.ids().subrange(start as int, end as int),
            lacking == (|id: Seq<u8>| !mine.contains(id)),
            diff@.need == before.need + theirs.take(i as int).filter(lacking),
            diff@.have == before.have,
        decreases remote_ids.len() - i,
    {
        let id = &remote_ids[i];
        proof {
            reveal(Seq::filter);
            assert(theirs.take(i + 1).drop_last() =~= theirs.take(i as int));
            assert(theirs.take(i + 1).last() == id@);
        }
        if !holds(source, id, start, end) {
            diff.record_need(id.clone());
            assert(diff@.need =~= before.need + theirs.take(i + 1).filter(lacking));
        }
        i = i + 1;
    }
    assert(theirs.take(i as int) =~= theirs);
    let mut k: usize = start;
    proof {
        reveal(Seq::filter);
        assert(mine.take(0).filter(omitted) =~= Seq::<Seq<u8>>::empty());
        assert(before.have + Seq::<Seq<u8>>::empty() =~= before.have);
    }
    while k < end
        invariant
            start <= k <= end <= index.ids().len(),
            index.wf(),
            source.keys() == index.keys(),
            source.ids() == index.ids(),
            theirs == engine::id_views(remote_ids@),
            mine == index.ids().subrange(start as int, end as int),
            omitted == (|id: Seq<u8>| !theirs.contains(id)),
            diff@.need == before.need + theirs.filter(lacking),
            diff@.have == before.have + mine.take(k - start).filter(omitted),
        decreases end - k,
    {
        let id = source.id(k);
        proof {
            reveal(Seq::filter);
            assert(mine.take(k - start + 1).drop_last() =~= mine.take(k - start));
            assert(mine.take(k - start + 1).last() == id@);
        }
        if !listed(remote_ids, id) {
            diff.record_have(id.clone());
            assert(diff@.have =~= before.have + mine.take(k - start + 1).filter(omitted));
        }
        k = k + 1;
    }
    assert(mine.take(k - start) =~= mine);
    Ok(())
}

} // verus!
