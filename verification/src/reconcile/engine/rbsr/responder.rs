//! The responder's refinement, which carries no per-session state.
//!
//! For each incoming range the responder recomputes its own fingerprint over the
//! bound-derived window and answers:
//!
//! - skip or ID-list range: already settled by the initiator, mirror a skip;
//! - fingerprint match: skip;
//! - mismatch over at most [`caps::ID_LIST_THRESHOLD`] items: list the window
//!   out;
//! - larger mismatch: split into [`caps::BRANCHING_FACTOR`] sub-ranges.
//!
//! The output tiles the same keyspace as the input. Once
//! [`caps::MAX_RANGES_PER_MESSAGE`] ranges have been produced, or a list would
//! pass [`caps::MAX_LISTED_ID_BYTES`], refinement is deferred to a later round
//! by echoing an unsplit fingerprint, so no single message grows without bound.
use crate::reconcile::engine;
use crate::reconcile::engine::rbsr::caps;
use crate::reconcile::engine::rbsr::fingerprint;
use crate::reconcile::engine::rbsr::fit;
use crate::reconcile::engine::rbsr::initiator;
use crate::reconcile::engine::rbsr::message;
use crate::reconcile::engine::rbsr::message::{Mode, ModeView, Range, RangeView, RbsrMessage};
use crate::reconcile::engine::rbsr::segment_tree::SegmentTree;
use crate::reconcile::error::ReconcileError;
use crate::reconcile::source;
use crate::reconcile::source::{Bound, BoundView, ItemId, ItemSource};
use vstd::prelude::*;

verus! {

/// The bytes a run of identities takes.
pub open spec fn id_bytes(ids: Seq<Seq<u8>>) -> nat
    decreases ids.len(),
{
    if ids.len() == 0 {
        0
    } else {
        id_bytes(ids.drop_last()) + ids.last().len()
    }
}

/// How many buckets a window of `span` items is divided into.
pub open spec fn bucket_count(span: int) -> int {
    if span < caps::BRANCHING_FACTOR {
        span
    } else {
        caps::BRANCHING_FACTOR as int
    }
}

/// Where bucket `b` of a window ends.
pub open spec fn bucket_edge(start: int, end: int, b: int) -> int {
    start + ((end - start) * b) / bucket_count(end - start)
}

/// Bucket `b` of a window: it ends on the key of a real item, but for the last,
/// which inherits the upper bound of the window.
pub open spec fn bucket(
    keys: Seq<Seq<u8>>,
    ids: Seq<Seq<u8>>,
    start: int,
    end: int,
    hi: BoundView,
    b: int,
) -> RangeView {
    RangeView {
        upper: if b + 1 < bucket_count(end - start) {
            BoundView::Key(keys[bucket_edge(start, end, b + 1)])
        } else {
            hi
        },
        mode: ModeView::Fingerprint(
            fingerprint::fingerprint_of(
                ids.subrange(bucket_edge(start, end, b), bucket_edge(start, end, b + 1)),
            ),
        ),
    }
}

/// A window divided into contiguous buckets of even size.
pub open spec fn buckets(
    keys: Seq<Seq<u8>>,
    ids: Seq<Seq<u8>>,
    start: int,
    end: int,
    hi: BoundView,
) -> Seq<RangeView> {
    Seq::new(
        bucket_count(end - start) as nat,
        |b: int| bucket(keys, ids, start, end, hi, b),
    )
}

/// What the responder answers to one incoming range, given how many ranges and
/// how many identity bytes the message holds so far; and how many identity bytes
/// it holds then.
pub open spec fn refined(
    keys: Seq<Seq<u8>>,
    ids: Seq<Seq<u8>>,
    made: nat,
    listed: nat,
    lo: BoundView,
    range: RangeView,
) -> Result<(Seq<RangeView>, nat), ReconcileError> {
    let start = source::seek_index(keys, lo) as int;
    let end = source::seek_index(keys, range.upper) as int;
    let hi = range.upper;
    match initiator::window_ids(keys, ids, lo, hi) {
        None => Err(ReconcileError::MalformedBound),
        Some(mine) => match range.mode {
            ModeView::Skip => Ok((seq![initiator::settled(hi)], listed)),
            ModeView::IdList(theirs) => if theirs.len() > caps::MAX_IDS_PER_RANGE {
                Err(
                    ReconcileError::IdListTooLarge {
                        size: theirs.len() as usize,
                        max: caps::MAX_IDS_PER_RANGE,
                    },
                )
            } else {
                Ok((seq![initiator::settled(hi)], listed))
            },
            ModeView::Fingerprint(theirs) => {
                let own = fingerprint::fingerprint_of(mine);
                let deferred = RangeView { upper: hi, mode: ModeView::Fingerprint(own) };
                if own == theirs {
                    Ok((seq![initiator::settled(hi)], listed))
                } else if made >= caps::MAX_RANGES_PER_MESSAGE {
                    Ok((seq![deferred], listed))
                } else if end - start <= caps::ID_LIST_THRESHOLD {
                    if listed + id_bytes(mine) > caps::MAX_LISTED_ID_BYTES {
                        Ok((seq![deferred], listed))
                    } else {
                        Ok(
                            (
                                seq![RangeView { upper: hi, mode: ModeView::IdList(mine) }],
                                listed + id_bytes(mine),
                            ),
                        )
                    }
                } else {
                    Ok((buckets(keys, ids, start, end, hi), listed))
                }
            },
        },
    }
}

/// What the responder answers to incoming ranges from `lo` up, given what the
/// message holds so far: the outgoing ranges, and the error that stopped it if
/// one did.
pub open spec fn responded(
    keys: Seq<Seq<u8>>,
    ids: Seq<Seq<u8>>,
    made: nat,
    listed: nat,
    lo: BoundView,
    incoming: Seq<RangeView>,
) -> (Seq<RangeView>, Option<ReconcileError>)
    decreases incoming.len(),
{
    if incoming.len() == 0 {
        (Seq::empty(), None)
    } else {
        match refined(keys, ids, made, listed, lo, incoming[0]) {
            Err(error) => (Seq::empty(), Some(error)),
            Ok((ranges, bytes)) => {
                let (rest, error) = responded(
                    keys,
                    ids,
                    made + ranges.len(),
                    bytes,
                    incoming[0].upper,
                    incoming.skip(1),
                );
                (ranges + rest, error)
            },
        }
    }
}

/// The response to a whole message.
pub open spec fn response(
    keys: Seq<Seq<u8>>,
    ids: Seq<Seq<u8>>,
    incoming: Seq<RangeView>,
) -> (Seq<RangeView>, Option<ReconcileError>) {
    responded(keys, ids, 0, 0, BoundView::Min, incoming)
}

/// Answers an incoming message from the local index.
pub fn respond<S: ItemSource>(index: &SegmentTree<S>, incoming: &RbsrMessage) -> (r: Result<
    RbsrMessage,
    ReconcileError,
>)
    requires
        index.wf(),
    ensures
        ({
            let (out, stopped) = response(index.keys(), index.ids(), incoming@);
            match r {
                Ok(message) => stopped is None && message@ == out && fit::sound(out),
                Err(error) => stopped == Some(error),
            }
        }),
{
    let ranges = incoming.ranges();
    let ghost all = incoming@;
    let ghost keys = index.keys();
    let ghost ids = index.ids();
    let mut out: Vec<Range> = Vec::with_capacity(ranges.len());
    let mut listed: usize = 0;
    let mut lo = Bound::Min;
    let mut i: usize = 0;
    proof {
        assert(all.skip(0) =~= all);
        let whole = response(keys, ids, all);
        assert(message::range_views(out@) + whole.0 =~= whole.0);
    }
    while i < ranges.len()
        invariant
            i <= ranges@.len(),
            index.wf(),
            all == incoming@,
            all == message::range_views(ranges@),
            keys == index.keys(),
            ids == index.ids(),
            listed <= caps::MAX_LISTED_ID_BYTES,
            ({
                let whole = response(keys, ids, all);
                let left = responded(
                    keys,
                    ids,
                    out@.len(),
                    listed as nat,
                    lo@,
                    all.skip(i as int),
                );
                whole == (message::range_views(out@) + left.0, left.1)
            }),
        decreases ranges.len() - i,
    {
        let range = &ranges[i];
        let hi = &range.upper_bound;
        let ghost done = message::range_views(out@);
        let ghost made = out@.len();
        let ghost listed0 = listed;
        proof {
            assert(all.skip(i as int)[0] == range@);
            assert(all.skip(i as int).skip(1) =~= all.skip(i + 1));
        }
        let (start, end) = match index.window(&lo, hi) {
            Ok(window) => window,
            Err(error) => {
                return Err(error);
            },
        };
        let ghost mine = ids.subrange(start as int, end as int);
        assert(start == end ==> mine =~= Seq::<Seq<u8>>::empty());
        let ghost mut added: Seq<RangeView> = Seq::empty();
        match &range.mode {
            Mode::Skip => {
                out.push(Range::skip(hi.clone()));
                proof {
                    added = seq![initiator::settled(hi@)];
                }
            },
            Mode::IdList(theirs) => {
                if theirs.len() > caps::MAX_IDS_PER_RANGE {
                    return Err(
                        ReconcileError::IdListTooLarge {
                            size: theirs.len(),
                            max: caps::MAX_IDS_PER_RANGE,
                        },
                    );
                }
                out.push(Range::skip(hi.clone()));
                proof {
                    added = seq![initiator::settled(hi@)];
                }
            },
            Mode::Fingerprint(theirs) => {
                let own = index.fingerprint(start, end);
                if own.same(theirs) {
                    out.push(Range::skip(hi.clone()));
                    proof {
                        added = seq![initiator::settled(hi@)];
                    }
                } else if out.len() >= caps::MAX_RANGES_PER_MESSAGE {
                    out.push(Range::fingerprint(hi.clone(), own));
                    proof {
                        added = seq![RangeView {
                            upper: hi@,
                            mode: ModeView::Fingerprint(own@),
                        }];
                    }
                } else if end - start <= caps::ID_LIST_THRESHOLD {
                    match affordable(index, start, end, caps::MAX_LISTED_ID_BYTES - listed) {
                        Some(bytes) => {
                            listed = listed + bytes;
                            out.push(id_list(index, hi, start, end));
                            proof {
                                added = seq![RangeView {
                                    upper: hi@,
                                    mode: ModeView::IdList(mine),
                                }];
                            }
                        },
                        None => {
                            out.push(Range::fingerprint(hi.clone(), own));
                            proof {
                                added = seq![RangeView {
                                    upper: hi@,
                                    mode: ModeView::Fingerprint(own@),
                                }];
                            }
                        },
                    }
                } else {
                    split(index, hi, start, end, &mut out);
                    proof {
                        added = buckets(keys, ids, start as int, end as int, hi@);
                    }
                }
            },
        }
        proof {
            assert(refined(keys, ids, made, listed0 as nat, lo@, range@) == Ok::<
                (Seq<RangeView>, nat),
                ReconcileError,
            >((added, listed as nat)));
            assert(message::range_views(out@) =~= done + added);
            let left = responded(
                keys,
                ids,
                out@.len(),
                listed as nat,
                hi@,
                all.skip(i + 1),
            );
            assert(done + (added + left.0) =~= message::range_views(out@) + left.0);
        }
        lo = hi.clone();
        i = i + 1;
    }
    proof {
        assert(all.skip(i as int) =~= Seq::<RangeView>::empty());
        assert(message::range_views(out@) + Seq::<RangeView>::empty() =~= message::range_views(
            out@,
        ));
    }
    let answer = RbsrMessage::new(out);
    proof {
        fit::lemma_messages_are_sound(answer);
    }
    Ok(answer)
}

/// The identity bytes of a window, if they fit what is left to list.
fn affordable<S: ItemSource>(
    index: &SegmentTree<S>,
    start: usize,
    end: usize,
    left: usize,
) -> (r: Option<usize>)
    requires
        index.wf(),
        start <= end <= index.ids().len(),
    ensures
        match r {
            Some(bytes) => bytes == id_bytes(index.ids().subrange(start as int, end as int))
                && bytes <= left,
            None => id_bytes(index.ids().subrange(start as int, end as int)) > left,
        },
{
    let source = index.source();
    let ghost mine = index.ids().subrange(start as int, end as int);
    let mut bytes: usize = 0;
    let mut i: usize = start;
    assert(mine.take(0) =~= Seq::<Seq<u8>>::empty());
    while i < end
        invariant
            start <= i <= end <= index.ids().len(),
            index.wf(),
            source.keys() == index.keys(),
            source.ids() == index.ids(),
            mine == index.ids().subrange(start as int, end as int),
            bytes == id_bytes(mine.take(i - start)),
            bytes <= left,
        decreases end - i,
    {
        let size: usize = source.id(i).as_bytes().len();
        proof {
            assert(mine.take(i - start + 1).drop_last() =~= mine.take(i - start));
            assert(mine.take(i - start + 1).last() == source.ids()[i as int]);
            lemma_id_bytes_grow(mine, i - start + 1);
        }
        if size > left - bytes {
            return None;
        }
        bytes = bytes + size;
        i = i + 1;
    }
    assert(mine.take(i - start) =~= mine);
    Some(bytes)
}

/// A longer run of identities takes at least as many bytes.
proof fn lemma_id_bytes_grow(ids: Seq<Seq<u8>>, n: int)
    requires
        0 <= n <= ids.len(),
    ensures
        id_bytes(ids.take(n)) <= id_bytes(ids),
    decreases ids.len(),
{
    if n < ids.len() {
        assert(ids.drop_last().take(n) =~= ids.take(n));
        lemma_id_bytes_grow(ids.drop_last(), n);
    } else {
        assert(ids.take(n) =~= ids);
    }
}

/// Lists the window out. Only reached when the window holds at most
/// [`caps::ID_LIST_THRESHOLD`] items, so the list never exceeds
/// [`caps::MAX_IDS_PER_RANGE`].
fn id_list<S: ItemSource>(index: &SegmentTree<S>, hi: &Bound, start: usize, end: usize) -> (range:
    Range)
    requires
        index.wf(),
        start <= end <= index.ids().len(),
    ensures
        range@ == (RangeView {
            upper: hi@,
            mode: ModeView::IdList(index.ids().subrange(start as int, end as int)),
        }),
{
    let source = index.source();
    let mut ids: Vec<ItemId> = Vec::with_capacity(end - start);
    let mut i: usize = start;
    while i < end
        invariant
            start <= i <= end <= index.ids().len(),
            index.wf(),
            source.keys() == index.keys(),
            source.ids() == index.ids(),
            ids@.len() == i - start,
            forall|j: int| 0 <= j < i - start ==> (#[trigger] ids@[j])@ == index.ids()[start + j],
        decreases end - i,
    {
        ids.push(source.id(i).clone());
        i = i + 1;
    }
    assert(engine::id_views(ids@) =~= index.ids().subrange(start as int, end as int));
    Range::id_list(hi.clone(), ids)
}

/// Even division by parts: the quotient and the remainder divided separately.
proof fn lemma_even_division(span: int, b: int, count: int)
    requires
        0 <= span,
        0 <= b <= count,
        0 < count,
    ensures
        (span * b) / count == (span / count) * b + ((span % count) * b) / count,
        0 <= (span * b) / count <= span,
        b < count ==> (span >= count ==> (span * b) / count < (span * (b + 1)) / count),
        (span * 0) / count == 0,
        (span * count) / count == span,
{
    vstd::arithmetic::div_mod::lemma_fundamental_div_mod(span, count);
    let q = span / count;
    let r = span % count;
    assert(span * b == (q * b) * count + r * b) by (nonlinear_arith)
        requires
            span == count * q + r,
    ;
    vstd::arithmetic::div_mod::lemma_div_multiples_vanish_fancy(q * b, 0, count);
    vstd::arithmetic::div_mod::lemma_hoist_over_denominator(r * b, q * b, count as nat);
    assert((q * b) * count == count * (q * b)) by (nonlinear_arith);
    assert(0 <= span * b) by (nonlinear_arith)
        requires
            0 <= span,
            0 <= b,
    ;
    assert(span * b <= span * count) by (nonlinear_arith)
        requires
            0 <= span,
            b <= count,
    ;
    vstd::arithmetic::div_mod::lemma_div_is_ordered(span * b, span * count, count);
    vstd::arithmetic::div_mod::lemma_div_multiples_vanish(span, count);
    assert(span * count == count * span) by (nonlinear_arith);
    vstd::arithmetic::div_mod::lemma_div_pos_is_pos(span * b, count);
    if b < count && span >= count {
        assert(span * (b + 1) == span * b + span) by (nonlinear_arith);
        vstd::arithmetic::div_mod::lemma_div_is_ordered(
            span * b + count,
            span * (b + 1),
            count,
        );
        vstd::arithmetic::div_mod::lemma_div_plus_one(span * b, count);
    }
}

/// The edges of the buckets of a window: they ascend strictly from its start to
/// its end.
pub proof fn lemma_bucket_edges(start: int, end: int, b: int)
    requires
        0 <= start < end,
        0 <= b <= bucket_count(end - start),
    ensures
        bucket_edge(start, end, 0) == start,
        bucket_edge(start, end, bucket_count(end - start)) == end,
        start <= bucket_edge(start, end, b) <= end,
        b < bucket_count(end - start) ==> bucket_edge(start, end, b) < bucket_edge(
            start,
            end,
            b + 1,
        ),
{
    let count = bucket_count(end - start);
    lemma_even_division(end - start, b, count);
}

/// Divides the window into up to [`caps::BRANCHING_FACTOR`] contiguous buckets.
///
/// Bucket boundaries are taken from real item sort keys so the peer's `seek`
/// derives an identical window from the same bound; the final bucket inherits
/// the original upper bound. Splitting by index rather than by keyspace is what
/// makes the buckets evenly sized regardless of how the keys cluster.
fn split<S: ItemSource>(
    index: &SegmentTree<S>,
    hi: &Bound,
    start: usize,
    end: usize,
    out: &mut Vec<Range>,
)
    requires
        index.wf(),
        start <= end <= index.ids().len(),
    ensures
        message::range_views(final(out)@) == message::range_views(old(out)@) + buckets(
            index.keys(),
            index.ids(),
            start as int,
            end as int,
            hi@,
        ),
{
    let span: usize = end - start;
    let count: usize = if caps::BRANCHING_FACTOR < span {
        caps::BRANCHING_FACTOR
    } else {
        span
    };
    let ghost keys = index.keys();
    let ghost ids = index.ids();
    let ghost all = buckets(keys, ids, start as int, end as int, hi@);
    let ghost before = message::range_views(out@);
    let mut bucket_start: usize = start;
    let mut b: usize = 0;
    proof {
        if start < end {
            lemma_bucket_edges(start as int, end as int, 0);
        }
        assert(before + all.take(0) =~= before);
    }
    while b < count
        invariant
            b <= count,
            index.wf(),
            keys == index.keys(),
            ids == index.ids(),
            start <= end <= ids.len(),
            span == end - start,
            count == bucket_count(span as int),
            count <= caps::BRANCHING_FACTOR,
            all == buckets(keys, ids, start as int, end as int, hi@),
            before == message::range_views(old(out)@),
            count > 0 ==> bucket_start == bucket_edge(start as int, end as int, b as int),
            message::range_views(out@) == before + all.take(b as int),
        decreases count - b,
    {
        proof {
            lemma_bucket_edges(start as int, end as int, b as int);
            lemma_bucket_edges(start as int, end as int, b + 1);
            lemma_even_division(span as int, b + 1, count as int);
            assert((span / count) * (b + 1) <= span) by (nonlinear_arith)
                requires
                    (span * (b + 1)) / (count as int) == (span / count) * (b + 1) + ((span
                        % count) * (b + 1)) / (count as int),
                    (span * (b + 1)) / (count as int) <= span,
                    count > 0,
                    span >= 0,
                    b >= 0,
            ;
            assert((span % count) * (b + 1) <= 256) by (nonlinear_arith)
                requires
                    0 <= span % count < count <= 16,
                    0 <= b < count,
            ;
            assert((span % count) * (b + 1) >= 0 && (span / count) * (b + 1) >= 0)
                by (nonlinear_arith)
                requires
                    0 <= span % count,
                    0 <= span / count,
                    b >= 0,
            ;
        }
        let bucket_end: usize = start + ((span / count) * (b + 1) + ((span % count) * (b + 1))
            / count);
        assert(bucket_end == bucket_edge(start as int, end as int, b + 1));
        let upper = if b + 1 < count {
            proof {
                lemma_bucket_edges(start as int, end as int, b + 2);
            }
            Bound::Key(index.source().key(bucket_end).clone())
        } else {
            hi.clone()
        };
        let ghost so_far = message::range_views(out@);
        let range = Range::fingerprint(upper, index.fingerprint(bucket_start, bucket_end));
        out.push(range);
        proof {
            assert(range@ == all[b as int]);
            assert(message::range_views(out@) =~= so_far.push(range@));
            assert(before + all.take(b + 1) =~= (before + all.take(b as int)).push(all[b as int]));
        }
        bucket_start = bucket_end;
        b = b + 1;
    }
    assert(all.take(b as int) =~= all);
}

} // verus!
