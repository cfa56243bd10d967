//! How many rounds a range session takes.
//!
//! Every round that defers nothing divides what is still in question by the
//! branching factor, until it is within the listing threshold and listed out: a
//! session whose responses defer no range converges within a handful of rounds.
//! Even division keeps every range stocked, so a responder's set bounds the
//! number of ranges as well, and over a set the message caps can carry no
//! response ever defers one.
use crate::reconcile::engine;
use crate::reconcile::engine::rbsr::caps;
use crate::reconcile::engine::rbsr::fingerprint;
use crate::reconcile::engine::rbsr::initiator;
use crate::reconcile::engine::rbsr::laws;
use crate::reconcile::engine::rbsr::laws::Holdings;
use crate::reconcile::engine::rbsr::message;
use crate::reconcile::engine::rbsr::message::{ModeView, RangeView};
use crate::reconcile::engine::rbsr::responder;
use crate::reconcile::engine::DiffView;
use crate::reconcile::session::MAX_ROUNDS;
use crate::reconcile::source;
use crate::reconcile::source::BoundView;
use vstd::prelude::*;

verus! {

/// Whether every range that carries a fingerprint holds at most `width` of the
/// items of `b`.
pub open spec fn narrowed(b: Holdings, lo: BoundView, ranges: Seq<RangeView>, width: nat) -> bool
    decreases ranges.len(),
{
    ranges.len() == 0 || {
        let hi = ranges[0].upper;
        &&& narrowed(b, hi, ranges.skip(1), width)
        &&& ranges[0].mode is Fingerprint ==> laws::within(b, lo, hi).len() <= width
    }
}

/// Whether no range carries a fingerprint.
pub open spec fn unquestioned(ranges: Seq<RangeView>) -> bool {
    forall|i: int| 0 <= i < ranges.len() ==> !((#[trigger] ranges[i]).mode is Fingerprint)
}

/// Whether a responder defers an incoming range: the fingerprints differ, and the
/// message already holds as many ranges as it may, or a list of the window would
/// take it past the identity bytes it may.
pub open spec fn defers(
    b: Holdings,
    made: nat,
    listed: nat,
    lo: BoundView,
    range: RangeView,
) -> bool {
    let mine = laws::within(b, lo, range.upper);
    match range.mode {
        ModeView::Fingerprint(theirs) => {
            &&& fingerprint::fingerprint_of(mine) != theirs
            &&& made >= caps::MAX_RANGES_PER_MESSAGE || (mine.len() <= caps::ID_LIST_THRESHOLD
                && listed + responder::id_bytes(mine) > caps::MAX_LISTED_ID_BYTES)
        },
        _ => false,
    }
}

/// Whether a responder defers none of the incoming ranges from `lo` up, given what
/// the message holds so far.
pub open spec fn undeferred(
    b: Holdings,
    made: nat,
    listed: nat,
    lo: BoundView,
    incoming: Seq<RangeView>,
) -> bool
    decreases incoming.len(),
{
    incoming.len() == 0 || match responder::refined(
        b.keys,
        b.ids,
        made,
        listed,
        lo,
        incoming[0],
    ) {
        Err(_) => true,
        Ok((ranges, bytes)) => {
            &&& !defers(b, made, listed, lo, incoming[0])
            &&& undeferred(b, made + ranges.len(), bytes, incoming[0].upper, incoming.skip(1))
        },
    }
}

/// The items of `b` from a bound up.
spec fn above(b: Holdings, lo: BoundView) -> Seq<Seq<u8>> {
    b.ids.subrange(source::seek_index(b.keys, lo) as int, b.ids.len() as int)
}

/// Identity bytes add up over concatenation.
proof fn lemma_id_bytes_concat(s: Seq<Seq<u8>>, t: Seq<Seq<u8>>)
    ensures
        responder::id_bytes(s + t) == responder::id_bytes(s) + responder::id_bytes(t),
    decreases t.len(),
{
    if t.len() == 0 {
        assert(s + t =~= s);
    } else {
        assert((s + t).drop_last() =~= s + t.drop_last());
        lemma_id_bytes_concat(s, t.drop_last());
    }
}

/// A bucket holds at most its even share of a window, rounded up, and never fewer
/// items than the floor.
proof fn lemma_bucket_share(start: int, end: int, b: int)
    requires
        0 <= start,
        end - start > caps::ID_LIST_THRESHOLD,
        0 <= b < responder::bucket_count(end - start),
    ensures
        responder::bucket_edge(start, end, b + 1) - responder::bucket_edge(start, end, b) <= (end
            - start + 15) / 16,
        responder::bucket_edge(start, end, b + 1) - responder::bucket_edge(start, end, b)
            >= BUCKET_FLOOR,
{
    let span = end - start;
    let p = span * b;
    assert(span * (b + 1) == p + span) by (nonlinear_arith)
        requires
            p == span * b,
    ;
    assert((p + span) / 16 <= p / 16 + (span + 15) / 16);
    assert((p + span) / 16 >= p / 16 + span / 16);
}

/// The buckets of a window carry fingerprints of at most an even share each.
proof fn lemma_buckets_narrow(b: Holdings, lo: BoundView, hi: BoundView, width: nat, from: int)
    requires
        source::sealed(b.keys, b.ids),
        source::bound_lt(lo, hi),
        ({
            let start = source::seek_index(b.keys, lo) as int;
            let end = source::seek_index(b.keys, hi) as int;
            &&& end - start > caps::ID_LIST_THRESHOLD
            &&& end - start <= width
            &&& 0 <= from <= responder::bucket_count(end - start)
        }),
    ensures
        ({
            let start = source::seek_index(b.keys, lo) as int;
            let end = source::seek_index(b.keys, hi) as int;
            let all = responder::buckets(b.keys, b.ids, start, end, hi);
            let at = if from == 0 {
                lo
            } else if from < responder::bucket_count(end - start) {
                BoundView::Key(b.keys[responder::bucket_edge(start, end, from)])
            } else {
                hi
            };
            narrowed(b, at, all.skip(from), ((width + 15) / 16) as nat)
        }),
    decreases
            responder::bucket_count(
                source::seek_index(b.keys, hi) - source::seek_index(b.keys, lo),
            ) - from,
{
    let start = source::seek_index(b.keys, lo) as int;
    let end = source::seek_index(b.keys, hi) as int;
    let count = responder::bucket_count(end - start);
    let all = responder::buckets(b.keys, b.ids, start, end, hi);
    laws::lemma_window(b, lo, hi);
    if from < count {
        let edge = responder::bucket_edge(start, end, from);
        let next = responder::bucket_edge(start, end, from + 1);
        responder::lemma_bucket_edges(start, end, from);
        responder::lemma_bucket_edges(start, end, from + 1);
        lemma_bucket_share(start, end, from);
        lemma_buckets_narrow(b, lo, hi, width, from + 1);
        let suffix = all.skip(from);
        assert(suffix[0] == all[from]);
        assert(suffix.skip(1) =~= all.skip(from + 1));
        if from > 0 {
            laws::lemma_seek_own_key(b.keys, edge);
        }
        if from + 1 < count {
            responder::lemma_bucket_edges(start, end, from + 2);
            laws::lemma_seek_own_key(b.keys, next);
        }
    } else {
        assert(all.skip(from) =~= Seq::<RangeView>::empty());
    }
}

/// Narrow ranges stay narrow over concatenation.
proof fn lemma_narrowed_concat(
    b: Holdings,
    lo: BoundView,
    hi: BoundView,
    p: Seq<RangeView>,
    rest: Seq<RangeView>,
    width: nat,
)
    requires
        laws::tiles_to(lo, hi, p),
        narrowed(b, lo, p, width),
        narrowed(b, hi, rest, width),
    ensures
        narrowed(b, lo, p + rest, width),
    decreases p.len(),
{
    assert((p + rest)[0] == p[0]);
    assert((p + rest).skip(1) =~= p.skip(1) + rest);
    if p.len() > 1 {
        lemma_narrowed_concat(b, p[0].upper, hi, p.skip(1), rest, width);
    } else {
        assert(p.skip(1) + rest =~= rest);
    }
}

/// A response that defers nothing narrows what it does not settle: past the
/// listing threshold by the branching factor, and within it altogether.
proof fn lemma_response_narrows(
    b: Holdings,
    made: nat,
    listed: nat,
    lo: BoundView,
    ranges: Seq<RangeView>,
    width: nat,
)
    requires
        source::sealed(b.keys, b.ids),
        message::tiles_from(lo, ranges),
        narrowed(b, lo, ranges, width),
        responder::responded(b.keys, b.ids, made, listed, lo, ranges).1 is None,
        undeferred(b, made, listed, lo, ranges),
    ensures
        ({
            let out = responder::responded(b.keys, b.ids, made, listed, lo, ranges).0;
            &&& out.len() >= 1
            &&& narrowed(b, lo, out, ((width + 15) / 16) as nat)
            &&& width <= caps::ID_LIST_THRESHOLD ==> unquestioned(out)
        }),
    decreases ranges.len(),
{
    let range = ranges[0];
    let hi = range.upper;
    laws::lemma_window(b, lo, hi);
    reveal_with_fuel(responder::responded, 2);
    reveal_with_fuel(narrowed, 2);
    let start = source::seek_index(b.keys, lo) as int;
    let end = source::seek_index(b.keys, hi) as int;
    let step = responder::refined(b.keys, b.ids, made, listed, lo, range);
    assert(step is Ok);
    let (piece, bytes) = step->Ok_0;
    let (rest, stopped) = responder::responded(
        b.keys,
        b.ids,
        made + piece.len(),
        bytes,
        hi,
        ranges.skip(1),
    );
    let out = piece + rest;
    assert(piece.len() >= 1);
    if ranges.len() > 1 {
        lemma_response_narrows(b, made + piece.len(), bytes, hi, ranges.skip(1), width);
    } else {
        assert(ranges.skip(1) =~= Seq::<RangeView>::empty());
        assert(rest =~= Seq::<RangeView>::empty());
    }
    let share = ((width + 15) / 16) as nat;
    let split = piece[0].mode is Fingerprint;
    if split {
        assert(piece == responder::buckets(b.keys, b.ids, start, end, hi));
        laws::lemma_buckets(b, lo, hi, 0);
        lemma_buckets_narrow(b, lo, hi, width, 0);
        assert(piece.skip(0) =~= piece);
    } else {
        assert(piece.len() == 1 && piece[0].upper == hi);
        assert(piece.skip(1) =~= Seq::<RangeView>::empty());
        assert(laws::tiles_to(lo, hi, piece));
        assert(narrowed(b, lo, piece, share));
    }
    lemma_narrowed_concat(b, lo, hi, piece, rest, share);
    if width <= caps::ID_LIST_THRESHOLD {
        assert(unquestioned(out)) by {
            assert forall|i: int| 0 <= i < out.len() implies !((
            #[trigger] out[i]).mode is Fingerprint) by {
                if i > 0 {
                    assert(out[i] == rest[i - 1]);
                }
            }
        }
    }
}

/// The initiator asks only about ranges it was asked about.
proof fn lemma_mapping_narrows(
    a: Holdings,
    b: Holdings,
    diff: DiffView,
    lo: BoundView,
    ranges: Seq<RangeView>,
    width: nat,
)
    requires
        narrowed(b, lo, ranges, width),
    ensures
        ({
            let out = initiator::reconciled(a.keys, a.ids, diff, lo, ranges).0;
            &&& narrowed(b, lo, out, width)
            &&& unquestioned(ranges) ==> message::all_skip(out)
        }),
    decreases ranges.len(),
{
    if ranges.len() > 0 {
        let hi = ranges[0].upper;
        let step = initiator::mapped(a.keys, a.ids, diff, lo, ranges[0]);
        if step is Ok {
            let (answer, next) = step->Ok_0;
            lemma_mapping_narrows(a, b, next, hi, ranges.skip(1), width);
            let rest = initiator::reconciled(a.keys, a.ids, next, hi, ranges.skip(1)).0;
            let out = seq![answer] + rest;
            assert(out[0] == answer);
            assert(out.skip(1) =~= rest);
            if unquestioned(ranges) {
                assert(unquestioned(ranges.skip(1))) by {
                    assert forall|i: int| 0 <= i < ranges.skip(1).len() implies !((
                    #[trigger] ranges.skip(1)[i]).mode is Fingerprint) by {
                        assert(ranges.skip(1)[i] == ranges[i + 1]);
                    }
                }
                assert(!(ranges[0].mode is Fingerprint));
                assert forall|i: int| 0 <= i < out.len() implies (
                #[trigger] out[i]).mode is Skip by {
                    if i > 0 {
                        assert(out[i] == rest[i - 1]);
                    }
                }
            }
        }
    }
}

/// What the initiator says, and has learned, after some number of rounds.
pub open spec fn after_rounds(a: Holdings, b: Holdings, rounds: nat) -> (Seq<RangeView>, DiffView)
    decreases rounds,
{
    if rounds == 0 {
        (initiator::opening(a.ids), engine::no_difference())
    } else {
        let (ranges, diff) = after_rounds(a, b, (rounds - 1) as nat);
        let reply = responder::response(b.keys, b.ids, ranges).0;
        let (next, learned, _) = initiator::reconciled(
            a.keys,
            a.ids,
            diff,
            BoundView::Min,
            reply,
        );
        (next, learned)
    }
}

/// After any number of rounds a session stands where it should; and if it has
/// converged, it has learned exactly the true difference.
pub proof fn lemma_session_is_exact(a: Holdings, b: Holdings, rounds: nat)
    requires
        laws::reconcilable(a, b),
    ensures
        laws::conversing(a, b, after_rounds(a, b, rounds).0, after_rounds(a, b, rounds).1),
        message::all_skip(after_rounds(a, b, rounds).0) ==> {
            &&& laws::is_difference(after_rounds(a, b, rounds).1.need, b, a)
            &&& laws::is_difference(after_rounds(a, b, rounds).1.have, a, b)
        },
    decreases rounds,
{
    if rounds == 0 {
        laws::lemma_session_opens(a, b);
    } else {
        let (ranges, diff) = after_rounds(a, b, (rounds - 1) as nat);
        lemma_session_is_exact(a, b, (rounds - 1) as nat);
        laws::lemma_round_keeps_conversing(a, b, ranges, diff);
    }
    let (ranges, diff) = after_rounds(a, b, rounds);
    if message::all_skip(ranges) {
        laws::lemma_convergence_is_exact(a, b, ranges, diff);
    }
}

/// Whether the response to what the initiator says after some number of rounds
/// defers no range.
pub open spec fn round_undeferred(a: Holdings, b: Holdings, rounds: nat) -> bool {
    undeferred(b, 0, 0, BoundView::Min, after_rounds(a, b, rounds).0)
}

/// The largest set a session resolves after so many splits: the listing
/// threshold times a power of the branching factor.
pub open spec fn reach_of(splits: nat) -> nat
    decreases splits,
{
    if splits == 0 {
        caps::ID_LIST_THRESHOLD as nat
    } else {
        caps::BRANCHING_FACTOR as nat * reach_of((splits - 1) as nat)
    }
}

/// How narrow a session that defers nothing has become after some rounds.
proof fn lemma_rounds_narrow(a: Holdings, b: Holdings, splits: nat, rounds: nat)
    requires
        laws::reconcilable(a, b),
        b.ids.len() <= reach_of(splits),
        forall|r: nat| r <= splits ==> #[trigger] round_undeferred(a, b, r),
        rounds <= splits,
    ensures
        narrowed(
            b,
            BoundView::Min,
            after_rounds(a, b, rounds).0,
            reach_of((splits - rounds) as nat),
        ),
    decreases rounds,
{
    source::lemma_seek_ends(b.keys);
    if rounds == 0 {
        let ranges = initiator::opening(a.ids);
        assert(ranges.skip(1) =~= Seq::<RangeView>::empty());
        reveal_with_fuel(narrowed, 2);
    } else {
        let before = (rounds - 1) as nat;
        let (ranges, diff) = after_rounds(a, b, before);
        let width = reach_of((splits - before) as nat);
        lemma_rounds_narrow(a, b, splits, before);
        lemma_session_is_exact(a, b, before);
        laws::lemma_round_keeps_conversing(a, b, ranges, diff);
        assert(round_undeferred(a, b, before));
        lemma_response_narrows(b, 0, 0, BoundView::Min, ranges, width);
        let reply = responder::response(b.keys, b.ids, ranges).0;
        assert((width + 15) / 16 == reach_of((splits - rounds) as nat));
        lemma_mapping_narrows(
            a,
            b,
            diff,
            BoundView::Min,
            reply,
            reach_of((splits - rounds) as nat),
        );
    }
}

/// Rounds are logarithmic in the size of the responder's set: a session none of
/// whose responses defers a range converges, on exactly the true difference, one
/// round after as many splits as it takes to bring the set within the listing
/// threshold.
pub proof fn lemma_rounds_are_logarithmic(a: Holdings, b: Holdings, splits: nat)
    requires
        laws::reconcilable(a, b),
        b.ids.len() <= reach_of(splits),
        forall|r: nat| r <= splits ==> #[trigger] round_undeferred(a, b, r),
    ensures
        message::all_skip(after_rounds(a, b, splits + 1).0),
        laws::is_difference(after_rounds(a, b, splits + 1).1.need, b, a),
        laws::is_difference(after_rounds(a, b, splits + 1).1.have, a, b),
{
    let (ranges, diff) = after_rounds(a, b, splits);
    lemma_rounds_narrow(a, b, splits, splits);
    lemma_session_is_exact(a, b, splits);
    laws::lemma_round_keeps_conversing(a, b, ranges, diff);
    assert(round_undeferred(a, b, splits));
    lemma_response_narrows(
        b,
        0,
        0,
        BoundView::Min,
        ranges,
        caps::ID_LIST_THRESHOLD as nat,
    );
    let reply = responder::response(b.keys, b.ids, ranges).0;
    lemma_mapping_narrows(
        a,
        b,
        diff,
        BoundView::Min,
        reply,
        ((caps::ID_LIST_THRESHOLD + 15) / 16) as nat,
    );
    assert(((splits + 1) - 1) as nat == splits);
    lemma_session_is_exact(a, b, splits + 1);
}

/// Four rounds are enough for any session none of whose responses defers a range,
/// over a set of up to a quarter of a million items; far fewer than a session
/// allows.
pub proof fn lemma_four_rounds_suffice(a: Holdings, b: Holdings)
    requires
        laws::reconcilable(a, b),
        b.ids.len() <= 262_144,
        forall|r: nat| r <= 3 ==> #[trigger] round_undeferred(a, b, r),
    ensures
        4 <= MAX_ROUNDS,
        message::all_skip(after_rounds(a, b, 4).0),
        laws::is_difference(after_rounds(a, b, 4).1.need, b, a),
        laws::is_difference(after_rounds(a, b, 4).1.have, a, b),
{
    reveal_with_fuel(reach_of, 4);
    lemma_rounds_are_logarithmic(a, b, 3);
}

/// A session allows enough rounds for a set of any size a machine can hold, if no
/// response defers a range.
pub proof fn lemma_rounds_are_ample(a: Holdings, b: Holdings)
    requires
        laws::reconcilable(a, b),
        b.ids.len() <= usize::MAX,
        forall|r: nat| r <= 15 ==> #[trigger] round_undeferred(a, b, r),
    ensures
        16 <= MAX_ROUNDS,
        message::all_skip(after_rounds(a, b, 16).0),
        laws::is_difference(after_rounds(a, b, 16).1.need, b, a),
        laws::is_difference(after_rounds(a, b, 16).1.have, a, b),
{
    reveal_with_fuel(reach_of, 16);
    lemma_rounds_are_logarithmic(a, b, 15);
}

/// The fewest items an even bucket of a window past the listing threshold holds.
pub const BUCKET_FLOOR: usize = 4;

/// Whether every range holds at least [`BUCKET_FLOOR`] of the items of `b`.
pub open spec fn stocked(b: Holdings, lo: BoundView, ranges: Seq<RangeView>) -> bool
    decreases ranges.len(),
{
    ranges.len() == 0 || {
        let hi = ranges[0].upper;
        &&& laws::within(b, lo, hi).len() >= BUCKET_FLOOR
        &&& stocked(b, hi, ranges.skip(1))
    }
}

/// Stocked ranges are few: each takes its share of the set.
pub proof fn lemma_stocked_are_few(b: Holdings, lo: BoundView, ranges: Seq<RangeView>)
    requires
        source::sealed(b.keys, b.ids),
        ranges.len() > 0 ==> message::tiles_from(lo, ranges),
        stocked(b, lo, ranges),
    ensures
        BUCKET_FLOOR * ranges.len() <= b.ids.len() - source::seek_index(b.keys, lo),
    decreases ranges.len(),
{
    source::lemma_seek_splits(b.keys, lo);
    if ranges.len() > 0 {
        let hi = ranges[0].upper;
        laws::lemma_window(b, lo, hi);
        lemma_stocked_are_few(b, hi, ranges.skip(1));
    }
}

/// The buckets of a window past the listing threshold are stocked.
proof fn lemma_buckets_stocked(b: Holdings, lo: BoundView, hi: BoundView, from: int)
    requires
        source::sealed(b.keys, b.ids),
        source::bound_lt(lo, hi),
        ({
            let start = source::seek_index(b.keys, lo) as int;
            let end = source::seek_index(b.keys, hi) as int;
            &&& end - start > caps::ID_LIST_THRESHOLD
            &&& 0 <= from <= responder::bucket_count(end - start)
        }),
    ensures
        ({
            let start = source::seek_index(b.keys, lo) as int;
            let end = source::seek_index(b.keys, hi) as int;
            let all = responder::buckets(b.keys, b.ids, start, end, hi);
            let at = if from == 0 {
                lo
            } else if from < responder::bucket_count(end - start) {
                BoundView::Key(b.keys[responder::bucket_edge(start, end, from)])
            } else {
                hi
            };
            stocked(b, at, all.skip(from))
        }),
    decreases
            responder::bucket_count(
                source::seek_index(b.keys, hi) - source::seek_index(b.keys, lo),
            ) - from,
{
    let start = source::seek_index(b.keys, lo) as int;
    let end = source::seek_index(b.keys, hi) as int;
    let count = responder::bucket_count(end - start);
    let all = responder::buckets(b.keys, b.ids, start, end, hi);
    laws::lemma_window(b, lo, hi);
    if from < count {
        let edge = responder::bucket_edge(start, end, from);
        let next = responder::bucket_edge(start, end, from + 1);
        responder::lemma_bucket_edges(start, end, from);
        responder::lemma_bucket_edges(start, end, from + 1);
        lemma_bucket_share(start, end, from);
        lemma_buckets_stocked(b, lo, hi, from + 1);
        let suffix = all.skip(from);
        assert(suffix[0] == all[from]);
        assert(suffix.skip(1) =~= all.skip(from + 1));
        if from > 0 {
            laws::lemma_seek_own_key(b.keys, edge);
        }
        if from + 1 < count {
            responder::lemma_bucket_edges(start, end, from + 2);
            laws::lemma_seek_own_key(b.keys, next);
        }
    } else {
        assert(all.skip(from) =~= Seq::<RangeView>::empty());
    }
}

/// Stocked ranges stay stocked over concatenation.
proof fn lemma_stocked_concat(
    b: Holdings,
    lo: BoundView,
    hi: BoundView,
    p: Seq<RangeView>,
    rest: Seq<RangeView>,
)
    requires
        laws::tiles_to(lo, hi, p),
        stocked(b, lo, p),
        stocked(b, hi, rest),
    ensures
        stocked(b, lo, p + rest),
    decreases p.len(),
{
    assert((p + rest)[0] == p[0]);
    assert((p + rest).skip(1) =~= p.skip(1) + rest);
    if p.len() > 1 {
        lemma_stocked_concat(b, p[0].upper, hi, p.skip(1), rest);
    } else {
        assert(p.skip(1) + rest =~= rest);
    }
}

/// A response to stocked ranges is stocked, whatever it refines or defers.
proof fn lemma_response_stocked(
    b: Holdings,
    made: nat,
    listed: nat,
    lo: BoundView,
    ranges: Seq<RangeView>,
)
    requires
        source::sealed(b.keys, b.ids),
        message::tiles_from(lo, ranges),
        stocked(b, lo, ranges),
        responder::responded(b.keys, b.ids, made, listed, lo, ranges).1 is None,
    ensures
        stocked(b, lo, responder::responded(b.keys, b.ids, made, listed, lo, ranges).0),
    decreases ranges.len(),
{
    let range = ranges[0];
    let hi = range.upper;
    laws::lemma_window(b, lo, hi);
    reveal_with_fuel(responder::responded, 2);
    reveal_with_fuel(stocked, 2);
    let start = source::seek_index(b.keys, lo) as int;
    let end = source::seek_index(b.keys, hi) as int;
    let step = responder::refined(b.keys, b.ids, made, listed, lo, range);
    assert(step is Ok);
    let (piece, bytes) = step->Ok_0;
    let rest = responder::responded(
        b.keys,
        b.ids,
        made + piece.len(),
        bytes,
        hi,
        ranges.skip(1),
    ).0;
    if ranges.len() > 1 {
        lemma_response_stocked(b, made + piece.len(), bytes, hi, ranges.skip(1));
    } else {
        assert(ranges.skip(1) =~= Seq::<RangeView>::empty());
        assert(rest =~= Seq::<RangeView>::empty());
    }
    if piece.len() == 1 && piece[0].upper == hi {
        assert(piece.skip(1) =~= Seq::<RangeView>::empty());
        assert(laws::tiles_to(lo, hi, piece));
    } else {
        assert(piece == responder::buckets(b.keys, b.ids, start, end, hi));
        laws::lemma_buckets(b, lo, hi, 0);
        lemma_buckets_stocked(b, lo, hi, 0);
        assert(piece.skip(0) =~= piece);
    }
    lemma_stocked_concat(b, lo, hi, piece, rest);
}

/// The initiator keeps ranges stocked, because it keeps their bounds.
proof fn lemma_mapping_stocked(
    a: Holdings,
    b: Holdings,
    diff: DiffView,
    lo: BoundView,
    ranges: Seq<RangeView>,
)
    requires
        stocked(b, lo, ranges),
    ensures
        stocked(b, lo, initiator::reconciled(a.keys, a.ids, diff, lo, ranges).0),
    decreases ranges.len(),
{
    if ranges.len() > 0 {
        let hi = ranges[0].upper;
        let step = initiator::mapped(a.keys, a.ids, diff, lo, ranges[0]);
        if step is Ok {
            let (answer, next) = step->Ok_0;
            lemma_mapping_stocked(a, b, next, hi, ranges.skip(1));
            let rest = initiator::reconciled(a.keys, a.ids, next, hi, ranges.skip(1)).0;
            let out = seq![answer] + rest;
            assert(out[0] == answer);
            assert(out.skip(1) =~= rest);
        }
    }
}

/// Whatever the round, the ranges in play are one alone or all stocked, and so is
/// the response to them.
pub proof fn lemma_rounds_stay_stocked(a: Holdings, b: Holdings, rounds: nat)
    requires
        laws::reconcilable(a, b),
    ensures
        ({
            let ranges = after_rounds(a, b, rounds).0;
            let reply = responder::response(b.keys, b.ids, ranges).0;
            &&& ranges.len() <= 1 || stocked(b, BoundView::Min, ranges)
            &&& reply.len() <= 1 || stocked(b, BoundView::Min, reply)
        }),
    decreases rounds,
{
    let (ranges, diff) = after_rounds(a, b, rounds);
    lemma_session_is_exact(a, b, rounds);
    if rounds > 0 {
        let before = (rounds - 1) as nat;
        let (earlier, learned) = after_rounds(a, b, before);
        lemma_rounds_stay_stocked(a, b, before);
        let heard = responder::response(b.keys, b.ids, earlier).0;
        laws::lemma_initiator_keeps_the_bounds(a, learned, BoundView::Min, heard);
        if heard.len() > 1 {
            lemma_mapping_stocked(a, b, learned, BoundView::Min, heard);
        }
    }
    laws::lemma_round_keeps_conversing(a, b, ranges, diff);
    if ranges.len() == 1 && !stocked(b, BoundView::Min, ranges) {
        laws::lemma_window(b, BoundView::Min, ranges[0].upper);
        assert(ranges.skip(1) =~= Seq::<RangeView>::empty());
        reveal_with_fuel(responder::responded, 2);
        reveal_with_fuel(stocked, 2);
    } else if ranges.len() > 0 {
        lemma_response_stocked(b, 0, 0, BoundView::Min, ranges);
    }
}

/// A response that keeps within the message caps defers nothing.
proof fn lemma_within_caps(
    b: Holdings,
    made: nat,
    listed: nat,
    lo: BoundView,
    ranges: Seq<RangeView>,
)
    requires
        source::sealed(b.keys, b.ids),
        message::tiles_from(lo, ranges),
        responder::responded(b.keys, b.ids, made, listed, lo, ranges).1 is None,
        made + responder::responded(b.keys, b.ids, made, listed, lo, ranges).0.len()
            <= caps::MAX_RANGES_PER_MESSAGE,
        listed + responder::id_bytes(above(b, lo)) <= caps::MAX_LISTED_ID_BYTES,
    ensures
        undeferred(b, made, listed, lo, ranges),
    decreases ranges.len(),
{
    let hi = ranges[0].upper;
    laws::lemma_window(b, lo, hi);
    reveal_with_fuel(responder::responded, 2);
    reveal_with_fuel(undeferred, 2);
    let step = responder::refined(b.keys, b.ids, made, listed, lo, ranges[0]);
    assert(step is Ok);
    let (piece, bytes) = step->Ok_0;
    assert(piece.len() >= 1);
    assert(above(b, lo) =~= laws::within(b, lo, hi) + above(b, hi));
    lemma_id_bytes_concat(laws::within(b, lo, hi), above(b, hi));
    if ranges.len() > 1 {
        lemma_within_caps(b, made + piece.len(), bytes, hi, ranges.skip(1));
    }
}

/// No response to a session over a set the message caps can carry defers a range.
///
/// The caps carry a set of at most [`BUCKET_FLOOR`] times
/// [`caps::MAX_RANGES_PER_MESSAGE`] items whose identities fit
/// [`caps::MAX_LISTED_ID_BYTES`].
pub proof fn lemma_caps_carry(a: Holdings, b: Holdings, rounds: nat)
    requires
        laws::reconcilable(a, b),
        b.ids.len() <= BUCKET_FLOOR * caps::MAX_RANGES_PER_MESSAGE,
        responder::id_bytes(b.ids) <= caps::MAX_LISTED_ID_BYTES,
    ensures
        round_undeferred(a, b, rounds),
{
    let (ranges, diff) = after_rounds(a, b, rounds);
    let reply = responder::response(b.keys, b.ids, ranges).0;
    source::lemma_seek_ends(b.keys);
    lemma_rounds_stay_stocked(a, b, rounds);
    lemma_session_is_exact(a, b, rounds);
    laws::lemma_round_keeps_conversing(a, b, ranges, diff);
    laws::lemma_responder_keeps_the_tiling(b, ranges);
    if reply.len() > 1 {
        lemma_stocked_are_few(b, BoundView::Min, reply);
    }
    assert(above(b, BoundView::Min) =~= b.ids);
    if ranges.len() > 0 {
        lemma_within_caps(b, 0, 0, BoundView::Min, ranges);
    }
}

/// Four rounds are enough for any set the message caps can carry.
pub proof fn lemma_carried_sets_converge(a: Holdings, b: Holdings)
    requires
        laws::reconcilable(a, b),
        b.ids.len() <= BUCKET_FLOOR * caps::MAX_RANGES_PER_MESSAGE,
        responder::id_bytes(b.ids) <= caps::MAX_LISTED_ID_BYTES,
    ensures
        message::all_skip(after_rounds(a, b, 4).0),
        laws::is_difference(after_rounds(a, b, 4).1.need, b, a),
        laws::is_difference(after_rounds(a, b, 4).1.have, a, b),
{
    assert forall|r: nat| r <= 3 implies #[trigger] round_undeferred(a, b, r) by {
        lemma_caps_carry(a, b, r);
    }
    lemma_four_rounds_suffice(a, b);
}

} // verus!
