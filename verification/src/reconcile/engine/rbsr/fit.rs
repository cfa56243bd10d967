//! When what a range engine says fits a frame.
//!
//! A range takes its bound, and either a fingerprint or a list. The message caps
//! bound how many ranges a response adds and how many identities it lists, but not
//! how long a bound is: a peer's identities decide that. So a response fits a frame
//! where bounds of their width, as many as there can be, fit beside the lists.
use crate::reconcile::cbor;
use crate::reconcile::cbor::CborView;
use crate::reconcile::codec::{FRAME_OVERHEAD, MAX_FRAME_BYTES};
use crate::reconcile::engine::rbsr::caps;
use crate::reconcile::engine::rbsr::fingerprint;
use crate::reconcile::engine::rbsr::initiator;
use crate::reconcile::engine::rbsr::laws;
use crate::reconcile::engine::rbsr::laws::Holdings;
use crate::reconcile::engine::rbsr::message;
use crate::reconcile::engine::rbsr::message::{Mode, ModeView, Range, RangeView, RbsrMessage};
use crate::reconcile::engine::rbsr::responder;
use crate::reconcile::engine::rbsr::rounds;
use crate::reconcile::engine::rbsr::wire;
use crate::reconcile::engine::DiffView;
use crate::reconcile::source;
use crate::reconcile::source::BoundView;
use vstd::prelude::*;

verus! {

/// Most bytes a range takes besides its key and the identities it lists.
pub const RANGE_OVERHEAD: usize = 53;

/// Most bytes a message takes besides its ranges.
pub const MESSAGE_OVERHEAD: usize = 17;

/// Whether the key of a bound takes no more than `width` bytes.
pub open spec fn bound_within(bound: BoundView, width: nat) -> bool {
    bound matches BoundView::Key(key) ==> key.len() <= width
}

/// Whether no key ranges end on takes more than `width` bytes.
pub open spec fn bounds_within(ranges: Seq<RangeView>, width: nat) -> bool {
    forall|i: int| 0 <= i < ranges.len() ==> bound_within((#[trigger] ranges[i]).upper, width)
}

/// Whether no key and no identity of a set takes more than `width` bytes.
pub open spec fn slender(h: Holdings, width: nat) -> bool {
    &&& forall|i: int| 0 <= i < h.keys.len() ==> (#[trigger] h.keys[i]).len() <= width
    &&& forall|i: int| 0 <= i < h.ids.len() ==> (#[trigger] h.ids[i]).len() <= width
}

/// Whether a range lists no more identities, and none wider, than it may.
pub open spec fn list_within(range: RangeView, width: nat) -> bool {
    range.mode matches ModeView::IdList(ids) ==> {
        &&& ids.len() <= caps::MAX_IDS_PER_RANGE
        &&& forall|i: int| 0 <= i < ids.len() ==> (#[trigger] ids[i]).len() <= width
    }
}

/// Whether no range lists more identities, and none wider, than it may.
pub open spec fn lists_within(ranges: Seq<RangeView>, width: nat) -> bool {
    forall|i: int| 0 <= i < ranges.len() ==> list_within(#[trigger] ranges[i], width)
}

/// Whether every fingerprint has its whole length, as those of every message do.
pub open spec fn sound(ranges: Seq<RangeView>) -> bool {
    forall|i: int| 0 <= i < ranges.len() ==> wire::mode_sound((#[trigger] ranges[i]).mode)
}

/// The fingerprints of a message have their whole length.
pub proof fn lemma_messages_are_sound(message: RbsrMessage)
    ensures
        sound(message@),
{
    message::lemma_message_has_ranges(message);
    let ranges = choose|ranges: Seq<Range>| message@ == #[trigger] message::range_views(ranges);
    assert forall|i: int| 0 <= i < message@.len() implies wire::mode_sound(
        (#[trigger] message@[i]).mode,
    ) by {
        if let Mode::Fingerprint(fingerprint) = ranges[i].mode {
            fingerprint::lemma_fingerprint_len(fingerprint);
        }
    }
}

/// The identities a run of ranges lists.
pub open spec fn listed_ids(ranges: Seq<RangeView>) -> nat
    decreases ranges.len(),
{
    if ranges.len() == 0 {
        0
    } else {
        listed_ids(ranges.drop_last()) + match ranges.last().mode {
            ModeView::IdList(ids) => ids.len(),
            _ => 0,
        }
    }
}

/// Whether a message is sure to encode.
pub open spec fn fits(ranges: Seq<RangeView>) -> bool {
    cbor::bulk(wire::message_written(ranges)) + FRAME_OVERHEAD <= MAX_FRAME_BYTES
}

/// What a run of identities takes: their bytes, and a head each.
proof fn lemma_ids_bulk(ids: Seq<Seq<u8>>, width: nat)
    requires
        forall|i: int| 0 <= i < ids.len() ==> (#[trigger] ids[i]).len() <= width,
    ensures
        cbor::bulk_items(wire::ids_written(ids)) <= responder::id_bytes(ids) + ids.len()
            * cbor::head(width as int),
    decreases ids.len(),
{
    let items = wire::ids_written(ids);
    let each = cbor::head(width as int);
    if ids.len() > 0 {
        let rest = ids.drop_last();
        assert forall|i: int| 0 <= i < rest.len() implies (#[trigger] rest[i]).len() <= width by {
            assert(rest[i] == ids[i]);
        }
        lemma_ids_bulk(rest, width);
        assert(items.drop_last() =~= wire::ids_written(rest));
        assert(ids.last() == ids[ids.len() - 1]);
        assert(items[items.len() - 1] == CborView::Bytes(ids.last()));
        assert(cbor::bulk(CborView::Bytes(ids.last())) <= each + ids.last().len());
        assert(ids.len() * each == rest.len() * each + each) by (nonlinear_arith)
            requires
                ids.len() == rest.len() + 1,
        ;
    } else {
        assert(ids.len() * each == 0) by (nonlinear_arith)
            requires
                ids.len() == 0,
        ;
    }
}

/// What a range takes: little more than its key and the identities it lists.
proof fn lemma_range_bulk(range: RangeView, width: nat)
    requires
        bound_within(range.upper, width),
        list_within(range, width),
        wire::mode_sound(range.mode),
    ensures
        cbor::bulk(wire::range_written(range)) <= RANGE_OVERHEAD + cbor::head(width as int) + width
            + match range.mode {
            ModeView::IdList(ids) => responder::id_bytes(ids) + ids.len() * cbor::head(
                width as int,
            ),
            _ => 0,
        },
{
    reveal_strlit("upper_bound");
    reveal_strlit("mode");
    reveal_strlit("Min");
    reveal_strlit("Max");
    reveal_strlit("Key");
    reveal_strlit("Skip");
    reveal_strlit("Fingerprint");
    reveal_strlit("IdList");
    assert(cbor::short("upper_bound"@) && cbor::short("mode"@));
    assert(cbor::short("Min"@) && cbor::short("Max"@) && cbor::short("Key"@));
    assert(cbor::short("Skip"@) && cbor::short("Fingerprint"@) && cbor::short("IdList"@));
    let upper = wire::bound_written(range.upper);
    let mode = wire::mode_written(range.mode);
    let one = seq![cbor::entry("upper_bound"@, upper)];
    cbor::lemma_bulk1("upper_bound"@, upper);
    cbor::lemma_bulk_push(one, "mode"@, mode);
    assert(one.push(cbor::entry("mode"@, mode)) =~= seq![
        cbor::entry("upper_bound"@, upper),
        cbor::entry("mode"@, mode),
    ]);
    match range.upper {
        BoundView::Min => cbor::lemma_bulk_name("Min"@),
        BoundView::Max => cbor::lemma_bulk_name("Max"@),
        BoundView::Key(key) => cbor::lemma_bulk1("Key"@, CborView::Bytes(key)),
    }
    match range.mode {
        ModeView::Skip => cbor::lemma_bulk_name("Skip"@),
        ModeView::Fingerprint(digest) => cbor::lemma_bulk1("Fingerprint"@, CborView::Bytes(digest)),
        ModeView::IdList(ids) => {
            cbor::lemma_bulk1("IdList"@, CborView::Array(wire::ids_written(ids)));
            lemma_ids_bulk(ids, width);
        },
    }
}

/// What a run of ranges takes.
proof fn lemma_ranges_bulk(ranges: Seq<RangeView>, width: nat)
    requires
        bounds_within(ranges, width),
        lists_within(ranges, width),
        sound(ranges),
    ensures
        cbor::bulk_items(wire::ranges_written(ranges)) <= ranges.len() * (RANGE_OVERHEAD
            + cbor::head(width as int) + width) + listed_ids(ranges) * cbor::head(width as int)
            + laws::listed_bytes(ranges),
    decreases ranges.len(),
{
    let items = wire::ranges_written(ranges);
    let head = cbor::head(width as int);
    let each = RANGE_OVERHEAD + head + width;
    if ranges.len() > 0 {
        let rest = ranges.drop_last();
        let last = ranges[ranges.len() - 1];
        assert forall|i: int| 0 <= i < rest.len() implies {
            &&& bound_within((#[trigger] rest[i]).upper, width)
            &&& list_within(rest[i], width)
            &&& wire::mode_sound(rest[i].mode)
        } by {
            assert(rest[i] == ranges[i]);
        }
        lemma_ranges_bulk(rest, width);
        lemma_range_bulk(last, width);
        assert(items.drop_last() =~= wire::ranges_written(rest));
        assert(items[items.len() - 1] == wire::range_written(last));
        assert(ranges.len() * each == rest.len() * each + each) by (nonlinear_arith)
            requires
                ranges.len() == rest.len() + 1,
        ;
        let more = listed_ids(ranges) - listed_ids(rest);
        assert(listed_ids(ranges) * head == listed_ids(rest) * head + more * head)
            by (nonlinear_arith)
            requires
                listed_ids(ranges) == listed_ids(rest) + more,
        ;
        if !(last.mode is IdList) {
            assert(more * head == 0) by (nonlinear_arith)
                requires
                    more == 0,
            ;
        }
    } else {
        assert(ranges.len() * each == 0 && listed_ids(ranges) * head == 0) by (nonlinear_arith)
            requires
                ranges.len() == 0,
                listed_ids(ranges) == 0,
        ;
    }
}

/// What a message takes: no more than its ranges with keys of the greatest width,
/// and what it lists.
pub proof fn lemma_message_bulk(ranges: Seq<RangeView>, width: nat)
    requires
        bounds_within(ranges, width),
        lists_within(ranges, width),
        sound(ranges),
    ensures
        cbor::bulk(wire::message_written(ranges)) <= MESSAGE_OVERHEAD + ranges.len() * (
        RANGE_OVERHEAD + cbor::head(width as int) + width) + listed_ids(ranges) * cbor::head(
            width as int,
        ) + laws::listed_bytes(ranges),
{
    reveal_strlit("ranges");
    assert(cbor::short("ranges"@));
    cbor::lemma_bulk1("ranges"@, CborView::Array(wire::ranges_written(ranges)));
    lemma_ranges_bulk(ranges, width);
}

/// Listed identities add up over concatenation.
proof fn lemma_listed_ids_concat(p: Seq<RangeView>, rest: Seq<RangeView>)
    ensures
        listed_ids(p + rest) == listed_ids(p) + listed_ids(rest),
    decreases rest.len(),
{
    if rest.len() == 0 {
        assert(p + rest =~= p);
    } else {
        assert((p + rest).drop_last() =~= p + rest.drop_last());
        lemma_listed_ids_concat(p, rest.drop_last());
    }
}

/// Fingerprints list nothing.
proof fn lemma_no_ids_listed(ranges: Seq<RangeView>)
    requires
        forall|i: int| 0 <= i < ranges.len() ==> !((#[trigger] ranges[i]).mode is IdList),
    ensures
        listed_ids(ranges) == 0,
    decreases ranges.len(),
{
    if ranges.len() > 0 {
        assert(!(ranges[ranges.len() - 1].mode is IdList));
        assert forall|i: int| 0 <= i < ranges.drop_last().len() implies !((
        #[trigger] ranges.drop_last()[i]).mode is IdList) by {
            assert(ranges.drop_last()[i] == ranges[i]);
        }
        lemma_no_ids_listed(ranges.drop_last());
    }
}

/// What the responder answers to one range ends on keys, and lists identities, of
/// no more than a width; and it lists only below the range cap.
proof fn lemma_refined_within(
    h: Holdings,
    made: nat,
    listed: nat,
    lo: BoundView,
    range: RangeView,
    width: nat,
)
    requires
        source::sealed(h.keys, h.ids),
        slender(h, width),
        bound_within(range.upper, width),
    ensures
        responder::refined(h.keys, h.ids, made, listed, lo, range) matches Ok((piece, _)) ==> {
            &&& bounds_within(piece, width)
            &&& lists_within(piece, width)
            &&& 1 <= piece.len() <= caps::BRANCHING_FACTOR
            &&& listed_ids(piece) <= caps::MAX_IDS_PER_RANGE
            &&& made >= caps::MAX_RANGES_PER_MESSAGE ==> listed_ids(piece) == 0
        },
{
    let hi = range.upper;
    let start = source::seek_index(h.keys, lo) as int;
    let end = source::seek_index(h.keys, hi) as int;
    match responder::refined(h.keys, h.ids, made, listed, lo, range) {
        Ok((piece, _)) => {
            source::lemma_seek_splits(h.keys, hi);
            source::lemma_seek_monotonic(h.keys, lo, hi);
            if piece.len() == 1 && piece[0].upper == hi {
                assert(piece.drop_last() =~= Seq::<RangeView>::empty());
                reveal_with_fuel(listed_ids, 2);
            } else {
                assert(piece == responder::buckets(h.keys, h.ids, start, end, hi));
                lemma_no_ids_listed(piece);
                assert forall|i: int| 0 <= i < piece.len() implies bound_within(
                    (#[trigger] piece[i]).upper,
                    width,
                ) by {
                    responder::lemma_bucket_edges(start, end, i + 1);
                    if i + 1 < piece.len() {
                        responder::lemma_bucket_edges(start, end, i + 2);
                    }
                }
            }
        },
        Err(_) => {},
    }
}

/// What a response adds to a message that holds some ranges already.
proof fn lemma_responded_within(
    h: Holdings,
    made: nat,
    listed: nat,
    lo: BoundView,
    incoming: Seq<RangeView>,
    width: nat,
)
    requires
        source::sealed(h.keys, h.ids),
        slender(h, width),
        bounds_within(incoming, width),
    ensures
        ({
            let out = responder::responded(h.keys, h.ids, made, listed, lo, incoming).0;
            &&& bounds_within(out, width)
            &&& lists_within(out, width)
            &&& out.len() <= caps::BRANCHING_FACTOR * incoming.len()
            &&& listed_ids(out) <= caps::MAX_IDS_PER_RANGE * incoming.len()
            &&& listed_ids(out) <= (if made < caps::MAX_RANGES_PER_MESSAGE {
                caps::MAX_IDS_PER_RANGE * (caps::MAX_RANGES_PER_MESSAGE - made)
            } else {
                0
            })
        }),
    decreases incoming.len(),
{
    if incoming.len() > 0 {
        let hi = incoming[0].upper;
        lemma_refined_within(h, made, listed, lo, incoming[0], width);
        match responder::refined(h.keys, h.ids, made, listed, lo, incoming[0]) {
            Ok((piece, bytes)) => {
                let later = incoming.skip(1);
                let rest = responder::responded(
                    h.keys,
                    h.ids,
                    made + piece.len(),
                    bytes,
                    hi,
                    later,
                ).0;
                let out = piece + rest;
                assert forall|i: int| 0 <= i < later.len() implies bound_within(
                    (#[trigger] later[i]).upper,
                    width,
                ) by {
                    assert(later[i] == incoming[i + 1]);
                }
                lemma_responded_within(h, made + piece.len(), bytes, hi, later, width);
                lemma_listed_ids_concat(piece, rest);
                assert forall|i: int| 0 <= i < out.len() implies {
                    &&& bound_within((#[trigger] out[i]).upper, width)
                    &&& list_within(out[i], width)
                } by {
                    if i < piece.len() {
                        assert(out[i] == piece[i]);
                    } else {
                        assert(out[i] == rest[i - piece.len()]);
                    }
                }
            },
            Err(_) => {},
        }
    }
}

/// Most ranges a response to `n` ranges holds: each is divided at most once, and
/// past [`caps::MAX_RANGES_PER_MESSAGE`] ranges none is.
pub open spec fn most_ranges(n: nat) -> nat {
    let full = (caps::MAX_RANGES_PER_MESSAGE + caps::BRANCHING_FACTOR - 1) as nat + n;
    let divided = caps::BRANCHING_FACTOR as nat * n;
    if divided < full {
        divided
    } else {
        full
    }
}

/// Most identities a response to `n` ranges lists.
pub open spec fn most_ids(n: nat) -> nat {
    caps::MAX_IDS_PER_RANGE as nat * if n < caps::MAX_RANGES_PER_MESSAGE {
        n
    } else {
        caps::MAX_RANGES_PER_MESSAGE as nat
    }
}

/// Most bytes a message of so many ranges and so many listed identities takes, with
/// keys and identities of no more than `width` bytes.
pub open spec fn most_bytes(ranges: nat, ids: nat, width: nat) -> nat {
    MESSAGE_OVERHEAD as nat + ranges * (RANGE_OVERHEAD as nat + cbor::head(width as int) + width)
        + ids * cbor::head(width as int) + caps::MAX_LISTED_ID_BYTES as nat
}

/// A response, whatever it answers, takes no more bytes than the number of incoming
/// ranges and the width of keys and identities allow; so it fits a frame where they
/// do.
pub proof fn lemma_response_fits(h: Holdings, incoming: Seq<RangeView>, width: nat)
    requires
        source::sealed(h.keys, h.ids),
        slender(h, width),
        bounds_within(incoming, width),
        sound(responder::response(h.keys, h.ids, incoming).0),
    ensures
        ({
            let out = responder::response(h.keys, h.ids, incoming).0;
            let most = most_bytes(most_ranges(incoming.len()), most_ids(incoming.len()), width);
            &&& cbor::bulk(wire::message_written(out)) <= most
            &&& most + FRAME_OVERHEAD <= MAX_FRAME_BYTES ==> fits(out)
        }),
{
    let out = responder::response(h.keys, h.ids, incoming).0;
    let n = incoming.len();
    let head = cbor::head(width as int);
    let each = RANGE_OVERHEAD as nat + head + width;
    laws::lemma_response_is_bounded(h, incoming);
    lemma_responded_within(h, 0, 0, BoundView::Min, incoming, width);
    lemma_message_bulk(out, width);
    assert(out.len() * each <= most_ranges(n) * each) by (nonlinear_arith)
        requires
            out.len() <= most_ranges(n),
    ;
    assert(listed_ids(out) * head <= most_ids(n) * head) by (nonlinear_arith)
        requires
            listed_ids(out) <= most_ids(n),
    ;
}

/// Keys and identities of up to 128 bytes, and an incoming message of up to
/// [`caps::MAX_RANGES_PER_MESSAGE`] ranges: the response fits a frame.
pub proof fn lemma_ordinary_response_fits(h: Holdings, incoming: Seq<RangeView>)
    requires
        source::sealed(h.keys, h.ids),
        slender(h, 128),
        bounds_within(incoming, 128),
        incoming.len() <= caps::MAX_RANGES_PER_MESSAGE,
        sound(responder::response(h.keys, h.ids, incoming).0),
    ensures
        fits(responder::response(h.keys, h.ids, incoming).0),
{
    let n = incoming.len();
    let each = RANGE_OVERHEAD as nat + cbor::head(128) + 128;
    lemma_response_fits(h, incoming, 128);
    assert(most_ranges(n) * each <= 32783 * 183) by (nonlinear_arith)
        requires
            most_ranges(n) <= 32783,
            each == 183,
    ;
}

/// Keys and identities of up to 1040 bytes, and an incoming message of up to 470
/// ranges: the response fits a frame.
pub proof fn lemma_wide_response_fits(h: Holdings, incoming: Seq<RangeView>)
    requires
        source::sealed(h.keys, h.ids),
        slender(h, 1040),
        bounds_within(incoming, 1040),
        incoming.len() <= 470,
        sound(responder::response(h.keys, h.ids, incoming).0),
    ensures
        fits(responder::response(h.keys, h.ids, incoming).0),
{
    let n = incoming.len();
    let each = RANGE_OVERHEAD as nat + cbor::head(1040) + 1040;
    lemma_response_fits(h, incoming, 1040);
    assert(most_ranges(n) * each <= 7520 * 1096) by (nonlinear_arith)
        requires
            most_ranges(n) <= 7520,
            each == 1096,
    ;
}

/// The initiator lists nothing.
proof fn lemma_initiator_lists_nothing(
    h: Holdings,
    diff: DiffView,
    lo: BoundView,
    incoming: Seq<RangeView>,
)
    ensures
        ({
            let out = initiator::reconciled(h.keys, h.ids, diff, lo, incoming).0;
            forall|i: int| 0 <= i < out.len() ==> !((#[trigger] out[i]).mode is IdList)
        }),
    decreases incoming.len(),
{
    if incoming.len() > 0 {
        match initiator::mapped(h.keys, h.ids, diff, lo, incoming[0]) {
            Ok((answer, next)) => {
                let hi = incoming[0].upper;
                lemma_initiator_lists_nothing(h, next, hi, incoming.skip(1));
                let rest = initiator::reconciled(h.keys, h.ids, next, hi, incoming.skip(1)).0;
                let out = seq![answer] + rest;
                assert forall|i: int| 0 <= i < out.len() implies !((
                #[trigger] out[i]).mode is IdList) by {
                    if i > 0 {
                        assert(out[i] == rest[i - 1]);
                    }
                }
            },
            Err(_) => {},
        }
    }
}

/// Whatever the round, ranges end on keys of the responder's set alone, and the
/// initiator lists nothing.
proof fn lemma_rounds_within(a: Holdings, b: Holdings, rounds: nat, width: nat)
    requires
        source::sealed(b.keys, b.ids),
        slender(b, width),
    ensures
        ({
            let ranges = rounds::after_rounds(a, b, rounds).0;
            &&& bounds_within(ranges, width)
            &&& forall|i: int| 0 <= i < ranges.len() ==> !((#[trigger] ranges[i]).mode is IdList)
        }),
    decreases rounds,
{
    if rounds > 0 {
        let (ranges, diff) = rounds::after_rounds(a, b, (rounds - 1) as nat);
        lemma_rounds_within(a, b, (rounds - 1) as nat, width);
        lemma_responded_within(b, 0, 0, BoundView::Min, ranges, width);
        let reply = responder::response(b.keys, b.ids, ranges).0;
        laws::lemma_initiator_keeps_the_bounds(a, diff, BoundView::Min, reply);
        lemma_initiator_lists_nothing(a, diff, BoundView::Min, reply);
    }
}

/// Most ranges a session over a set of `items` items has in play.
pub open spec fn in_play(items: nat) -> nat {
    if items < 2 * rounds::BUCKET_FLOOR {
        1
    } else {
        items / rounds::BUCKET_FLOOR as nat
    }
}

/// Every message of a session, however many rounds it takes, takes no more bytes
/// than the size of the responder's set and the width of its keys and identities
/// allow; so it fits a frame where they do.
pub proof fn lemma_session_fits(a: Holdings, b: Holdings, rounds: nat, width: nat)
    requires
        laws::reconcilable(a, b),
        slender(b, width),
        sound(rounds::after_rounds(a, b, rounds).0),
        sound(responder::response(b.keys, b.ids, rounds::after_rounds(a, b, rounds).0).0),
    ensures
        ({
            let ranges = rounds::after_rounds(a, b, rounds).0;
            let reply = responder::response(b.keys, b.ids, ranges).0;
            let playing = in_play(b.ids.len());
            let most = most_bytes(playing, most_ids(playing), width);
            &&& cbor::bulk(wire::message_written(ranges)) <= most
            &&& cbor::bulk(wire::message_written(reply)) <= most
            &&& most + FRAME_OVERHEAD <= MAX_FRAME_BYTES ==> fits(ranges) && fits(reply)
        }),
{
    let (ranges, diff) = rounds::after_rounds(a, b, rounds);
    let reply = responder::response(b.keys, b.ids, ranges).0;
    let playing = in_play(b.ids.len());
    let head = cbor::head(width as int);
    let each = RANGE_OVERHEAD as nat + head + width;
    source::lemma_seek_ends(b.keys);
    rounds::lemma_session_is_exact(a, b, rounds);
    laws::lemma_round_keeps_conversing(a, b, ranges, diff);
    laws::lemma_responder_keeps_the_tiling(b, ranges);
    laws::lemma_response_is_bounded(b, ranges);
    rounds::lemma_rounds_stay_stocked(a, b, rounds);
    if ranges.len() > 1 {
        rounds::lemma_stocked_are_few(b, BoundView::Min, ranges);
    }
    if reply.len() > 1 {
        rounds::lemma_stocked_are_few(b, BoundView::Min, reply);
    }
    assert(ranges.len() <= playing && reply.len() <= playing);
    lemma_rounds_within(a, b, rounds, width);
    lemma_no_ids_listed(ranges);
    laws::lemma_nothing_listed(ranges);
    lemma_message_bulk(ranges, width);
    lemma_responded_within(b, 0, 0, BoundView::Min, ranges, width);
    lemma_message_bulk(reply, width);
    assert(ranges.len() * each <= playing * each && reply.len() * each <= playing * each)
        by (nonlinear_arith)
        requires
            ranges.len() <= playing,
            reply.len() <= playing,
    ;
    assert(listed_ids(reply) * head <= most_ids(playing) * head && 0 <= most_ids(playing) * head
        && listed_ids(ranges) * head == 0) by (nonlinear_arith)
        requires
            listed_ids(reply) <= most_ids(playing),
            listed_ids(ranges) == 0,
            0 <= most_ids(playing),
            0 <= head,
    ;
}

/// Every message of a session over up to a quarter of a million items, with keys
/// and identities of up to 40 bytes, fits a frame.
pub proof fn lemma_ordinary_session_fits(a: Holdings, b: Holdings, rounds: nat)
    requires
        laws::reconcilable(a, b),
        slender(b, 40),
        b.ids.len() <= 262_144,
        sound(rounds::after_rounds(a, b, rounds).0),
        sound(responder::response(b.keys, b.ids, rounds::after_rounds(a, b, rounds).0).0),
    ensures
        fits(rounds::after_rounds(a, b, rounds).0),
        fits(responder::response(b.keys, b.ids, rounds::after_rounds(a, b, rounds).0).0),
{
    let playing = in_play(b.ids.len());
    let each = RANGE_OVERHEAD as nat + cbor::head(40) + 40;
    lemma_session_fits(a, b, rounds, 40);
    assert(playing * each <= 65_536 * 95) by (nonlinear_arith)
        requires
            playing <= 65_536,
            each == 95,
    ;
}

} // verus!
