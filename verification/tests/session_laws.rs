//! What holds of whole sessions, on concrete sets.

use std::collections::BTreeSet;

use p2p::reconcile::codec;
use p2p::reconcile::codec::MAX_FRAME_BYTES;
use p2p::reconcile::engine::rbsr::caps::{
    BRANCHING_FACTOR, ID_LIST_THRESHOLD, MAX_LISTED_ID_BYTES, MAX_RANGES_PER_MESSAGE,
};
use p2p::reconcile::engine::rbsr::{
    initiator, responder, Fingerprint, Mode, Range, RbsrEngine, RbsrMessage, SegmentTree,
};
use p2p::reconcile::engine::riblt::caps::{
    INITIAL_SYMBOL_BATCH, MAX_CODED_SYMBOLS, MAX_SYMBOL_BATCH, MAX_SYMBOL_BYTES,
};
use p2p::reconcile::engine::riblt::{CodedSymbol, RibltEngine, RibltMessage};
use p2p::reconcile::{
    Bound, Diff, Engine, Item, ItemId, ItemSource, MemorySource, Progress, ReconcileError, Session,
};
use sha2::{Digest, Sha256};

fn id(seed: u64) -> ItemId {
    ItemId::new(Sha256::digest(seed.to_be_bytes()).to_vec())
}

fn source(seeds: impl IntoIterator<Item = u64>) -> MemorySource {
    MemorySource::new(
        seeds
            .into_iter()
            .map(|seed| Item::new(seed % 4, id(seed)))
            .collect(),
    )
    .expect("seeds are distinct")
}

/// Runs a range session and reports the difference and the rounds.
fn ranges(local: &MemorySource, remote: &MemorySource) -> (Diff, usize) {
    let mut asking = Session::new(RbsrEngine::initiator(local));
    let mut answering = Session::new(RbsrEngine::responder(remote));
    while let Some(message) = asking.next_outbound().expect("speaks") {
        answering.ingest(message).expect("answers");
        let reply = answering
            .next_outbound()
            .expect("speaks")
            .expect("always answers");
        asking.ingest(reply).expect("maps");
    }
    let rounds = asking.rounds();
    (asking.into_diff(), rounds)
}

fn as_set(ids: &[ItemId]) -> BTreeSet<ItemId> {
    let set: BTreeSet<ItemId> = ids.iter().cloned().collect();
    assert_eq!(set.len(), ids.len(), "no identity is listed twice");
    set
}

#[test]
fn a_disjoint_pair_converges_within_four_rounds() {
    for n in [1u64, 64, 65, 1_024, 1_025, 16_384, 20_000] {
        let local = source(0..n);
        let remote = source(n..2 * n);
        let (diff, rounds) = ranges(&local, &remote);
        assert_eq!(as_set(diff.need()), (n..2 * n).map(id).collect());
        assert_eq!(as_set(diff.have()), (0..n).map(id).collect());
        assert!(rounds <= 4, "n={n} took {rounds} rounds");
    }
}

#[test]
fn rounds_follow_the_splits_a_set_needs() {
    let other = source([1_000_000]);
    for (n, rounds) in [(64u64, 1usize), (65, 2), (1_024, 2), (1_025, 3)] {
        assert_eq!(ranges(&other, &source(0..n)).1, rounds, "n={n}");
    }
}

#[test]
fn agreement_is_one_range_each_way() {
    for n in [0u64, 1, 100, 5_000] {
        let set = source(0..n);
        let index = SegmentTree::build(&set);
        let opening = initiator::initiate(&index);
        assert_eq!(opening.ranges().len(), 1);
        let reply = responder::respond(&index, &opening).expect("answers");
        assert_eq!(reply, RbsrMessage::new(vec![Range::skip(Bound::Max)]));
        let mut engine = RbsrEngine::initiator(&set);
        assert_eq!(engine.ingest(reply), Ok(Progress::Converged));
        assert!(engine.diff().is_empty());
    }
}

#[test]
fn the_initiator_never_changes_the_bounds() {
    let local = source(0..2_000);
    let remote = source(1_000..3_000);
    let ours = SegmentTree::build(&local);
    let theirs = SegmentTree::build(&remote);
    let reply = responder::respond(&theirs, &initiator::initiate(&ours)).expect("answers");
    let mut diff = Diff::default();
    let answer = initiator::reconcile(&ours, &mut diff, &reply).expect("maps");
    let bounds = |message: &RbsrMessage| -> Vec<Bound> {
        message
            .ranges()
            .iter()
            .map(|range| range.upper_bound.clone())
            .collect()
    };
    assert_eq!(bounds(&reply).len(), BRANCHING_FACTOR);
    assert_eq!(bounds(&answer), bounds(&reply));
}

#[test]
fn a_response_is_bounded_whatever_it_answers() {
    let n = 40_000u64;
    let local = source(0..n);
    let index = SegmentTree::build(&local);
    let mismatch = Fingerprint::of(&[&id(u64::MAX)]);
    let width = ID_LIST_THRESHOLD + 1;
    let mut incoming: Vec<Range> = (1..n as usize / width)
        .map(|k| Range::fingerprint(Bound::Key(local.key(k * width).clone()), mismatch))
        .collect();
    incoming.push(Range::fingerprint(Bound::Max, mismatch));
    let asked = incoming.len();
    let response = responder::respond(&index, &RbsrMessage::new(incoming)).expect("answers");
    assert!(response.ranges().len() < MAX_RANGES_PER_MESSAGE + BRANCHING_FACTOR + asked);
    let listed: usize = response
        .ranges()
        .iter()
        .map(|range| match &range.mode {
            Mode::IdList(ids) => ids.iter().map(|id| id.as_bytes().len()).sum(),
            _ => 0,
        })
        .sum();
    assert!(listed <= MAX_LISTED_ID_BYTES);
}

#[test]
fn both_engines_find_the_same_difference() {
    for (local, remote) in [
        (0..0u64, 0..0u64),
        (0..0, 0..40),
        (0..40, 0..0),
        (0..300, 50..320),
    ] {
        let (ours, theirs) = (source(local), source(remote));
        let (by_ranges, _) = ranges(&ours, &theirs);
        let mut decoder = Session::new(RibltEngine::decoder(&ours).expect("uniform"));
        let mut encoder = Session::new(RibltEngine::encoder(&theirs).expect("uniform"));
        while let Some(request) = decoder.next_outbound().expect("speaks") {
            encoder.ingest(request).expect("serves");
            let batch = encoder.next_outbound().expect("speaks").expect("answers");
            decoder.ingest(batch).expect("takes");
        }
        assert!(decoder.is_converged());
        assert_eq!(as_set(by_ranges.need()), as_set(decoder.diff().need()));
        assert_eq!(as_set(by_ranges.have()), as_set(decoder.diff().have()));
    }
}

#[test]
fn an_empty_side_takes_the_width_of_the_other() {
    let nothing = source([]);
    let something = source(0..3);
    let mut decoder = RibltEngine::decoder(&nothing).expect("empty");
    assert_eq!(
        decoder.next_outbound(),
        Ok(Some(RibltMessage::request(0, INITIAL_SYMBOL_BATCH)))
    );
    let mut encoder = RibltEngine::encoder(&nothing).expect("empty");
    let mut asking = RibltEngine::decoder(&something).expect("uniform");
    let request = asking.next_outbound().expect("speaks").expect("opens");
    encoder.ingest(request).expect("adopts the width");
    match encoder.next_outbound().expect("speaks").expect("answers") {
        RibltMessage::Symbols { width, symbols } => {
            assert_eq!(width, 32);
            assert_eq!(symbols.len(), INITIAL_SYMBOL_BATCH);
            assert!(symbols.iter().all(|cell| cell.is_empty()));
        }
        other => panic!("expected cells, got {other:?}"),
    }
}

#[test]
fn a_declared_width_past_the_cap_is_refused() {
    let mut encoder = RibltEngine::encoder(&source([])).expect("empty");
    assert_eq!(
        encoder.ingest(RibltMessage::request(65, 8)),
        Err(ReconcileError::SymbolTooWide { size: 65, max: 64 })
    );
}

#[test]
fn an_encoder_answers_within_the_batch_cap_and_the_budget() {
    let mut encoder = RibltEngine::encoder(&source(0..3)).expect("uniform");
    let mut produced = 0;
    for wanted in [0usize, 1, MAX_SYMBOL_BATCH + 1] {
        encoder
            .ingest(RibltMessage::request(32, wanted))
            .expect("serves");
        let batch = encoder.next_outbound().expect("speaks").expect("answers");
        assert_eq!(batch.symbol_count(), wanted.clamp(1, MAX_SYMBOL_BATCH));
        produced += batch.symbol_count();
    }
    loop {
        match encoder.ingest(RibltMessage::request(32, MAX_SYMBOL_BATCH)) {
            Ok(progress) => {
                assert_eq!(progress, Progress::Continue);
                let batch = encoder.next_outbound().expect("speaks").expect("answers");
                produced += batch.symbol_count();
            }
            Err(error) => {
                assert_eq!(
                    error,
                    ReconcileError::SymbolCapExceeded {
                        max: MAX_CODED_SYMBOLS
                    }
                );
                break;
            }
        }
    }
    assert_eq!(produced, MAX_CODED_SYMBOLS);
}

#[test]
fn batches_double() {
    let local = source([]);
    let mut engine = RibltEngine::decoder(&local).expect("empty");
    let mut asked = Vec::new();
    for _ in 0..5 {
        match engine.next_outbound().expect("speaks").expect("asks") {
            RibltMessage::Request { symbols, .. } => {
                asked.push(symbols);
                let cells = (0..symbols)
                    .map(|_| CodedSymbol::new(vec![1; 32], 7, 5))
                    .collect();
                assert_eq!(
                    engine.ingest(RibltMessage::symbols(32, cells)),
                    Ok(Progress::Continue)
                );
            }
            other => panic!("expected a request, got {other:?}"),
        }
    }
    assert_eq!(asked, [8, 8, 16, 32, 64]);
}

/// A full batch of the widest cells is well inside the frame cap.
#[test]
fn a_full_batch_fits_a_frame() {
    let cell = CodedSymbol::new(vec![0xff; MAX_SYMBOL_BYTES], u64::MAX, i64::MIN);
    let batch = RibltMessage::symbols(MAX_SYMBOL_BYTES, vec![cell; MAX_SYMBOL_BATCH]);
    let frame = codec::encode(&batch).expect("fits");
    assert!(frame.len() < MAX_FRAME_BYTES / 4, "{} bytes", frame.len());
}

/// Whatever an encoder is asked for, it answers with a message that encodes.
#[test]
fn an_engines_own_messages_encode() {
    let mut encoder = RibltEngine::encoder(&source(0..50)).expect("uniform");
    for wanted in [0usize, 8, MAX_SYMBOL_BATCH, u32::MAX as usize] {
        encoder
            .ingest(RibltMessage::request(32, wanted))
            .expect("serves");
        let batch = encoder.next_outbound().expect("speaks").expect("answers");
        assert!(codec::encode(&batch).is_ok());
    }
}

/// What is sealed does not depend on the order it came in.
#[test]
fn sealing_ignores_order() {
    let forward = source(0..200);
    let backward = source((0..200).rev());
    assert_eq!(forward, backward);
}

/// A difference of two thousand symbols, half on either side, comes out whole.
#[test]
fn a_large_two_sided_difference_is_recovered_exactly() {
    let (ours, theirs) = (source(0..2_000), source(1_000..3_000));
    let mut decoder = Session::new(RibltEngine::decoder(&ours).expect("uniform"));
    let mut encoder = Session::new(RibltEngine::encoder(&theirs).expect("uniform"));
    while let Some(request) = decoder.next_outbound().expect("speaks") {
        encoder.ingest(request).expect("serves");
        let batch = encoder.next_outbound().expect("speaks").expect("answers");
        decoder.ingest(batch).expect("takes");
    }
    assert!(decoder.is_converged());
    assert_eq!(as_set(decoder.diff().need()), (2_000..3_000).map(id).collect());
    assert_eq!(as_set(decoder.diff().have()), (0..1_000).map(id).collect());
}

/// A set of more items than the range cap is sure to carry takes four rounds all
/// the same, where no response defers a range.
#[test]
fn four_rounds_suffice_where_nothing_is_deferred() {
    let n = 70_000u64;
    let ours = source([n]);
    let (diff, rounds) = ranges(&ours, &source(0..n));
    assert_eq!(rounds, 4);
    assert_eq!(as_set(diff.need()), (0..n).map(id).collect());
    assert_eq!(as_set(diff.have()), [id(n)].into_iter().collect());
}

/// Sources with identities of a given length.
fn wide(n: u64, len: usize) -> MemorySource {
    MemorySource::new(
        (0..n)
            .map(|seed| {
                let mut bytes = vec![0xa5; len];
                bytes[..8].copy_from_slice(&seed.to_be_bytes());
                Item::new(0, ItemId::new(bytes))
            })
            .collect(),
    )
    .expect("seeds are distinct")
}

/// The response to ranges of `each` items of a set, all in question.
fn response_to(local: &MemorySource, n: usize, each: usize) -> RbsrMessage {
    let index = SegmentTree::build(local);
    let mismatch = Fingerprint::of(&[&id(u64::MAX)]);
    let mut incoming: Vec<Range> = (1..n / each)
        .map(|k| Range::fingerprint(Bound::Key(local.key(k * each).clone()), mismatch))
        .collect();
    incoming.push(Range::fingerprint(Bound::Max, mismatch));
    responder::respond(&index, &RbsrMessage::new(incoming)).expect("answers")
}

/// Keys of 128 bytes leave room in the frame for every range a response may hold,
/// and for every list.
#[test]
fn an_ordinary_response_fits_a_frame() {
    let n = 80_000;
    let local = wide(n as u64, 120);
    assert_eq!(local.key(0).as_bytes().len(), 128);
    for each in [8, ID_LIST_THRESHOLD, ID_LIST_THRESHOLD + 1] {
        let response = response_to(&local, n, each);
        assert!(codec::encode(&response).is_ok());
    }
}

/// Keys of a kibibyte leave room for the answer to a few hundred ranges.
#[test]
fn a_wide_response_to_few_ranges_fits_a_frame() {
    let n = 470 * 20;
    let local = wide(n as u64, 1_032);
    assert_eq!(local.key(0).as_bytes().len(), 1_040);
    let response = response_to(&local, n, 20);
    assert!(response.ranges().len() >= 470);
    assert!(codec::encode(&response).is_ok());
}
