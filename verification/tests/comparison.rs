//! The two engines driven on identical terms: the same items, the same identity
//! width, and the same codec.

use p2p::reconcile::codec;
use p2p::reconcile::engine::rbsr::caps::{BRANCHING_FACTOR, ID_LIST_THRESHOLD};
use p2p::reconcile::engine::rbsr::RbsrEngine;
use p2p::reconcile::engine::riblt::caps::INITIAL_SYMBOL_BATCH;
use p2p::reconcile::engine::riblt::{RibltEngine, RibltMessage};
use p2p::reconcile::{
    Item, ItemId, ItemSource, MemorySource, Progress, ReconcileError, Session,
};
use sha2::{Digest, Sha256};

/// Identity width both engines are measured at: a CIDv1 `dag-cbor/sha2-256`.
const IDENTITY_WIDTH: usize = 36;

/// A deterministic identity of exactly [`IDENTITY_WIDTH`] bytes.
fn id(seed: u64) -> ItemId {
    let digest = Sha256::digest(seed.to_be_bytes());
    let mut bytes = digest.to_vec();
    bytes.extend_from_slice(&digest[..IDENTITY_WIDTH - digest.len()]);
    ItemId::new(bytes)
}

/// What one session cost, in the terms both engines can be asked for.
#[derive(Clone, Copy, Debug, PartialEq, Eq)]
struct Measurement {
    /// Encoded bytes crossing the wire, both directions, envelope included.
    bytes: usize,
    /// Peer messages the initiating side consumed.
    rounds: usize,
    /// Coded cells the initiating side consumed. Zero for the range engine,
    /// which codes nothing — the tail this study reports is a property of the
    /// rateless stream and the range engine has no analogue of it.
    symbols: usize,
    /// Identities the initiating side must pull.
    need: usize,
    /// Identities the initiating side holds that the peer does not.
    have: usize,
}

/// A pair of sources of about `n` items whose symmetric difference is `d`, with
/// the divergent items scattered rather than clustered — the harder case for a
/// range protocol and a neutral one for a sketch.
///
/// The seed moves the identity space as well as which items diverge, because a
/// coded stream is a function of the set and not of the order it was built in.
fn diverged(n: usize, d: usize, seed: u64) -> (MemorySource, MemorySource) {
    let mut universe: Vec<u64> = (0..(n + d) as u64).collect();
    shuffle(&mut universe, seed);

    let (divergent, shared) = universe.split_at(d);
    let local_only = d.div_ceil(2);

    let mut local = shared.to_vec();
    local.extend_from_slice(&divergent[..local_only]);
    let mut remote = shared.to_vec();
    remote.extend_from_slice(&divergent[local_only..]);

    let offset = seed.wrapping_mul(0x0010_0000_0000_0001);
    (source(&local, offset), source(&remote, offset))
}

fn source(seeds: &[u64], offset: u64) -> MemorySource {
    MemorySource::new(
        seeds
            .iter()
            .map(|seed| {
                let seed = seed.wrapping_add(offset);
                Item::new(seed % 4, id(seed))
            })
            .collect(),
    )
    .expect("seeds are distinct")
}

fn shuffle(values: &mut [u64], seed: u64) {
    let mut state = seed | 1;
    for index in (1..values.len()).rev() {
        state ^= state << 13;
        state ^= state >> 7;
        state ^= state << 17;
        values.swap(index, (state % (index as u64 + 1)) as usize);
    }
}

/// Reconciles `local` against `remote` over the range engine.
fn rbsr(local: &MemorySource, remote: &MemorySource) -> Result<Measurement, ReconcileError> {
    let mut initiator = Session::new(RbsrEngine::initiator(local));
    let mut responder = Session::new(RbsrEngine::responder(remote));
    let mut bytes = 0usize;

    let opening = initiator.next_outbound()?.expect("the initiator opens");
    bytes += codec::encode(&opening)?.len();
    let mut message = opening;

    loop {
        responder.ingest(message)?;
        let reply = responder
            .next_outbound()?
            .expect("the responder always answers");
        bytes += codec::encode(&reply)?.len();
        initiator.ingest(reply)?;
        match initiator.next_outbound()? {
            None => break,
            Some(next) => {
                bytes += codec::encode(&next)?.len();
                message = next;
            }
        }
    }

    Ok(Measurement {
        bytes,
        rounds: initiator.rounds(),
        symbols: 0,
        need: initiator.diff().need().len(),
        have: initiator.diff().have().len(),
    })
}

/// Reconciles `local` against `remote` over the rateless engine.
fn riblt(local: &MemorySource, remote: &MemorySource) -> Result<Measurement, ReconcileError> {
    let mut decoder = Session::new(RibltEngine::decoder(local)?);
    let mut encoder = Session::new(RibltEngine::encoder(remote)?);
    let mut bytes = 0usize;
    let mut symbols = 0usize;

    let mut request = decoder.next_outbound()?.expect("the decoder opens");
    loop {
        bytes += codec::encode(&request)?.len();
        encoder.ingest(request)?;
        let batch = encoder
            .next_outbound()?
            .expect("the encoder always answers a request");
        bytes += codec::encode(&batch)?.len();
        symbols += cells(&batch);
        if decoder.ingest(batch)? == Progress::Converged {
            break;
        }
        request = decoder
            .next_outbound()?
            .expect("a decoder short of the difference asks again");
    }

    Ok(Measurement {
        bytes,
        rounds: decoder.rounds(),
        symbols,
        need: decoder.diff().need().len(),
        have: decoder.diff().have().len(),
    })
}

/// Coded cells in one encoder answer. A request carries none.
fn cells(message: &RibltMessage) -> usize {
    match message {
        RibltMessage::Symbols { symbols, .. } => symbols.len(),
        RibltMessage::Request { .. } => 0,
    }
}


/// Where the range engine's listing regime ends and `O(d log n)` begins.
const LISTING_BOUNDARY: usize = BRANCHING_FACTOR * ID_LIST_THRESHOLD;

/// Seeds every decision point is repeated over.
const SEEDS: [u64; 3] = [0x5EED_C0FFEE, 0x1234_5678, 0xDEAD_BEEF];

/// One point's result for both engines.
struct Point {
    rbsr: Result<Measurement, ReconcileError>,
    riblt: Result<Measurement, ReconcileError>,
}

/// Both engines against the same pair of sets.
fn measure(n: usize, d: usize, seed: u64) -> Point {
    let (local, remote) = diverged(n, d, seed);
    Point {
        rbsr: rbsr(&local, &remote),
        riblt: riblt(&local, &remote),
    }
}

/// Both engines must be handed the same set, or the comparison measures the
/// fixtures.
#[test]
fn both_engines_reconcile_the_same_items_at_the_same_width() {
    let (local, remote) = diverged(64, 8, SEEDS[0]);
    for source in [&local, &remote] {
        for index in 0..source.len() {
            assert_eq!(
                source.id(index).as_bytes().len(),
                IDENTITY_WIDTH,
                "every identity must be the CID width both engines are charged for"
            );
        }
    }

    let ranges = rbsr(&local, &remote).expect("converges");
    let rateless = riblt(&local, &remote).expect("converges");
    assert_eq!(
        (ranges.need, ranges.have),
        (rateless.need, rateless.have),
        "the two engines must find the same difference, or they are not comparable"
    );
    assert_eq!(
        ranges.need + ranges.have,
        8,
        "the fixture must produce the difference it was asked for"
    );
}

/// The identity generator is the fairness guarantee; pin its width and its
/// determinism directly.
#[test]
fn identities_are_deterministic_and_exactly_the_cid_width() {
    assert_eq!(id(7), id(7));
    assert_ne!(id(7), id(8));
    assert_eq!(id(u64::MAX).as_bytes().len(), IDENTITY_WIDTH);
}

/// The driver's count of coded cells is pinned against the one figure that is
/// arithmetic rather than a draw: agreement always costs exactly the opening batch.
#[test]
fn the_driver_counts_the_cells_the_decoder_consumed() {
    let (local, remote) = diverged(2 * LISTING_BOUNDARY, 0, SEEDS[0]);
    let agreed = riblt(&local, &remote).expect("converges");
    assert_eq!(
        agreed.symbols, INITIAL_SYMBOL_BATCH,
        "a decoder cannot know the sets agree without pulling and decoding a batch"
    );

    let (local, remote) = diverged(2 * LISTING_BOUNDARY, 100, SEEDS[0]);
    let differing = riblt(&local, &remote).expect("converges");
    assert!(
        differing.symbols > agreed.symbols,
        "a difference of a hundred cost {} cells, no more than agreement's {}",
        differing.symbols,
        agreed.symbols
    );

    let ranges = rbsr(&local, &remote).expect("converges");
    assert_eq!(
        ranges.symbols, 0,
        "the range engine codes nothing, and a zero here is that and not a miscount"
    );
}

/// Seeds a tail claim is drawn over. Thirty is what a nearest-rank p95 can
/// resolve and a p99 cannot.
const TAIL_SEEDS: usize = 30;

/// The seeds themselves, spread across the identity space rather than
/// consecutive, because a seed both scatters the difference and moves the whole
/// identity space.
fn tail_seed(index: usize) -> u64 {
    (index as u64).wrapping_mul(0x9E37_79B9_7F4A_7C15) ^ 0x5EED_C0FFEE
}

/// The value at a percentile of a sorted sample, by nearest rank.
fn percentile(sorted: &[usize], fraction: f64) -> usize {
    let rank = ((sorted.len() as f64 * fraction).ceil() as usize).clamp(1, sorted.len());
    sorted[rank - 1]
}

/// Whether `samples` draws can tell the given percentile from the maximum.
fn resolves(samples: usize, fraction: f64) -> bool {
    ((samples as f64 * fraction).ceil() as usize) < samples
}

#[test]
fn comparison_tests_a_percentile_past_what_the_sample_resolves_is_the_maximum() {
    let sorted: Vec<usize> = (1..=20).collect();
    assert_eq!(percentile(&sorted, 0.50), 10);
    assert_eq!(percentile(&sorted, 0.95), 19);
    assert_eq!(percentile(&sorted, 0.99), 20);
    assert!(resolves(20, 0.95));
    assert!(
        !resolves(20, 0.99),
        "a twentieth of a sample is its maximum"
    );
    assert!(resolves(TAIL_SEEDS, 0.95));
    assert!(!resolves(TAIL_SEEDS, 0.99));
}

/// The range engine's round count is a property of the shape of the difference;
/// the rateless engine's is a draw.
#[test]
fn comparison_tests_the_range_engine_spends_the_same_rounds_on_every_draw() {
    const N: usize = 2 * LISTING_BOUNDARY;
    const D: usize = 64;

    let mut ranges = Vec::new();
    let mut rateless = Vec::new();
    for index in 0..8 {
        let point = measure(N, D, tail_seed(index));
        ranges.push(point.rbsr.expect("the range engine converges").rounds);
        rateless.push(point.riblt.expect("the rateless engine converges").rounds);
    }

    assert_eq!(
        ranges
            .iter()
            .collect::<std::collections::BTreeSet<_>>()
            .len(),
        1,
        "the range engine spent {ranges:?} rounds across eight draws of the same (n, d)"
    );
    assert!(
        !rateless.is_empty(),
        "the rateless draws are the thing the tail table reports"
    );
}

#[test]
fn comparison_tail_tests_a_percentile_past_what_the_sample_resolves_is_the_maximum() {
    let sorted: Vec<usize> = (1..=20).collect();
    assert_eq!(percentile(&sorted, 0.50), 10);
    assert_eq!(percentile(&sorted, 0.95), 19);
    assert_eq!(percentile(&sorted, 0.99), 20);
    assert!(resolves(20, 0.95));
    assert!(
        !resolves(20, 0.99),
        "a twentieth of a sample is its maximum"
    );
    assert!(resolves(TAIL_SEEDS, 0.95));
    assert!(!resolves(TAIL_SEEDS, 0.99));
}

/// The range engine's round count is a property of the shape of the difference;
/// the rateless engine's is a draw.
#[test]
fn comparison_tail_tests_the_range_engine_spends_the_same_rounds_on_every_draw() {
    const N: usize = 2 * LISTING_BOUNDARY;
    const D: usize = 64;

    let mut ranges = Vec::new();
    let mut rateless = Vec::new();
    for index in 0..8 {
        let point = measure(N, D, tail_seed(index));
        ranges.push(point.rbsr.expect("the range engine converges").rounds);
        rateless.push(point.riblt.expect("the rateless engine converges").rounds);
    }

    assert_eq!(
        ranges
            .iter()
            .collect::<std::collections::BTreeSet<_>>()
            .len(),
        1,
        "the range engine spent {ranges:?} rounds across eight draws of the same (n, d)"
    );
    assert!(
        rateless.iter().all(|rounds| rounds > &ranges[0]),
        "at d={D} the rateless engine spent {rateless:?} rounds against the range \
         engine's {} — the inversion the latency study rests on is gone",
        ranges[0]
    );
}
