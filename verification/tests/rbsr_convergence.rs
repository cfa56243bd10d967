//! Convergence is the invariant: for set pairs of many shapes, a session must
//! terminate with the initiator's need and have sets *exactly* equal to the true
//! symmetric difference, with no misses and no spurious entries.

use std::collections::BTreeSet;

use p2p::reconcile::codec;
use p2p::reconcile::engine::rbsr::{RbsrEngine, RbsrMessage};
use p2p::reconcile::{Bound, Item, ItemId, MemorySource, ReconcileError, Session};
use sha2::{Digest, Sha256};

/// What one simulated session produced.
struct Outcome {
    /// Identities the initiator must pull, ascending.
    need: Vec<ItemId>,
    /// Identities the initiator must push, ascending.
    have: Vec<ItemId>,
}

/// Reconciles `local` (as initiator) against `remote` (as responder).
fn run(local: &MemorySource, remote: &MemorySource) -> Result<Outcome, ReconcileError> {
    let mut initiator = Session::new(RbsrEngine::initiator(local));
    let mut responder = Session::new(RbsrEngine::responder(remote));

    let opening = initiator.next_outbound()?.expect("the initiator opens");
    let mut message = hop(&opening)?;

    loop {
        assert_tiles(&message);
        responder.ingest(message)?;
        let reply = responder
            .next_outbound()?
            .expect("the responder always answers");
        assert_tiles(&reply);
        let reply = hop(&reply)?;

        initiator.ingest(reply)?;
        match initiator.next_outbound()? {
            None => break,
            Some(next) => {
                message = hop(&next)?;
            }
        }
    }

    let mut need = initiator.diff().need().to_vec();
    let mut have = initiator.diff().have().to_vec();
    need.sort();
    have.sort();

    Ok(Outcome {
        need,
        have,
    })
}

/// A deterministic 32-byte identity for a seed, standing in for a CID.
fn id(seed: u64) -> ItemId {
    ItemId::new(Sha256::digest(seed.to_be_bytes()).to_vec())
}

/// Seals a set of seeds into a source.
///
/// Heights are derived from the seed so the layered ordering is exercised while
/// each identity still maps to exactly one sort key, which is what lets the
/// tests compare diffs by identity alone.
fn source(seeds: impl IntoIterator<Item = u64>) -> MemorySource {
    MemorySource::new(
        seeds
            .into_iter()
            .map(|seed| Item::new(seed % 4, id(seed)))
            .collect(),
    )
    .expect("seeds are distinct")
}

/// The ascending identities of the given seeds.
fn ids(seeds: impl IntoIterator<Item = u64>) -> Vec<ItemId> {
    let mut ids: Vec<ItemId> = seeds.into_iter().map(id).collect();
    ids.sort();
    ids
}

/// Sends one message across the codec, returning what the peer decodes.
fn hop(message: &RbsrMessage) -> Result<RbsrMessage, ReconcileError> {
    let bytes = codec::encode(message)?;
    let decoded: RbsrMessage = codec::decode(&bytes)?;
    assert_eq!(&decoded, message, "the codec must round-trip every message");
    Ok(decoded)
}

/// Asserts the ranges tile `[Min, Max)` completely, in strictly ascending order,
/// with the final range ending at [`Bound::Max`].
fn assert_tiles(message: &RbsrMessage) {
    let ranges = message.ranges();
    if ranges.is_empty() {
        return;
    }

    let mut previous = Bound::Min;
    for (position, range) in ranges.iter().enumerate() {
        let last = position + 1 == ranges.len();
        assert_eq!(
            last,
            range.upper_bound == Bound::Max,
            "only the final range may end at Max"
        );
        assert!(
            previous < range.upper_bound,
            "range bounds must strictly ascend"
        );
        previous = range.upper_bound.clone();
    }
}

/// The difference sizes the acceptance criteria call for at a given set size.
fn difference_sizes(n: usize) -> [usize; 5] {
    [0, 1, 8, n / 2, n]
}

/// Builds a set pair of about `n` items whose symmetric difference is exactly
/// `d`, with the divergent items scattered through the set.
fn diverged(n: usize, d: usize, seed: u64) -> (Vec<u64>, Vec<u64>) {
    let mut universe: Vec<u64> = (0..(n + d) as u64).collect();
    shuffle(&mut universe, seed);

    let (divergent, shared) = universe.split_at(d);
    let local_only = d.div_ceil(2);

    let mut local = shared.to_vec();
    local.extend_from_slice(&divergent[..local_only]);
    let mut remote = shared.to_vec();
    remote.extend_from_slice(&divergent[local_only..]);

    (local, remote)
}

fn shuffle(values: &mut [u64], seed: u64) {
    let mut state = seed | 1;
    for index in (1..values.len()).rev() {
        state ^= state << 13;
        state ^= state >> 7;
        state ^= state << 17;
        values.swap(index, (state % (index as u64 + 1)) as usize);
    }
}

/// Asserts a session reproduces the naive set difference exactly.
fn check(local_seeds: &[u64], remote_seeds: &[u64]) {
    let local = source(local_seeds.iter().copied());
    let remote = source(remote_seeds.iter().copied());

    let outcome = run(&local, &remote).expect("converges");

    let local_set: BTreeSet<u64> = local_seeds.iter().copied().collect();
    let remote_set: BTreeSet<u64> = remote_seeds.iter().copied().collect();

    assert_eq!(
        outcome.need,
        ids(remote_set.difference(&local_set).copied()),
        "need must equal remote \\ local"
    );
    assert_eq!(
        outcome.have,
        ids(local_set.difference(&remote_set).copied()),
        "have must equal local \\ remote"
    );
}

fn check_tier(n: usize, seed: u64) {
    for d in difference_sizes(n) {
        let (local, remote) = diverged(n, d, seed ^ d as u64);
        check(&local, &remote);
    }
}

/// A step of a small generator, so the cases below are the same on every run.
fn step(state: &mut u64) -> u64 {
    *state ^= *state << 13;
    *state ^= *state >> 7;
    *state ^= *state << 17;
    *state
}

/// Arbitrary overlapping sets, including empty and identical ones.
#[test]
fn arbitrary_set_pairs_converge_to_the_symmetric_difference() {
    let mut state = 0x5eed_0001u64;
    for _ in 0..96 {
        let mut sets: Vec<Vec<u64>> = Vec::new();
        for _ in 0..2 {
            let size = step(&mut state) % 120;
            let set: BTreeSet<u64> = (0..size).map(|_| step(&mut state) % 300).collect();
            sets.push(set.into_iter().collect());
        }
        check(&sets[0], &sets[1]);
    }
}

/// Sets far larger than the ID-list threshold, so every session exercises the
/// split path many times over.
#[test]
fn seeded_structured_differences_converge() {
    let mut state = 0x5eed_0002u64;
    for class in 0..10 {
        let n = 1_000;
        let d = difference_sizes(n)[class % 5];
        let (local, remote) = diverged(n, d, step(&mut state));
        check(&local, &remote);
    }
}

#[test]
fn identical_sets_yield_an_empty_difference() {
    let seeds: Vec<u64> = (0..500).collect();
    check(&seeds, &seeds);
}

#[test]
fn two_empty_sets_yield_an_empty_difference() {
    check(&[], &[]);
}

#[test]
fn an_empty_set_against_a_full_one_yields_the_whole_set() {
    let seeds: Vec<u64> = (0..500).collect();
    check(&[], &seeds);
    check(&seeds, &[]);
}

#[test]
fn tier_1k() {
    check_tier(1_000, 0x5eed_1000);
}

#[test]
fn tier_10k() {
    check_tier(10_000, 0x5eed_a000);
}
