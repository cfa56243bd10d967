//! How many coded symbols a difference costs, fed one at a time.

use p2p::reconcile::engine::riblt::{Decoder, Encoder};
use p2p::reconcile::ItemId;
use sha2::{Digest, Sha256};

/// A deterministic 36-byte identity for a seed, the width of a CIDv1
/// `dag-cbor/sha2-256` item.
fn id(seed: u64) -> ItemId {
    let digest = Sha256::digest(seed.to_be_bytes());
    let mut bytes = digest.to_vec();
    bytes.extend_from_slice(&digest[..4]);
    ItemId::new(bytes)
}

/// Builds a set pair of about `n` items whose symmetric difference is exactly
/// `d`, with the divergent items scattered through the set.
fn diverged(n: usize, d: usize, seed: u64) -> (Vec<u64>, Vec<u64>) {
    let mut universe: Vec<u64> = (0..(n + d) as u64).collect();
    shuffle(&mut universe, seed);

    let (divergent, shared) = universe.split_at(d);
    let local_only = d.div_ceil(2);

    let mut local = shared.to_vec();
    local.extend_from_slice(&divergent[..local_only]);
    let mut remote = shared.to_vec();
    remote.extend_from_slice(&divergent[local_only..]);

    (local, remote)
}

fn shuffle(values: &mut [u64], seed: u64) {
    let mut state = seed | 1;
    for index in (1..values.len()).rev() {
        state ^= state << 13;
        state ^= state >> 7;
        state ^= state << 17;
        values.swap(index, (state % (index as u64 + 1)) as usize);
    }
}

/// Symbols consumed to decode a difference of `d` over `common` shared items,
/// feeding the decoder one symbol at a time.
///
/// The seed moves the whole identity space as well as which items diverge, because
/// the coded stream is a function of the set.
fn symbols_to_decode(common: usize, d: usize, seed: u64) -> usize {
    let (local, remote) = diverged(common, d, seed);
    let offset = seed.wrapping_mul(0x0010_0000_0000_0001);
    let mut encoder = Encoder::new(36);
    let mut decoder = Decoder::new(36);
    for value in remote {
        encoder.add(id(value.wrapping_add(offset)).as_bytes().to_vec());
    }
    for value in local {
        decoder.add(id(value.wrapping_add(offset)).as_bytes().to_vec());
    }

    let mut consumed = 0;
    while !decoder.is_decoded() {
        decoder
            .add_coded_symbol(encoder.produce_next())
            .expect("one width");
        consumed += 1;
        decoder.try_decode();
        assert!(consumed < 1_000_000, "d={d} seed={seed} did not decode");
    }
    consumed
}

/// The value at a percentile of a sorted sample, by nearest rank.
fn percentile(sorted: &[usize], fraction: f64) -> usize {
    let rank = ((sorted.len() as f64 * fraction).ceil() as usize).clamp(1, sorted.len());
    sorted[rank - 1]
}

/// The sorted symbol counts over `samples` seeded runs.
fn distribution(common: usize, d: usize, samples: usize) -> Vec<usize> {
    let mut counts: Vec<usize> = (0..samples as u64)
        .map(|seed| symbols_to_decode(common, d, 0x0e40_0000u64.wrapping_add(seed)))
        .collect();
    counts.sort_unstable();
    counts
}

/// A mapping or peel that regressed would blow past any plausible constant.
#[test]
fn the_coding_overhead_stays_within_a_plausible_band() {
    for (d, samples, band) in [(100usize, 100usize, 2.0f64), (1_000, 20, 1.8)] {
        let counts = distribution(0, d, samples);
        let p99 = percentile(&counts, 0.99) as f64 / d as f64;
        assert!(
            p99 < band,
            "d={d} over {samples} seeds: p99 overhead {p99:.2} is past the {band} \
             band any rateless coding constant should hold"
        );
    }
}

/// The whole point of a sketch: the coding overhead is a function of the
/// difference and not of how much the two peers already agree on.
#[test]
fn the_overhead_does_not_move_with_the_shared_set() {
    const SAMPLES: usize = 40;
    let alone = percentile(&distribution(0, 50, SAMPLES), 0.50);
    let buried = percentile(&distribution(2_000, 50, SAMPLES), 0.50);
    assert!(
        alone.abs_diff(buried) * 4 <= alone,
        "a difference of fifty cost {alone} symbols alone and {buried} buried \
         in two thousand shared items"
    );
}
