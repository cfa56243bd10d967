//! Pins the index mapping and the symbol hash.

use p2p::reconcile::engine::riblt::mapping::RandomMapping;
use p2p::reconcile::engine::riblt::symbol::symbol_hash;
use sha2::{Digest, Sha256};

/// A 36-byte symbol: `SHA-256("riblt-vector-<n>")` followed by its own first four
/// bytes.
fn vector_item(n: usize) -> Vec<u8> {
    let digest = Sha256::digest(format!("riblt-vector-{n}").as_bytes());
    let mut symbol = digest.to_vec();
    symbol.extend_from_slice(&digest[..4]);
    symbol
}

/// `item n -> (hash, the mapped indices below 64)`.
const SINGLETON_MAPPING: [(u64, &[u64]); 4] = [
    (0xa7eb_adfd_fc10_5ad7, &[0, 1, 6, 11, 17, 26, 47]),
    (0xcef6_cfff_f515_e87a, &[0, 1, 2, 7, 8, 22, 57]),
    (0xc8af_0b7c_dd32_0d21, &[0, 3, 4, 5, 7, 22, 26, 27, 50, 61]),
    (0x8377_8720_c4c3_14d1, &[0, 51, 62]),
];

#[test]
fn the_symbol_hash_matches_the_reference_drivers_hash() {
    for (n, (hash, _)) in SINGLETON_MAPPING.iter().enumerate() {
        assert_eq!(symbol_hash(&vector_item(n)), *hash, "item {n}");
    }
}

#[test]
fn the_index_mapping_matches_the_reference() {
    for (n, (hash, expected)) in SINGLETON_MAPPING.iter().enumerate() {
        let mut mapping = RandomMapping::new(*hash);
        let mut indices = vec![mapping.index()];
        loop {
            let next = mapping.next_index();
            if next >= 64 {
                break;
            }
            indices.push(next);
        }
        assert_eq!(indices, *expected, "item {n}");
    }
}

/// Every symbol is in coded symbol 0, which is what makes the whole shared
/// prefix of two sets cancel in the very first cell.
#[test]
fn every_symbol_starts_at_index_zero() {
    for seed in [0u64, 1, 42, u64::MAX] {
        assert_eq!(RandomMapping::new(seed).index(), 0);
    }
}

/// The indices a symbol maps to must ascend, or the encoder's priority queue
/// would revisit a coded symbol it has already emitted.
#[test]
fn indices_ascend() {
    for seed in [1u64, 7, 0x5555_5555_5555_5555, u64::MAX] {
        let mut mapping = RandomMapping::new(seed);
        let mut previous = mapping.index();
        for _ in 0..1000 {
            let next = mapping.next_index();
            assert!(next >= previous, "seed {seed}: {next} < {previous}");
            previous = next;
        }
    }
}

/// The `1/(1+i/2)` participation decay is the whole reason a prefix of the
/// stream is a well-proportioned sketch. Over many seeds, the count of symbols
/// mapped to index `i` must track `n/(1+i/2)`.
#[test]
fn participation_decays_as_one_over_index() {
    const SEEDS: u64 = 20_000;
    let mut hits = [0u64; 8];
    for seed in 1..=SEEDS {
        let mut mapping = RandomMapping::new(symbol_hash(&seed.to_be_bytes()));
        let mut index = mapping.index();
        while index < hits.len() as u64 {
            hits[index as usize] += 1;
            index = mapping.next_index();
        }
    }

    assert_eq!(hits[0], SEEDS, "index 0 holds every symbol");
    for (index, hit) in hits.iter().enumerate().skip(1) {
        let expected = SEEDS as f64 / (1.0 + index as f64 / 2.0);
        let ratio = *hit as f64 / expected;
        assert!(
            (0.9..1.1).contains(&ratio),
            "index {index}: {hit} hits against an expected {expected:.0}"
        );
    }
}

/// The sequence in double precision, term by term.
fn float_step(prng: u64, last: u64) -> (u64, u64) {
    let draw = prng.wrapping_mul(0xda94_2042_e4dd_58b5);
    let jump =
        (last as f64 + 1.5) * ((1u64 << 32) as f64 / (draw as f64 + 1.0).sqrt() - 1.0);
    (draw, last.saturating_add((jump.ceil() as u64).max(1)))
}

/// The integer arithmetic of the mapping is double-precision arithmetic, bit for
/// bit, from the first index to where the sequence saturates.
#[test]
fn the_mapping_agrees_with_double_precision() {
    let mut state = 0x2545_f491_4f6c_dd1du64;
    for _ in 0..2_000 {
        state ^= state << 13;
        state ^= state >> 7;
        state ^= state << 17;
        let mut mapping = RandomMapping::new(state);
        let (mut prng, mut last) = (state, 0u64);
        for step in 0..60 {
            (prng, last) = float_step(prng, last);
            assert_eq!(mapping.next_index(), last, "seed {state:#x} step {step}");
        }
    }
}

/// Draws at the edges of the rounding: zero, powers of two, and the top of the
/// range, where the draw itself rounds up to `2^64`.
#[test]
fn the_mapping_agrees_with_double_precision_at_the_edges() {
    // The inverse of the odd multiplier modulo 2^64, by Newton's iteration.
    let multiplier = 0xda94_2042_e4dd_58b5u64;
    let mut inverse = multiplier;
    for _ in 0..6 {
        inverse = inverse.wrapping_mul(2u64.wrapping_sub(multiplier.wrapping_mul(inverse)));
    }
    assert_eq!(multiplier.wrapping_mul(inverse), 1);

    let mut draws: Vec<u64> = Vec::new();
    for bit in 0..64 {
        for offset in [0u64, 1, 2] {
            draws.push((1u64 << bit).wrapping_add(offset));
            draws.push((1u64 << bit).wrapping_sub(offset));
        }
    }
    for back in 0..4_096 {
        draws.push(u64::MAX - back);
    }
    for draw in draws {
        let seed = draw.wrapping_mul(inverse);
        let mut mapping = RandomMapping::new(seed);
        let (mut prng, mut last) = (seed, 0u64);
        for step in 0..3 {
            (prng, last) = float_step(prng, last);
            assert_eq!(mapping.next_index(), last, "draw {draw:#x} step {step}");
        }
    }
}

/// A seed of zero draws zero forever, so every jump is the longest there is.
#[test]
fn the_sequence_saturates_rather_than_wrapping() {
    let mut mapping = RandomMapping::new(0);
    let mut previous = 0;
    for _ in 0..8 {
        let next = mapping.next_index();
        assert!(next > previous || next == u64::MAX);
        previous = next;
    }
    assert_eq!(previous, u64::MAX);
}
