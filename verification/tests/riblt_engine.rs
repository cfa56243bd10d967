//! What the RIBLT engine promises a session, and what it refuses.

use p2p::reconcile::codec;
use p2p::reconcile::engine::riblt::{caps, CodedSymbol, RibltEngine, RibltMessage};
use p2p::reconcile::{Engine, Item, ItemId, MemorySource, Progress, ReconcileError, Session};
use sha2::{Digest, Sha256};

/// What one simulated session produced.
struct Outcome {
    /// Identities the decoder must pull, ascending.
    need: Vec<ItemId>,
    /// Identities the decoder must push, ascending.
    have: Vec<ItemId>,
    /// Peer messages the decoder consumed.
    rounds: usize,
    /// Coded symbols the encoder produced.
    symbols: usize,
    /// Total encoded bytes crossing the wire in both directions.
    bytes: usize,
}

/// Reconciles `local` (as decoder) against `remote` (as encoder).
fn run(local: &MemorySource, remote: &MemorySource) -> Result<Outcome, ReconcileError> {
    let mut decoder = Session::new(RibltEngine::decoder(local)?);
    let mut encoder = Session::new(RibltEngine::encoder(remote)?);
    let mut bytes = 0usize;
    let mut symbols = 0usize;

    let mut request = decoder.next_outbound()?.expect("the decoder opens");
    loop {
        let (message, sent) = hop(&request)?;
        bytes += sent;
        encoder.ingest(message)?;

        let batch = encoder
            .next_outbound()?
            .expect("the encoder always answers a request");
        let (batch, sent) = hop(&batch)?;
        bytes += sent;
        symbols += batch.symbol_count();

        if decoder.ingest(batch)? == Progress::Converged {
            break;
        }
        request = decoder
            .next_outbound()?
            .expect("a decoder short of the difference asks again");
    }

    let mut need = decoder.diff().need().to_vec();
    let mut have = decoder.diff().have().to_vec();
    need.sort();
    have.sort();

    Ok(Outcome {
        need,
        have,
        rounds: decoder.rounds(),
        symbols,
        bytes,
    })
}

/// A deterministic 36-byte identity for a seed, the width of a CIDv1
/// `dag-cbor/sha2-256` item.
fn id(seed: u64) -> ItemId {
    let digest = Sha256::digest(seed.to_be_bytes());
    let mut bytes = digest.to_vec();
    bytes.extend_from_slice(&digest[..4]);
    ItemId::new(bytes)
}

/// Seals a set of seeds into a source.
fn source(seeds: impl IntoIterator<Item = u64>) -> MemorySource {
    MemorySource::new(
        seeds
            .into_iter()
            .map(|seed| Item::new(seed % 4, id(seed)))
            .collect(),
    )
    .expect("seeds are distinct")
}

/// The ascending identities of the given seeds.
fn ids(seeds: impl IntoIterator<Item = u64>) -> Vec<ItemId> {
    let mut ids: Vec<ItemId> = seeds.into_iter().map(id).collect();
    ids.sort();
    ids
}

/// Sends one message across the codec, returning what the peer decodes and how
/// many bytes it cost.
fn hop(message: &RibltMessage) -> Result<(RibltMessage, usize), ReconcileError> {
    let bytes = codec::encode(message)?;
    let decoded: RibltMessage = codec::decode(&bytes)?;
    assert_eq!(&decoded, message, "the codec must round-trip every message");
    Ok((decoded, bytes.len()))
}

/// The headline claim: what crosses the wire tracks the difference, not the
/// sets. Same difference of two, a set fifty times larger, and neither the
/// symbol count nor the round count moves.
///
/// The byte count moves by two: cells six and seven have member counts just under
/// 256 at the smaller set and just over it at the larger, one byte each.
#[test]
fn the_cost_tracks_the_difference_not_the_set_size() {
    let small = run(&source(0..1_000), &source(0..1_002)).expect("converges");
    let large = run(&source(0..50_000), &source(0..50_002)).expect("converges");

    assert_eq!(small.need.len(), 2, "the difference under test");
    assert_eq!(small.symbols, large.symbols, "coded symbols");
    assert_eq!(small.rounds, large.rounds, "rounds");
    assert_eq!(large.bytes - small.bytes, 2, "bytes on the wire");
}

/// Agreement is one batch out and one batch back however large the agreement
/// is, because the shared set annihilates itself in the very first cell.
#[test]
fn agreement_costs_one_round_at_any_set_size() {
    for n in [0u64, 1, 200, 20_000] {
        let outcome = run(&source(0..n), &source(0..n)).expect("converges");
        assert!(outcome.need.is_empty() && outcome.have.is_empty(), "n={n}");
        assert_eq!(outcome.rounds, 1, "n={n}");
    }
}

#[test]
fn the_difference_is_exact_in_both_directions() {
    let outcome = run(&source(0..100), &source(20..120)).expect("converges");
    assert_eq!(outcome.need, ids(100..120), "need is the encoder-only set");
    assert_eq!(outcome.have, ids(0..20), "have is the decoder-only set");
}

/// A stall is answered by reading more, so a difference well past the first
/// batch still converges — it just takes more batches.
#[test]
fn a_difference_larger_than_one_batch_keeps_streaming() {
    let outcome = run(&source(0..500), &source(0..700)).expect("converges");
    assert_eq!(outcome.need, ids(500..700));
    assert!(
        outcome.rounds > 1,
        "a 200-item difference cannot fit the first batch of {}",
        caps::INITIAL_SYMBOL_BATCH
    );
}

/// A decoder is not an encoder. Feeding a role the message it produces itself
/// is a protocol violation, not something to reinterpret.
#[test]
fn each_role_refuses_the_other_roles_message() {
    let set = source(0..4);

    let mut decoder = RibltEngine::decoder(&set).expect("uniform width");
    let request = decoder.next_outbound().expect("no error").expect("opening");
    assert_eq!(
        decoder
            .ingest(request.clone())
            .expect_err("a decoder cannot answer a request"),
        ReconcileError::UnexpectedMessage
    );

    let mut encoder = RibltEngine::encoder(&set).expect("uniform width");
    encoder
        .ingest(request)
        .expect("a request is the encoder's input");
    let batch = encoder.next_outbound().expect("no error").expect("batch");
    assert_eq!(
        encoder.ingest(batch).expect_err("an encoder cannot decode"),
        ReconcileError::UnexpectedMessage
    );
}

/// An empty batch would leave the decoder with nothing received and every cell
/// trivially accounted for, which reads as convergence. It is refused instead.
#[test]
fn an_empty_symbol_batch_is_refused() {
    let set = source(0..4);
    let mut decoder = RibltEngine::decoder(&set).expect("uniform width");
    let _ = decoder.next_outbound();

    assert_eq!(
        decoder
            .ingest(RibltMessage::symbols(36, Vec::new()))
            .expect_err("an empty batch says nothing"),
        ReconcileError::UnexpectedMessage
    );
}

/// The symbol is the identity, so a set of mixed identity widths has no XOR
/// group to be reconciled over and is refused before a session starts.
#[test]
fn a_source_of_mixed_widths_is_refused() {
    let mixed = MemorySource::new(vec![
        Item::new(0, ItemId::new(vec![1u8; 8])),
        Item::new(0, ItemId::new(vec![2u8; 36])),
    ])
    .expect("distinct keys");

    assert_eq!(
        RibltEngine::decoder(&mixed).err().expect("mixed widths"),
        ReconcileError::SymbolWidthMismatch {
            found: 36,
            expected: 8
        }
    );
}

/// Identities wider than the cap would let a peer's declared width size the
/// encoder's allocation.
#[test]
fn a_source_wider_than_the_cap_is_refused() {
    let wide = MemorySource::new(vec![Item::new(
        0,
        ItemId::new(vec![7u8; caps::MAX_SYMBOL_BYTES + 1]),
    )])
    .expect("one key");

    assert_eq!(
        RibltEngine::encoder(&wide).err().expect("too wide"),
        ReconcileError::SymbolTooWide {
            size: caps::MAX_SYMBOL_BYTES + 1,
            max: caps::MAX_SYMBOL_BYTES,
        }
    );
}

/// Two peers whose identities are different widths cannot reconcile at all; the
/// alternative is a session that decodes a fabricated difference.
#[test]
fn peers_of_different_symbol_widths_refuse_each_other() {
    let narrow =
        MemorySource::new(
            (0..4u64)
                .map(|n| Item::new(0, ItemId::new(n.to_be_bytes().to_vec())))
                .collect(),
        )
        .expect("distinct keys");
    let wide = source(0..4);

    let mut decoder = RibltEngine::decoder(&narrow).expect("uniform");
    let mut encoder = RibltEngine::encoder(&wide).expect("uniform");
    let request = decoder.next_outbound().expect("no error").expect("opening");

    assert_eq!(
        encoder.ingest(request).expect_err("widths disagree"),
        ReconcileError::SymbolWidthMismatch {
            found: 8,
            expected: 36
        }
    );
}

/// A decoder that never converges must stop pulling. The cap is the encoder's
/// bandwidth guard as much as the decoder's memory guard.
#[test]
fn a_stream_of_useless_cells_ends_on_the_symbol_cap() {
    let set = source(0..8);
    let mut decoder = RibltEngine::decoder(&set).expect("uniform width");
    let _ = decoder.next_outbound();

    let mut sent = 0;
    let error = loop {
        let useless = CodedSymbol::new(vec![0xab; 36], 0x1234_5678, 5);
        let batch = RibltMessage::symbols(36, vec![useless; 1024]);
        sent += 1024;
        match decoder.ingest(batch) {
            Ok(Progress::Continue) => {}
            Ok(Progress::Converged) => panic!("garbage cells must not converge"),
            Err(error) => break error,
        }
        assert!(sent <= caps::MAX_CODED_SYMBOLS + 1024, "the cap must bite");
        let _ = decoder.next_outbound();
    };

    assert_eq!(
        error,
        ReconcileError::SymbolCapExceeded {
            max: caps::MAX_CODED_SYMBOLS
        }
    );
}
