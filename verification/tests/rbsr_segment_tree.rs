use p2p::reconcile::engine::rbsr::{Fingerprint, SegmentTree};
use p2p::reconcile::{Bound, Item, ItemId, ItemSource, MemorySource, ReconcileError, SortKey};
use sha2::{Digest, Sha256};

fn id(n: u64) -> ItemId {
    ItemId::new(Sha256::digest(n.to_be_bytes()).to_vec())
}

fn source(n: u64) -> MemorySource {
    MemorySource::new((0..n).map(|i| Item::new(0, id(i))).collect()).expect("distinct items")
}

fn scan(source: &MemorySource, lo: usize, hi: usize) -> Fingerprint {
    let ids: Vec<&ItemId> = (lo..hi).map(|i| source.id(i)).collect();
    Fingerprint::of(&ids)
}

#[test]
fn every_range_matches_a_linear_scan() {
    for n in [0u64, 1, 2, 3, 7, 8, 9, 16, 17, 64, 129] {
        let src = source(n);
        let tree = SegmentTree::build(&src);
        let len = n as usize;
        for lo in 0..=len {
            for hi in lo..=len {
                assert_eq!(
                    tree.fingerprint(lo, hi),
                    scan(&src, lo, hi),
                    "n={n} range=[{lo},{hi})"
                );
            }
        }
    }
}

#[test]
fn an_empty_range_is_the_empty_fingerprint() {
    let src = source(32);
    let tree = SegmentTree::build(&src);
    assert_eq!(tree.fingerprint(0, 0), Fingerprint::empty());
    assert_eq!(tree.fingerprint(9, 9), Fingerprint::empty());
    assert_eq!(tree.fingerprint(32, 32), Fingerprint::empty());
}

#[test]
fn an_empty_source_fingerprints_empty() {
    let src = source(0);
    let tree = SegmentTree::build(&src);
    assert_eq!(tree.len(), 0);
    assert!(tree.is_empty());
    assert_eq!(tree.fingerprint(0, 0), Fingerprint::empty());
}

#[test]
fn adjacent_accumulations_compose_into_the_whole() {
    let src = source(500);
    let tree = SegmentTree::build(&src);
    let mut composed = tree.accumulate(0, 173);
    composed.merge(&tree.accumulate(173, 500));
    assert_eq!(composed.finalize(), tree.fingerprint(0, 500));
    assert_eq!(composed.count(), 500);
}

#[test]
fn a_large_tree_matches_the_scan_on_sampled_ranges() {
    let src = source(4096);
    let tree = SegmentTree::build(&src);
    let mut state = 0x9e37_79b9_7f4a_7c15u64;
    for _ in 0..200 {
        state ^= state << 13;
        state ^= state >> 7;
        state ^= state << 17;
        let a = (state % 4097) as usize;
        let b = ((state >> 20) % 4097) as usize;
        let (lo, hi) = if a <= b { (a, b) } else { (b, a) };
        assert_eq!(tree.fingerprint(lo, hi), scan(&src, lo, hi), "[{lo},{hi})");
    }
}

/// Over an empty source every bound seeks to zero, and an inverted pair still
/// fails.
#[test]
fn an_inverted_pair_fails_over_an_empty_source() {
    let src = source(0);
    let tree = SegmentTree::build(&src);
    let low = Bound::Key(SortKey::new(0, &id(1)));
    let high = Bound::Key(SortKey::new(9, &id(1)));
    for (lo, hi) in [
        (&Bound::Max, &Bound::Min),
        (&high, &low),
        (&low, &Bound::Min),
        (&Bound::Max, &high),
    ] {
        assert_eq!(tree.window(lo, hi), Err(ReconcileError::MalformedBound));
        assert_eq!(tree.window(hi, lo), Ok((0, 0)));
    }
    assert_eq!(tree.window(&low, &low), Ok((0, 0)));
}

/// Two bounds between the same neighbouring items seek to one index.
#[test]
fn an_inverted_pair_between_neighbours_fails() {
    let key = |height: u64| Bound::Key(SortKey::new(height, &id(7)));
    let items = [1u64, 5].map(|height| Item::new(height, id(height)));
    let src = MemorySource::new(items.to_vec()).expect("distinct items");
    let tree = SegmentTree::build(&src);
    assert_eq!(tree.window(&key(2), &key(4)), Ok((1, 1)));
    assert_eq!(
        tree.window(&key(4), &key(2)),
        Err(ReconcileError::MalformedBound)
    );
    assert_eq!(tree.window(&key(0), &key(9)), Ok((0, 2)));
    assert_eq!(
        tree.window(&key(9), &key(0)),
        Err(ReconcileError::MalformedBound)
    );
}
