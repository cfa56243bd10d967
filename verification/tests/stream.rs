//! The length that goes ahead of a frame.

use p2p::reconcile::codec::MAX_FRAME_BYTES;
use p2p::reconcile::stream::{announced, frame_prefix, PrefixRead, MAX_PREFIXED};
use p2p::reconcile::ReconcileError;

fn four(bytes: &[u8]) -> [u8; 4] {
    [bytes[0], bytes[1], bytes[2], bytes[3]]
}

#[test]
fn a_length_is_four_big_endian_bytes() {
    assert_eq!(frame_prefix(0), Ok(vec![0, 0, 0, 0]));
    assert_eq!(frame_prefix(444), Ok(vec![0, 0, 1, 188]));
    assert_eq!(frame_prefix(MAX_FRAME_BYTES), Ok(vec![1, 0, 0, 0]));
    assert_eq!(frame_prefix(MAX_PREFIXED), Ok(vec![255, 255, 255, 255]));
}

#[test]
fn a_frame_too_long_for_the_prefix_is_refused() {
    assert_eq!(
        frame_prefix(MAX_PREFIXED + 1),
        Err(ReconcileError::FrameTooLarge {
            size: MAX_PREFIXED + 1,
            max: MAX_FRAME_BYTES,
        })
    );
}

#[test]
fn a_length_reads_back() {
    for len in [0usize, 1, 84, 255, 256, 65_535, 1_000_000, MAX_FRAME_BYTES] {
        let prefix = frame_prefix(len).expect("fits");
        assert_eq!(announced(PrefixRead::Whole(four(&prefix))), Ok(Some(len)));
    }
}

#[test]
fn a_length_over_the_frame_cap_is_refused() {
    let prefix = frame_prefix(MAX_FRAME_BYTES + 1).expect("fits the prefix");
    assert_eq!(
        announced(PrefixRead::Whole(four(&prefix))),
        Err(ReconcileError::FrameTooLarge {
            size: MAX_FRAME_BYTES + 1,
            max: MAX_FRAME_BYTES,
        })
    );
}

#[test]
fn a_clean_close_is_the_end_and_a_cut_length_is_not() {
    let ended = |arrived: usize| PrefixRead::Ended {
        arrived,
        reason: "finished early".to_string(),
    };
    assert_eq!(announced(ended(0)), Ok(None));
    for arrived in 1..4 {
        assert_eq!(
            announced(ended(arrived)),
            Err(ReconcileError::Transport("finished early".to_string()))
        );
    }
    assert_eq!(
        announced(PrefixRead::Failed("reset".to_string())),
        Err(ReconcileError::Transport("reset".to_string()))
    );
}
