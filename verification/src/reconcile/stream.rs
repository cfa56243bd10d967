//! How a frame travels on a byte stream.
//!
//! A frame goes out behind a four-byte big-endian length. A session's normal
//! end is the peer finishing its sending half between two frames, so an end of
//! stream before the first byte of a length is "no more frames" and not an
//! error, while an end in the middle of one is.
use crate::reconcile::bytes;
use crate::reconcile::codec::MAX_FRAME_BYTES;
use crate::reconcile::error::ReconcileError;
use vstd::prelude::*;

verus! {

/// Width of the length that goes ahead of a frame, in bytes.
pub const PREFIX_LEN: usize = 4;

/// The largest length the prefix can carry.
pub const MAX_PREFIXED: usize = 4_294_967_295;

/// The length that goes ahead of a frame of this many bytes.
pub fn frame_prefix(len: usize) -> (r: Result<Vec<u8>, ReconcileError>)
    ensures
        match r {
            Ok(prefix) => {
                &&& len <= MAX_PREFIXED
                &&& prefix@ == bytes::be_bytes(len as nat, PREFIX_LEN as nat)
            },
            Err(error) => {
                &&& len > MAX_PREFIXED
                &&& error == (ReconcileError::FrameTooLarge { size: len, max: MAX_FRAME_BYTES })
            },
        },
{
    if len > MAX_PREFIXED {
        return Err(ReconcileError::FrameTooLarge { size: len, max: MAX_FRAME_BYTES });
    }
    let mut prefix: Vec<u8> = Vec::with_capacity(PREFIX_LEN);
    proof {
        reveal_with_fuel(bytes::pow256, 5);
    }
    bytes::push_be(&mut prefix, len as u64, PREFIX_LEN);
    assert(prefix@ =~= bytes::be_bytes(len as nat, PREFIX_LEN as nat));
    Ok(prefix)
}

/// What came of reading the length ahead of a frame.
#[derive(Debug, PartialEq, Eq)]
pub enum PrefixRead {
    /// All of it arrived.
    Whole([u8; 4]),
    /// The peer closed its sending half.
    Ended {
        /// How many bytes of it had arrived.
        arrived: usize,
        /// How the stream words that.
        reason: String,
    },
    /// The stream failed, for this reason.
    Failed(String),
}

/// How many bytes the frame ahead holds, or `None` once the peer has closed its
/// sending half with no partial frame outstanding.
pub fn announced(read: PrefixRead) -> (r: Result<Option<usize>, ReconcileError>)
    ensures
        match read {
            PrefixRead::Whole(prefix) => {
                let len = bytes::be_value(prefix@);
                if len <= MAX_FRAME_BYTES {
                    r == Ok::<Option<usize>, ReconcileError>(Some(len as usize))
                } else {
                    r == Err::<Option<usize>, ReconcileError>(
                        ReconcileError::FrameTooLarge { size: len as usize, max: MAX_FRAME_BYTES },
                    ) && len <= MAX_PREFIXED
                }
            },
            PrefixRead::Ended { arrived, reason } => if arrived == 0 {
                r == Ok::<Option<usize>, ReconcileError>(None)
            } else {
                r == Err::<Option<usize>, ReconcileError>(ReconcileError::Transport(reason))
            },
            PrefixRead::Failed(reason) => r == Err::<Option<usize>, ReconcileError>(
                ReconcileError::Transport(reason),
            ),
        },
{
    match read {
        PrefixRead::Whole(prefix) => {
            proof {
                bytes::lemma_be_value_bound(prefix@);
                reveal_with_fuel(bytes::pow256, 5);
            }
            let len = bytes::read_be(prefix.as_slice()) as usize;
            if len > MAX_FRAME_BYTES {
                return Err(ReconcileError::FrameTooLarge { size: len, max: MAX_FRAME_BYTES });
            }
            Ok(Some(len))
        },
        PrefixRead::Ended { arrived, reason } => {
            if arrived == 0 {
                Ok(None)
            } else {
                Err(ReconcileError::Transport(reason))
            }
        },
        PrefixRead::Failed(reason) => Err(ReconcileError::Transport(reason)),
    }
}

/// The length that goes out ahead of a frame is the length that is read back.
pub proof fn lemma_prefix_round_trip(len: nat)
    requires
        len <= MAX_PREFIXED,
    ensures
        bytes::be_bytes(len, PREFIX_LEN as nat).len() == PREFIX_LEN,
        bytes::be_value(bytes::be_bytes(len, PREFIX_LEN as nat)) == len,
{
    reveal_with_fuel(bytes::pow256, 5);
    bytes::lemma_be_bytes_len(len, PREFIX_LEN as nat);
    bytes::lemma_be_round_trip(len, PREFIX_LEN as nat);
}

/// The length ahead of a frame is four bytes, the most significant first.
pub proof fn lemma_prefix_spells_the_length(len: nat)
    requires
        len <= 0xffff_ffff,
    ensures
        bytes::be_bytes(len, PREFIX_LEN as nat) == seq![
            (len / 0x100_0000) as u8,
            (len / 0x1_0000 % 0x100) as u8,
            (len / 0x100 % 0x100) as u8,
            (len % 0x100) as u8,
        ],
        MAX_PREFIXED == 0xffff_ffff,
        MAX_FRAME_BYTES == 0x100_0000,
{
    reveal_with_fuel(bytes::be_bytes, 5);
}

} // verus!
