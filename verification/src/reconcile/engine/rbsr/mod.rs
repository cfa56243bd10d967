//! Range-based set reconciliation (RBSR, a.k.a. Negentropy).
//!
//! Two peers discover the difference between their sets while exchanging data
//! proportional to the symmetric difference rather than to the union, converging
//! in `O(log n)` rounds.
//!
//! The keyspace is tiled by [`Range`]s. The initiator opens with one full-range
//! [`Fingerprint`] and thereafter maps every incoming range to exactly one
//! outgoing range, never changing the tiling; only the responder refines, either
//! splitting a mismatching range into [`caps::BRANCHING_FACTOR`] sub-ranges or,
//! once the range holds at most [`caps::ID_LIST_THRESHOLD`] items, listing it
//! out. A single initiator-driven session teaches the initiator both what it
//! needs and what it has that the peer lacks; the responder stays stateless.
//!
//! What each side makes of one range is in [`answers`]. That a session ends on exactly
//! the true difference is in [`laws`], within how many rounds is in [`rounds`], that
//! the sessions at both ends get there in [`play`], and when its messages fit a frame
//! is in [`fit`].

pub mod answers;
pub mod caps;
pub mod engine;
pub mod fingerprint;
pub mod fit;
pub mod initiator;
pub mod laws;
pub mod message;
pub mod play;
pub mod responder;
pub mod rounds;
pub mod segment_tree;
pub mod wire;

pub use engine::{RbsrEngine, Role};
pub use fingerprint::{Accumulator, Fingerprint, FINGERPRINT_LEN};
pub use message::{Mode, Range, RbsrMessage};
pub use segment_tree::SegmentTree;
