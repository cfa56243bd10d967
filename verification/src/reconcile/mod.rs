//! Transport-agnostic set reconciliation.
//!
//! Two peers holding overlapping sets discover their difference by exchanging
//! bytes proportional to that difference rather than to the size of the sets.
//! This module is pure protocol logic: no sockets, no storage, no timers. The
//! engines read a local set through [`source::ItemSource`], speak through
//! [`engine::Engine`], are driven by [`session::Session`], and are framed by
//! [`codec`]. [`drive`] and [`stream`] hold what a transport decides while it
//! runs a session over a byte stream.
//!
//! Items are kept in the order of their sort key, the item's height as eight
//! big-endian bytes followed by its identity, so the keyspace is ordered by
//! causal layer and by identity within a layer. The range engine fingerprints a
//! window as `SHA256((Σ SHA256(id)) mod 2^256 || uvarint(count))[..16]`.

pub mod bytes;
pub mod cbor;
pub mod codec;
pub mod drive;
pub mod engine;
pub mod error;
pub mod hash;
pub mod lists;
pub mod open;
pub mod session;
pub mod source;
pub mod stream;

pub use codec::{decode, encode, MessageKind, WireMessage, PROTOCOL_VERSION};
pub use engine::{Diff, Engine, Progress};
pub use error::ReconcileError;
pub use session::Session;
pub use source::{Bound, Item, ItemId, ItemSource, MemorySource, SortKey};
