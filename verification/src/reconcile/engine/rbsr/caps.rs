//! Protocol caps, baked in so a single misbehaving peer cannot cause unbounded
//! work, allocation, or message size.
use vstd::prelude::*;

verus! {

/// Number of sub-ranges a responder splits a mismatching fingerprint range into.
/// Higher fan-out means fewer rounds but larger messages.
pub const BRANCHING_FACTOR: usize = 16;

/// Largest item count in a range for which a responder emits an explicit ID list
/// instead of splitting further.
pub const ID_LIST_THRESHOLD: usize = 64;

/// Hard cap on identities in a single ID-list range. Held equal to
/// [`ID_LIST_THRESHOLD`] so a listed range never exceeds the cap; named
/// separately so the list-vs-split threshold and the frame guard can be tuned
/// independently.
pub const MAX_IDS_PER_RANGE: usize = 64;

/// Bound on the number of ranges a single response may carry. Once reached, the
/// responder defers refinement of the remaining keyspace to a later round rather
/// than emitting an oversized message.
pub const MAX_RANGES_PER_MESSAGE: usize = 16_384;

/// Bound on the identity bytes a single response may list. A range whose list
/// would pass it is deferred to a later round. Half the transport's frame cap,
/// which leaves the other half to the bounds and the encoding around the lists.
///
/// That is enough for keys and identities of up to 128 bytes in answer to up to
/// [`MAX_RANGES_PER_MESSAGE`] ranges, and for wider ones in answer to fewer; the
/// width of a bound is not capped, so enough wide ones pass the frame cap all the
/// same.
pub const MAX_LISTED_ID_BYTES: usize = 8_388_608;

} // verus!
