//! Errors raised by the reconciliation protocol layer.
use vstd::prelude::*;

verus! {

/// Every way a reconciliation session or its codec can fail.
///
/// All variants are recoverable: a peer that sends malformed, truncated, or
/// unsupported input ends its own session with an error and never panics the
/// local node.
#[derive(Debug, PartialEq, Eq)]
#[non_exhaustive]
#[allow(inconsistent_fields)]
pub enum ReconcileError {
    /// Two items shared a sort key, violating the duplicate-free set semantics
    /// the fingerprint relies on.
    DuplicateItem,
    /// An incoming range's upper bound preceded its lower bound, so it cannot
    /// map to a valid index window.
    MalformedBound,
    /// The session hit its round cap without converging, typically because the
    /// peer returned fingerprints that never agree.
    RoundCapExceeded {
        /// The cap that was exceeded.
        max: usize,
    },
    /// A message arrived after the session had already converged.
    SessionClosed,
    /// The frame declared a protocol version this build does not implement.
    UnsupportedVersion {
        /// The version carried by the frame.
        found: u16,
        /// The version this build speaks.
        expected: u16,
    },
    /// The frame declared a message kind this build does not know.
    UnknownMessageKind(u8),
    /// The frame carried a known kind, but not the one the caller asked to decode.
    MessageKindMismatch {
        /// The kind the frame declared.
        found: u8,
        /// The kind the caller tried to decode.
        expected: u8,
    },
    /// The opening frame named an engine this build does not run.
    UnsupportedEngine {
        /// The engine tag the frame carried.
        tag: u8,
    },
    /// A peer's ID-list range carried more identities than the cap allows.
    IdListTooLarge {
        /// Number of identities the peer sent.
        size: usize,
        /// The cap it exceeded.
        max: usize,
    },
    /// A frame exceeded the transport frame cap.
    FrameTooLarge {
        /// Size of the offending frame.
        size: usize,
        /// The cap it exceeded.
        max: usize,
    },
    /// CBOR encoding or decoding failed (truncated, garbage, or type-mismatched
    /// input).
    Codec(String),
    /// A peer's coded symbol was not the width this session reconciles at.
    /// XOR is only a group operation over one fixed width, so a mismatch is
    /// refused rather than reconciled against a prefix of itself.
    SymbolWidthMismatch {
        /// Width the peer's symbol carried.
        found: usize,
        /// Width this session reconciles at.
        expected: usize,
    },
    /// A peer's item identity was wider than the reconcilable cap.
    SymbolTooWide {
        /// Width the peer declared.
        size: usize,
        /// The cap it exceeded.
        max: usize,
    },
    /// A session exchanged its whole coded-symbol budget without the decoder
    /// converging, which is how a stream that never peels is stopped.
    SymbolCapExceeded {
        /// The cap that was exceeded.
        max: usize,
    },
    /// A peer sent a message the local role has no answer to: a request to a
    /// decoder, a symbol batch to an encoder, or a batch with no cells in it.
    UnexpectedMessage,
    /// The stream carrying the session failed, or the peer closed it before the
    /// session finished. A session that loses its transport ends here rather
    /// than waiting on a peer that will never answer.
    Transport(String),
}

} // verus!
