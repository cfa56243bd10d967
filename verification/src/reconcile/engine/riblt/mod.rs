//! Rateless set reconciliation (RIBLT).
//!
//! Two peers discover the difference between their sets while exchanging bytes
//! proportional to the symmetric difference and independent of the union. One
//! side, the encoder, turns its set into an endless stream of coded symbols; the
//! other, the decoder, subtracts its own set from the stream cell by cell. The
//! shared majority annihilates itself, and what is left is peeled into the
//! difference. There is no order, no range and no tiling here: XOR arithmetic
//! over a hash-driven index mapping takes their place.
//!
//! - The index mapping jumps through the cells with participation probability
//!   `1/(1+i/2)` at cell `i`, from a state that is seeded with the symbol's hash
//!   and multiplied by a constant at each step.
//! - A coded symbol is the XOR of its members, the XOR of their hashes and
//!   their signed count. The hash is SHA-256 cut to eight bytes, read
//!   little-endian.
//! - Convergence is "every residual is the identity", and a cell that has ever
//!   been fully explained is never peeled again.
//! - The session is a pull: the decoder asks for batches that double in size.
//! - Symbols have a declared width, which is bounded by
//!   [`caps::MAX_SYMBOL_BYTES`] because a peer can declare it.
//!
//! Peeling is probabilistic: an unlucky prefix costs a few more symbols, never a
//! wrong answer between honest peers whose cells read true (see [`laws`] and
//! [`exchange`]). What may be recovered from cells no honest encoder produces is
//! in [`recovery`], what an honest stream is sure to yield in [`completeness`], when
//! the sessions at both ends are over in [`play`], and that every message fits a
//! frame in [`fit`].

pub mod caps;
pub mod completeness;
pub mod decoder;
pub mod encoder;
pub mod engine;
pub mod exchange;
pub mod fit;
pub mod heap;
pub mod laws;
pub mod mapping;
pub mod message;
pub mod play;
pub mod recovery;
pub mod rounding;
pub mod sketch;
pub mod symbol;
pub mod window;
pub mod wire;

pub use decoder::Decoder;
pub use encoder::Encoder;
pub use engine::RibltEngine;
pub use message::RibltMessage;
pub use symbol::CodedSymbol;
