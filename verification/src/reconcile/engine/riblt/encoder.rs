//! The oblivious side of a session: an unbounded stream of coded symbols.
//!
//! The encoder learns nothing. It never sees the peer's set, never branches on
//! anything the peer said, and produces the same stream for every peer, which is
//! what makes one stream broadcastable to many behind peers.
//!
//! Its cost is the honest one: the set is enumerated once per session, at `O(n)`
//! to load plus `O(log m)` amortized per emitted cell.
use crate::reconcile::engine::riblt::symbol;
use crate::reconcile::engine::riblt::symbol::{CellView, CodedSymbol, HashedSymbol, ADD};
use crate::reconcile::engine::riblt::window;
use crate::reconcile::engine::riblt::window::CodingWindow;
use vstd::prelude::*;

verus! {

/// Coded symbol `index` of the stream of a set: its members, folded into one
/// cell.
pub open spec fn stream_cell(width: nat, symbols: Seq<Seq<u8>>, index: int) -> CellView {
    window::folded(symbol::zero_cell(width), symbols, ADD, index)
}

/// Produces the coded-symbol stream of one sealed set.
pub struct Encoder {
    window: CodingWindow,
    width: usize,
}

impl Encoder {
    /// The set, in the order it was loaded.
    pub closed spec fn symbols(&self) -> Seq<Seq<u8>> {
        self.window.symbols()
    }

    /// The stream index that is produced next.
    pub closed spec fn position(&self) -> u64 {
        self.window.position()
    }

    /// The width of the cells produced.
    pub closed spec fn width(&self) -> usize {
        self.width
    }

    /// Whether every symbol is scheduled where the stream stands.
    pub closed spec fn wf(&self) -> bool {
        self.window.wf()
    }

    /// An encoder over an empty set of `width`-byte symbols.
    pub fn new(width: usize) -> (encoder: Self)
        ensures
            encoder.wf(),
            encoder.symbols() == Seq::<Seq<u8>>::empty(),
            encoder.position() == 0,
            encoder.width() == width,
    {
        Encoder { window: CodingWindow::new(), width }
    }

    /// Adds one source symbol. All symbols must be added before the first
    /// [`Self::produce_next`]: the stream is defined over a sealed set.
    pub fn add(&mut self, symbol: Vec<u8>)
        requires
            old(self).wf(),
            old(self).position() == 0,
        ensures
            final(self).wf(),
            final(self).symbols() == old(self).symbols().push(symbol@),
            final(self).position() == 0,
            final(self).width() == old(self).width(),
    {
        self.window.add(HashedSymbol::new(symbol));
    }

    /// Produces the next coded symbol of the stream.
    pub fn produce_next(&mut self) -> (cell: CodedSymbol)
        requires
            old(self).wf(),
            old(self).position() < u64::MAX,
        ensures
            final(self).wf(),
            final(self).symbols() == old(self).symbols(),
            final(self).position() == old(self).position() + 1,
            final(self).width() == old(self).width(),
            cell@ == stream_cell(
                old(self).width() as nat,
                old(self).symbols(),
                old(self).position() as int,
            ),
    {
        let mut cell = CodedSymbol::zero(self.width);
        self.window.apply(&mut cell, ADD);
        cell
    }
}

} // verus!
