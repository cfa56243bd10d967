//! The two frames a RIBLT session exchanges.
//!
//! The session is a pull: the loop both engines run under drains what a side has
//! to say and then waits, so an encoder that answered "another cell" forever
//! would never yield the loop. A decoder that asks for a batch and then asks for
//! a larger one makes the flow control explicit, and it costs one small frame
//! per batch rather than one per cell.
//!
//! Both frames carry the symbol width. The decoder cannot infer it when its own
//! set is empty, which is exactly the case where a session matters most, so the
//! width is stated rather than assumed and a disagreement is an error.
use crate::reconcile::engine::riblt::decoder;
use crate::reconcile::engine::riblt::symbol::{CellView, CodedSymbol};
use vstd::prelude::*;

verus! {

/// What a [`RibltMessage`] denotes.
#[verifier::ext_equal]
#[allow(inconsistent_fields)]
pub enum RibltMessageView {
    /// A request for cells.
    Request {
        /// Cells wanted.
        symbols: u32,
        /// The width the decoder reconciles at.
        width: u16,
    },
    /// A batch of cells.
    Symbols {
        /// The width every cell carries.
        width: u16,
        /// The cells, in stream order.
        symbols: Seq<CellView>,
    },
}

/// One message of a RIBLT session.
#[derive(Debug, PartialEq, Eq)]
#[allow(inconsistent_fields)]
pub enum RibltMessage {
    /// The decoder asking for the next `symbols` cells of the stream.
    Request {
        /// Cells wanted.
        symbols: u32,
        /// Symbol width the decoder reconciles at; `0` if its set is empty.
        width: u16,
    },
    /// The encoder answering with a prefix of its stream.
    Symbols {
        /// Symbol width every cell in the batch carries.
        width: u16,
        /// The cells, in stream order.
        symbols: Vec<CodedSymbol>,
    },
}

impl View for RibltMessage {
    type V = RibltMessageView;

    open spec fn view(&self) -> RibltMessageView {
        match self {
            RibltMessage::Request { symbols, width } => RibltMessageView::Request {
                symbols: *symbols,
                width: *width,
            },
            RibltMessage::Symbols { width, symbols } => RibltMessageView::Symbols {
                width: *width,
                symbols: decoder::cell_views(symbols@),
            },
        }
    }
}

/// Copies a run of cells.
pub fn copy_cells(cells: &[CodedSymbol]) -> (copy: Vec<CodedSymbol>)
    ensures
        decoder::cell_views(copy@) == decoder::cell_views(cells@),
{
    let mut copy: Vec<CodedSymbol> = Vec::with_capacity(cells.len());
    let mut i: usize = 0;
    while i < cells.len()
        invariant
            i <= cells@.len(),
            copy@.len() == i,
            forall|j: int| 0 <= j < i ==> (#[trigger] copy@[j])@ == cells@[j]@,
        decreases cells.len() - i,
    {
        copy.push(cells[i].clone());
        i = i + 1;
    }
    assert(decoder::cell_views(copy@) =~= decoder::cell_views(cells@));
    copy
}

impl Clone for RibltMessage {
    fn clone(&self) -> (copy: Self)
        ensures
            copy@ == self@,
    {
        match self {
            RibltMessage::Request { symbols, width } => RibltMessage::Request {
                symbols: *symbols,
                width: *width,
            },
            RibltMessage::Symbols { width, symbols } => RibltMessage::Symbols {
                width: *width,
                symbols: copy_cells(symbols.as_slice()),
            },
        }
    }
}

impl RibltMessage {
    /// A decoder's request for `symbols` more cells.
    pub fn request(width: usize, symbols: usize) -> (message: Self)
        ensures
            message@ == (RibltMessageView::Request { symbols: symbols as u32, width: width as u16 }),
    {
        RibltMessage::Request {
            symbols: #[verifier::truncate]
            (symbols as u32),
            width: #[verifier::truncate]
            (width as u16),
        }
    }

    /// An encoder's batch of cells.
    pub fn symbols(width: usize, symbols: Vec<CodedSymbol>) -> (message: Self)
        ensures
            message@ == (RibltMessageView::Symbols {
                width: width as u16,
                symbols: decoder::cell_views(symbols@),
            }),
    {
        RibltMessage::Symbols {
            width: #[verifier::truncate]
            (width as u16),
            symbols,
        }
    }

    /// How many coded symbols the message carries, which is what a session
    /// counts against its symbol budget.
    pub fn symbol_count(&self) -> (count: usize)
        ensures
            count == (match self@ {
                RibltMessageView::Request { .. } => 0,
                RibltMessageView::Symbols { symbols, .. } => symbols.len(),
            }),
    {
        match self {
            RibltMessage::Request { .. } => 0,
            RibltMessage::Symbols { symbols, .. } => symbols.len(),
        }
    }
}

} // verus!
