//! The RIBLT engine: one side of one rateless-sketch session.
//!
//! The encoder holds a stream generator and no session state at all, while the
//! decoder holds everything that is being solved. So the two roles are two
//! variants rather than a flag, and each refuses the other's message outright:
//! a decoder handed a request has no answer that is not a fabrication.
//!
//! # Stopping
//!
//! The decoder decides, and it has exactly three answers. Every cell received
//! accounted for is [`Progress::Converged`]. A stall, or a residual that has not
//! resolved, is [`Progress::Continue`] with a larger request, never a failure,
//! because a stalled peel means the prefix is short, not wrong. Reaching
//! [`caps::MAX_CODED_SYMBOLS`] is
//! [`SymbolCapExceeded`](ReconcileError::SymbolCapExceeded).
use crate::reconcile::bytes;
use crate::reconcile::engine;
use crate::reconcile::engine::riblt::caps;
use crate::reconcile::engine::riblt::decoder;
use crate::reconcile::engine::riblt::decoder::{Decoder, DecoderView};
use crate::reconcile::engine::riblt::encoder;
use crate::reconcile::engine::riblt::encoder::Encoder;
use crate::reconcile::engine::riblt::fit;
use crate::reconcile::engine::riblt::message::{RibltMessage, RibltMessageView};
use crate::reconcile::engine::riblt::symbol::{CellView, CodedSymbol};
use crate::reconcile::engine::{Diff, DiffView, Engine, Progress};
use crate::reconcile::error::ReconcileError;
use crate::reconcile::source;
use crate::reconcile::source::{ItemId, ItemSource};
use vstd::prelude::*;

verus! {

/// The state of the side a RIBLT engine plays.
#[verifier::ext_equal]
pub enum RoleView {
    /// Streams cells and learns nothing.
    Encoder {
        /// The set being streamed.
        symbols: Seq<Seq<u8>>,
        /// The stream index produced next.
        position: nat,
        /// Cells produced in this session.
        produced: nat,
    },
    /// Subtracts, peels, and learns the difference.
    Decoder {
        /// What is being solved.
        state: DecoderView,
        /// Cells received in this session.
        received: nat,
    },
}

/// The state of a RIBLT engine.
#[verifier::ext_equal]
pub struct RibltView {
    /// The side it plays.
    pub role: RoleView,
    /// The width it reconciles at, `0` while unknown.
    pub width: nat,
    /// The message to send next.
    pub pending: Option<RibltMessageView>,
    /// What it has learned.
    pub diff: DiffView,
}

/// The first identity whose width differs from that of the first of all.
pub open spec fn odd_width(ids: Seq<Seq<u8>>, from: int) -> Option<nat>
    decreases ids.len() - from,
{
    if from >= ids.len() {
        None
    } else if ids[from].len() != ids[0].len() {
        Some(ids[from].len())
    } else {
        odd_width(ids, from + 1)
    }
}

/// The one symbol width a source reconciles at, or why it cannot be reconciled.
pub open spec fn width_of(ids: Seq<Seq<u8>>) -> Result<nat, ReconcileError> {
    if ids.len() == 0 {
        Ok(0nat)
    } else {
        match odd_width(ids, 0) {
            Some(found) => Err(
                ReconcileError::SymbolWidthMismatch {
                    found: found as usize,
                    expected: ids[0].len() as usize,
                },
            ),
            None => if ids[0].len() > caps::MAX_SYMBOL_BYTES {
                Err(
                    ReconcileError::SymbolTooWide {
                        size: ids[0].len() as usize,
                        max: caps::MAX_SYMBOL_BYTES,
                    },
                )
            } else {
                Ok(ids[0].len())
            },
        }
    }
}

/// The batch to ask for next: double what has arrived, within the frame cap.
pub open spec fn next_batch_size(received: nat) -> nat {
    if received < caps::INITIAL_SYMBOL_BATCH {
        caps::INITIAL_SYMBOL_BATCH as nat
    } else if received > caps::MAX_SYMBOL_BATCH {
        caps::MAX_SYMBOL_BATCH as nat
    } else {
        received
    }
}

/// The state once the peer's declared width is reconciled with the local one.
///
/// A side whose width is unknown takes the peer's and starts over at it; two
/// known widths must agree.
pub open spec fn adopted(v: RibltView, peer_width: u16) -> Result<RibltView, ReconcileError> {
    if peer_width > caps::MAX_SYMBOL_BYTES {
        Err(
            ReconcileError::SymbolTooWide {
                size: peer_width as usize,
                max: caps::MAX_SYMBOL_BYTES,
            },
        )
    } else if v.width == peer_width || peer_width == 0 {
        Ok(v)
    } else if v.width != 0 {
        Err(
            ReconcileError::SymbolWidthMismatch {
                found: peer_width as usize,
                expected: v.width as usize,
            },
        )
    } else {
        Ok(
            RibltView {
                width: peer_width as nat,
                role: match v.role {
                    RoleView::Encoder { produced, .. } => RoleView::Encoder {
                        symbols: Seq::empty(),
                        position: 0,
                        produced,
                    },
                    RoleView::Decoder { received, .. } => RoleView::Decoder {
                        state: decoder::fresh(peer_width as nat, Seq::empty()),
                        received,
                    },
                },
                ..v
            },
        )
    }
}

/// The next `count` cells of a stream.
pub open spec fn stream_batch(
    width: nat,
    symbols: Seq<Seq<u8>>,
    position: nat,
    count: nat,
) -> Seq<CellView> {
    Seq::new(count, |k: int| encoder::stream_cell(width, symbols, position + k))
}

/// How many cells answer a request, given how many the session may still
/// produce.
pub open spec fn granted(wanted: u32, remaining: nat) -> nat {
    let capped = if wanted < 1 {
        1
    } else if wanted > caps::MAX_SYMBOL_BATCH {
        caps::MAX_SYMBOL_BATCH as nat
    } else {
        wanted as nat
    };
    if capped > remaining {
        remaining
    } else {
        capped
    }
}

/// An encoder's answer to a request: the next cells of its stream.
pub open spec fn served(v: RibltView, wanted: u32, peer_width: u16) -> (
    RibltView,
    Result<Progress, ReconcileError>,
) {
    match adopted(v, peer_width) {
        Err(error) => (v, Err(error)),
        Ok(w) => match w.role {
            RoleView::Decoder { .. } => (w, Err(ReconcileError::UnexpectedMessage)),
            RoleView::Encoder { symbols, position, produced } => {
                if produced >= caps::MAX_CODED_SYMBOLS {
                    (
                        w,
                        Err(ReconcileError::SymbolCapExceeded { max: caps::MAX_CODED_SYMBOLS }),
                    )
                } else {
                    let count = granted(wanted, (caps::MAX_CODED_SYMBOLS - produced) as nat);
                    (
                        RibltView {
                            role: RoleView::Encoder {
                                symbols,
                                position: position + count,
                                produced: produced + count,
                            },
                            pending: Some(
                                RibltMessageView::Symbols {
                                    width: w.width as u16,
                                    symbols: stream_batch(w.width, symbols, position, count),
                                },
                            ),
                            ..w
                        },
                        Ok(Progress::Continue),
                    )
                }
            },
        },
    }
}

/// A decoder's state after taking in a batch up to the first cell that is not
/// the session's width, and that cell's width.
pub open spec fn took(state: DecoderView, batch: Seq<CellView>) -> (DecoderView, Option<nat>)
    decreases batch.len(),
{
    if batch.len() == 0 {
        (state, None)
    } else if batch[0].sum.len() != state.width {
        (state, Some(batch[0].sum.len()))
    } else {
        took(decoder::taken(state, batch[0]), batch.skip(1))
    }
}

/// A decoder's answer to a batch: take the cells, peel, and decide whether to
/// ask for more.
pub open spec fn solved(v: RibltView, peer_width: u16, batch: Seq<CellView>) -> (
    RibltView,
    Result<Progress, ReconcileError>,
) {
    if batch.len() == 0 {
        (v, Err(ReconcileError::UnexpectedMessage))
    } else {
        match adopted(v, peer_width) {
            Err(error) => (v, Err(error)),
            Ok(w) => match w.role {
                RoleView::Encoder { .. } => (w, Err(ReconcileError::UnexpectedMessage)),
                RoleView::Decoder { state, received } => {
                    if received + batch.len() > caps::MAX_CODED_SYMBOLS {
                        (
                            w,
                            Err(
                                ReconcileError::SymbolCapExceeded { max: caps::MAX_CODED_SYMBOLS },
                            ),
                        )
                    } else {
                        let total = received + batch.len();
                        let (filled, odd) = took(state, batch);
                        let settled = decoder::drained(filled);
                        match odd {
                            Some(found) => (
                                RibltView {
                                    role: RoleView::Decoder { state: filled, received: total },
                                    ..w
                                },
                                Err(
                                    ReconcileError::SymbolWidthMismatch {
                                        found: found as usize,
                                        expected: state.width as usize,
                                    },
                                ),
                            ),
                            None => if decoder::decoded(settled) {
                                (
                                    RibltView {
                                        role: RoleView::Decoder { state: settled, received: total },
                                        pending: None,
                                        diff: DiffView {
                                            need: w.diff.need + settled.remote,
                                            have: w.diff.have + settled.local,
                                        },
                                        ..w
                                    },
                                    Ok(Progress::Converged),
                                )
                            } else {
                                (
                                    RibltView {
                                        role: RoleView::Decoder { state: settled, received: total },
                                        pending: Some(
                                            RibltMessageView::Request {
                                                symbols: next_batch_size(total) as u32,
                                                width: w.width as u16,
                                            },
                                        ),
                                        ..w
                                    },
                                    Ok(Progress::Continue),
                                )
                            },
                        }
                    }
                },
            },
        }
    }
}

/// What a RIBLT engine makes of a peer's message.
pub open spec fn answered(v: RibltView, message: RibltMessageView) -> (
    RibltView,
    Result<Progress, ReconcileError>,
) {
    match (v.role, message) {
        (RoleView::Encoder { .. }, RibltMessageView::Request { symbols, width }) => served(
            v,
            symbols,
            width,
        ),
        (RoleView::Decoder { .. }, RibltMessageView::Symbols { width, symbols }) => solved(
            v,
            width,
            symbols,
        ),
        _ => (v, Err(ReconcileError::UnexpectedMessage)),
    }
}

/// Which side of the session this engine plays.
enum Role {
    /// Streams cells and learns nothing.
    Encoder { encoder: Encoder, produced: usize },
    /// Subtracts, peels, and learns the difference. Boxed because a decoder
    /// carries every cell of the session and an encoder carries none.
    Decoder { decoder: Box<Decoder>, received: usize },
}

/// A rateless set-reconciliation engine over a sealed local set.
pub struct RibltEngine {
    role: Role,
    width: usize,
    pending: Option<RibltMessage>,
    diff: Diff,
}

impl View for RibltEngine {
    type V = RibltView;

    closed spec fn view(&self) -> RibltView {
        RibltView {
            role: match self.role {
                Role::Encoder { encoder, produced } => RoleView::Encoder {
                    symbols: encoder.symbols(),
                    position: encoder.position() as nat,
                    produced: produced as nat,
                },
                Role::Decoder { decoder, received } => RoleView::Decoder {
                    state: decoder@,
                    received: received as nat,
                },
            },
            width: self.width as nat,
            pending: match self.pending {
                Some(message) => Some(message@),
                None => None,
            },
            diff: self.diff@,
        }
    }
}

impl RibltEngine {
    /// Whether the side being played is well formed and within the symbol cap.
    pub closed spec fn wf(&self) -> bool {
        match self.role {
            Role::Encoder { encoder, produced } => {
                &&& encoder.wf()
                &&& encoder.width() == self.width
                &&& encoder.position() <= produced <= caps::MAX_CODED_SYMBOLS
            },
            Role::Decoder { decoder, received } => {
                &&& decoder.wf()
                &&& decoder@.width == self.width
                &&& decoder@.cells.len() <= received <= caps::MAX_CODED_SYMBOLS
            },
        }
    }

    /// Builds the decoding side, which opens the session by asking for cells.
    pub fn decoder<S: ItemSource>(source: &S) -> (r: Result<Self, ReconcileError>)
        ensures
            match (r, width_of(source.ids())) {
                (Ok(engine), Ok(width)) => {
                    &&& engine.ready()
                    &&& engine@ == (RibltView {
                        role: RoleView::Decoder {
                            state: decoder::fresh(width, source.ids()),
                            received: 0,
                        },
                        width,
                        pending: Some(
                            RibltMessageView::Request {
                                symbols: caps::INITIAL_SYMBOL_BATCH as u32,
                                width: width as u16,
                            },
                        ),
                        diff: engine::no_difference(),
                    })
                },
                (Err(found), Err(error)) => found == error,
                _ => false,
            },
    {
        let width: usize = match session_width(source) {
            Ok(width) => width,
            Err(error) => {
                return Err(error);
            },
        };
        let len: usize = source.len();
        let mut decoder = Decoder::new(width);
        let mut index: usize = 0;
        assert(source.ids().take(0) =~= Seq::empty());
        while index < len
            invariant
                index <= len,
                len == source.keys().len(),
                source::sealed(source.keys(), source.ids()),
                decoder.wf(),
                decoder@ == decoder::fresh(width as nat, source.ids().take(index as int)),
            decreases len - index,
        {
            decoder.add(bytes::bytes_copy(source.id(index).as_bytes()));
            proof {
                assert(source.ids().take(index as int).push(source.ids()[index as int])
                    =~= source.ids().take(index + 1));
            }
            index = index + 1;
        }
        assert(source.ids().take(len as int) =~= source.ids());
        let engine = RibltEngine {
            role: Role::Decoder { decoder: Box::new(decoder), received: 0 },
            width,
            pending: Some(RibltMessage::request(width, caps::INITIAL_SYMBOL_BATCH)),
            diff: Diff::default(),
        };
        Ok(engine)
    }

    /// Builds the encoding side, which stays silent until asked.
    pub fn encoder<S: ItemSource>(source: &S) -> (r: Result<Self, ReconcileError>)
        ensures
            match (r, width_of(source.ids())) {
                (Ok(engine), Ok(width)) => {
                    &&& engine.ready()
                    &&& engine@ == (RibltView {
                        role: RoleView::Encoder {
                            symbols: source.ids(),
                            position: 0,
                            produced: 0,
                        },
                        width,
                        pending: None,
                        diff: engine::no_difference(),
                    })
                },
                (Err(found), Err(error)) => found == error,
                _ => false,
            },
    {
        let width: usize = match session_width(source) {
            Ok(width) => width,
            Err(error) => {
                return Err(error);
            },
        };
        let len: usize = source.len();
        let mut encoder = Encoder::new(width);
        let mut index: usize = 0;
        assert(source.ids().take(0) =~= Seq::empty());
        while index < len
            invariant
                index <= len,
                len == source.keys().len(),
                source::sealed(source.keys(), source.ids()),
                encoder.wf(),
                encoder.width() == width,
                encoder.position() == 0,
                encoder.symbols() == source.ids().take(index as int),
            decreases len - index,
        {
            encoder.add(bytes::bytes_copy(source.id(index).as_bytes()));
            proof {
                assert(source.ids().take(index as int).push(source.ids()[index as int])
                    =~= source.ids().take(index + 1));
            }
            index = index + 1;
        }
        assert(source.ids().take(len as int) =~= source.ids());
        Ok(
            RibltEngine {
                role: Role::Encoder { encoder, produced: 0 },
                width,
                pending: None,
                diff: Diff::default(),
            },
        )
    }

    /// Answers a decoder's request with the next cells of the stream.
    fn serve(&mut self, wanted: u32, peer_width: u16) -> (r: Result<Progress, ReconcileError>)
        requires
            old(self).wf(),
        ensures
            final(self).wf(),
            (final(self)@, r) == served(old(self)@, wanted, peer_width),
    {
        match self.adopt_width(peer_width) {
            Ok(_) => {},
            Err(error) => {
                return Err(error);
            },
        }
        let width: usize = self.width;
        match &mut self.role {
            Role::Decoder { .. } => Err(ReconcileError::UnexpectedMessage),
            Role::Encoder { encoder, produced } => {
                let remaining: usize = caps::MAX_CODED_SYMBOLS - *produced;
                if remaining == 0 {
                    return Err(
                        ReconcileError::SymbolCapExceeded { max: caps::MAX_CODED_SYMBOLS },
                    );
                }
                let count: usize = grant(wanted, remaining);
                let batch = produce(encoder, count);
                *produced = *produced + count;
                self.pending = Some(RibltMessage::symbols(width, batch));
                Ok(Progress::Continue)
            },
        }
    }

    /// Takes a batch of cells, peels, and decides whether to ask for more.
    fn peel(&mut self, peer_width: u16, batch: Vec<CodedSymbol>) -> (r: Result<
        Progress,
        ReconcileError,
    >)
        requires
            old(self).wf(),
        ensures
            final(self).wf(),
            (final(self)@, r) == solved(old(self)@, peer_width, decoder::cell_views(batch@)),
    {
        if batch.len() == 0 {
            return Err(ReconcileError::UnexpectedMessage);
        }
        match self.adopt_width(peer_width) {
            Ok(_) => {},
            Err(error) => {
                return Err(error);
            },
        }
        let width: usize = self.width;
        let size: usize = batch.len();
        match &mut self.role {
            Role::Encoder { .. } => Err(ReconcileError::UnexpectedMessage),
            Role::Decoder { decoder, received } => {
                if size > caps::MAX_CODED_SYMBOLS - *received {
                    return Err(
                        ReconcileError::SymbolCapExceeded { max: caps::MAX_CODED_SYMBOLS },
                    );
                }
                *received = *received + size;
                match take_batch(decoder, batch) {
                    Ok(_) => {},
                    Err(error) => {
                        return Err(error);
                    },
                }
                proof {
                    decoder::lemma_drained_accounted(decoder@);
                }
                decoder.try_decode();
                if !decoder.is_decoded() {
                    self.pending = Some(RibltMessage::request(width, next_batch(*received)));
                    return Ok(Progress::Continue);
                }
                record(&mut self.diff, decoder);
                self.pending = None;
                Ok(Progress::Converged)
            },
        }
    }

    /// Reconciles the peer's declared width with the local one.
    ///
    /// A side whose set is empty has no width of its own and takes the peer's;
    /// its own cells are the identity at any width, so nothing is lost. Two
    /// sides that both hold items must agree, because a symbol of one width is
    /// never equal to a symbol of another and reconciling them would decode a
    /// difference that is an artifact of the encoding.
    fn adopt_width(&mut self, peer_width: u16) -> (r: Result<(), ReconcileError>)
        requires
            old(self).wf(),
        ensures
            final(self).wf(),
            match (r, adopted(old(self)@, peer_width)) {
                (Ok(_), Ok(next)) => final(self)@ == next,
                (Err(found), Err(error)) => found == error && final(self)@ == old(self)@,
                _ => false,
            },
    {
        let peer: usize = peer_width as usize;
        if peer > caps::MAX_SYMBOL_BYTES {
            return Err(ReconcileError::SymbolTooWide { size: peer, max: caps::MAX_SYMBOL_BYTES });
        }
        if self.width == peer || peer == 0 {
            return Ok(());
        }
        if self.width != 0 {
            return Err(
                ReconcileError::SymbolWidthMismatch { found: peer, expected: self.width },
            );
        }
        self.width = peer;
        let role = match &self.role {
            Role::Encoder { produced, .. } => Role::Encoder {
                encoder: Encoder::new(peer),
                produced: *produced,
            },
            Role::Decoder { received, .. } => Role::Decoder {
                decoder: Box::new(Decoder::new(peer)),
                received: *received,
            },
        };
        self.role = role;
        Ok(())
    }
}

impl Engine for RibltEngine {
    type Message = RibltMessage;

    open spec fn ready(&self) -> bool {
        self.wf() && fit::soft_spoken(self@)
    }

    open spec fn speaks(
        before: Self,
        after: Self,
        answer: Result<Option<RibltMessage>, ReconcileError>,
    ) -> bool {
        &&& after@ == (RibltView { pending: None, ..before@ })
        &&& match answer {
            Ok(Some(message)) => before@.pending == Some(message@),
            Ok(None) => before@.pending is None,
            Err(_) => false,
        }
    }

    open spec fn hears(
        before: Self,
        message: RibltMessage,
        after: Self,
        answer: Result<Progress, ReconcileError>,
    ) -> bool {
        (after@, answer) == answered(before@, message@)
    }

    open spec fn learned(&self) -> DiffView {
        self@.diff
    }

    /// Whatever the engine says encodes.
    fn next_outbound(&mut self) -> (answer: Result<Option<RibltMessage>, ReconcileError>)
        ensures
            answer matches Ok(Some(message)) ==> fit::fits(message@),
    {
        let pending = self.pending.take();
        proof {
            if pending is Some {
                fit::lemma_modest_fits(pending->Some_0@);
            }
        }
        Ok(pending)
    }

    fn ingest(&mut self, message: RibltMessage) -> (answer: Result<Progress, ReconcileError>) {
        let encoding: bool = match &self.role {
            Role::Encoder { .. } => true,
            Role::Decoder { .. } => false,
        };
        proof {
            fit::lemma_own_messages_encode(self@, message@);
        }
        match message {
            RibltMessage::Request { symbols, width } => {
                if encoding {
                    self.serve(symbols, width)
                } else {
                    Err(ReconcileError::UnexpectedMessage)
                }
            },
            RibltMessage::Symbols { width, symbols } => {
                if encoding {
                    Err(ReconcileError::UnexpectedMessage)
                } else {
                    self.peel(width, symbols)
                }
            },
        }
    }

    fn diff(&self) -> (diff: &Diff) {
        &self.diff
    }
}

/// Takes the next `count` cells of a stream.
fn produce(encoder: &mut Encoder, count: usize) -> (batch: Vec<CodedSymbol>)
    requires
        old(encoder).wf(),
        old(encoder).position() + count <= u64::MAX,
    ensures
        final(encoder).wf(),
        final(encoder).symbols() == old(encoder).symbols(),
        final(encoder).width() == old(encoder).width(),
        final(encoder).position() == old(encoder).position() + count,
        decoder::cell_views(batch@) == stream_batch(
            old(encoder).width() as nat,
            old(encoder).symbols(),
            old(encoder).position() as nat,
            count as nat,
        ),
{
    let mut batch: Vec<CodedSymbol> = Vec::with_capacity(count);
    let mut made: usize = 0;
    let ghost start = old(encoder).position();
    while made < count
        invariant
            made <= count,
            start == old(encoder).position(),
            start + count <= u64::MAX,
            encoder.wf(),
            encoder.symbols() == old(encoder).symbols(),
            encoder.width() == old(encoder).width(),
            encoder.position() == start + made,
            batch@.len() == made,
            forall|k: int|
                0 <= k < made ==> (#[trigger] batch@[k])@ == encoder::stream_cell(
                    old(encoder).width() as nat,
                    old(encoder).symbols(),
                    start + k,
                ),
        decreases count - made,
    {
        batch.push(encoder.produce_next());
        made = made + 1;
    }
    assert(decoder::cell_views(batch@) =~= stream_batch(
        old(encoder).width() as nat,
        old(encoder).symbols(),
        start as nat,
        count as nat,
    ));
    batch
}

/// How many cells answer a request.
fn grant(wanted: u32, remaining: usize) -> (count: usize)
    ensures
        count == granted(wanted, remaining as nat),
{
    let capped: usize = if wanted < 1 {
        1
    } else if wanted as usize > caps::MAX_SYMBOL_BATCH {
        caps::MAX_SYMBOL_BATCH
    } else {
        wanted as usize
    };
    if capped > remaining {
        remaining
    } else {
        capped
    }
}

/// Takes in a batch of cells, stopping at the first of another width.
fn take_batch(decoder: &mut Decoder, batch: Vec<CodedSymbol>) -> (r: Result<(), ReconcileError>)
    requires
        old(decoder).wf(),
        old(decoder)@.cells.len() + batch@.len() <= usize::MAX,
    ensures
        final(decoder).wf(),
        final(decoder)@.cells.len() <= old(decoder)@.cells.len() + batch@.len(),
        final(decoder)@.width == old(decoder)@.width,
        final(decoder)@ == took(old(decoder)@, decoder::cell_views(batch@)).0,
        match (r, took(old(decoder)@, decoder::cell_views(batch@)).1) {
            (Ok(_), None) => true,
            (Err(error), Some(found)) => error == (ReconcileError::SymbolWidthMismatch {
                found: found as usize,
                expected: old(decoder)@.width as usize,
            }),
            _ => false,
        },
{
    let ghost cells = decoder::cell_views(batch@);
    let mut next: usize = 0;
    let ghost start = decoder@;
    assert(cells.skip(0) =~= cells);
    while next < batch.len()
        invariant
            next <= batch@.len(),
            cells == decoder::cell_views(batch@),
            decoder.wf(),
            start == old(decoder)@,
            decoder@.width == start.width,
            decoder@.cells.len() == start.cells.len() + next,
            start.cells.len() + batch@.len() <= usize::MAX,
            took(start, cells) == took(decoder@, cells.skip(next as int)),
        decreases batch.len() - next,
    {
        proof {
            assert(cells.skip(next as int)[0] == batch@[next as int]@);
            assert(cells.skip(next as int).skip(1) =~= cells.skip(next + 1));
        }
        match decoder.add_coded_symbol(batch[next].clone()) {
            Ok(_) => {},
            Err(error) => {
                return Err(error);
            },
        }
        next = next + 1;
    }
    assert(cells.skip(next as int) =~= Seq::<CellView>::empty());
    Ok(())
}

/// Appends what a decoder recovered to a difference.
fn record(diff: &mut Diff, decoder: &Decoder)
    ensures
        final(diff)@ == (DiffView {
            need: old(diff)@.need + decoder@.remote,
            have: old(diff)@.have + decoder@.local,
        }),
{
    let remote = decoder.remote();
    let local = decoder.local();
    let ghost before = diff@;
    let mut i: usize = 0;
    assert(before.need + decoder@.remote.take(0) =~= before.need);
    while i < remote.len()
        invariant
            i <= remote@.len(),
            remote@.map_values(|s: &[u8]| s@) == decoder@.remote,
            diff@.need == before.need + decoder@.remote.take(i as int),
            diff@.have == before.have,
        decreases remote.len() - i,
    {
        diff.record_need(ItemId::new(bytes::bytes_copy(remote[i])));
        proof {
            assert(remote@.map_values(|s: &[u8]| s@)[i as int] == remote@[i as int]@);
            assert(diff@.need =~= before.need + decoder@.remote.take(i + 1));
        }
        i = i + 1;
    }
    assert(decoder@.remote.take(i as int) =~= decoder@.remote);
    let mut k: usize = 0;
    assert(before.have + decoder@.local.take(0) =~= before.have);
    while k < local.len()
        invariant
            k <= local@.len(),
            local@.map_values(|s: &[u8]| s@) == decoder@.local,
            diff@.need == before.need + decoder@.remote,
            diff@.have == before.have + decoder@.local.take(k as int),
        decreases local.len() - k,
    {
        diff.record_have(ItemId::new(bytes::bytes_copy(local[k])));
        proof {
            assert(local@.map_values(|s: &[u8]| s@)[k as int] == local@[k as int]@);
            assert(diff@.have =~= before.have + decoder@.local.take(k + 1));
        }
        k = k + 1;
    }
    assert(decoder@.local.take(k as int) =~= decoder@.local);
}

/// The batch to ask for next: double what has arrived, within the frame cap.
fn next_batch(received: usize) -> (size: usize)
    ensures
        size == next_batch_size(received as nat),
{
    if received < caps::INITIAL_SYMBOL_BATCH {
        caps::INITIAL_SYMBOL_BATCH
    } else if received > caps::MAX_SYMBOL_BATCH {
        caps::MAX_SYMBOL_BATCH
    } else {
        received
    }
}

/// The one symbol width a source reconciles at.
///
/// Identities should be distinct. The symbol *is* the identity, and the group
/// operation is its own inverse, so a set holding the same identity twice folds
/// it to nothing: the item is invisible to reconciliation and both peers agree
/// on a difference neither of them has.
///
/// [`MemorySource`](crate::reconcile::MemorySource) rejects duplicate *sort
/// keys*, which are `height || id`, so it would admit one identity at two
/// heights. This is stated rather than enforced because enforcing it means a set
/// the size of the snapshot on every session.
fn session_width<S: ItemSource>(source: &S) -> (r: Result<usize, ReconcileError>)
    ensures
        match (r, width_of(source.ids())) {
            (Ok(width), Ok(expected)) => width == expected && width <= caps::MAX_SYMBOL_BYTES,
            (Err(found), Err(error)) => found == error,
            _ => false,
        },
{
    let len: usize = source.len();
    let mut width: usize = 0;
    let mut index: usize = 0;
    while index < len
        invariant
            index <= len,
            len == source.keys().len(),
            source::sealed(source.keys(), source.ids()),
            index == 0 ==> width == 0,
            index > 0 ==> width == source.ids()[0].len(),
            odd_width(source.ids(), 0) == odd_width(source.ids(), index as int),
        decreases len - index,
    {
        let found: usize = source.id(index).as_bytes().len();
        if index == 0 {
            width = found;
        } else if found != width {
            return Err(ReconcileError::SymbolWidthMismatch { found, expected: width });
        }
        index = index + 1;
    }
    if width > caps::MAX_SYMBOL_BYTES {
        return Err(ReconcileError::SymbolTooWide { size: width, max: caps::MAX_SYMBOL_BYTES });
    }
    Ok(width)
}

} // verus!
