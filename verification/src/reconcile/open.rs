//! The frame that names the set two peers are about to reconcile.
//!
//! An engine reconciles whatever its [`ItemSource`](super::source::ItemSource)
//! contains and has no opinion about what that is. A responder, though, must
//! build its own source before it can answer anything, and only the initiator
//! knows which set it wants. This frame carries that one fact, once, ahead of
//! the engine's first message, and with it the one other fact a responder cannot
//! infer: which engine the session runs.
//!
//! It travels in the same versioned envelope as every other reconciliation
//! frame, so a peer speaking a future protocol version is rejected at the
//! envelope rather than after a partial handshake.
//!
//! The engine is carried as a raw tag and read in a second step, exactly as the
//! envelope reads its message kind: an engine this build does not implement is
//! then [`ReconcileError::UnsupportedEngine`] rather than a decode failure that
//! looks like corruption. The default engine is omitted from the encoding, so
//! naming it costs nothing.
//!
//! ```text
//! open = { "collection": text, ? "engine": u8 }
//! ```
use crate::reconcile::cbor;
use crate::reconcile::cbor::{CborView, Found, Part};
use crate::reconcile::codec::{MessageKind, WireMessage};
use crate::reconcile::engine::EngineKind;
use crate::reconcile::error::ReconcileError;
use ciborium::Value;
use vstd::prelude::*;

verus! {

/// What an opening frame says.
#[verifier::ext_equal]
pub struct SessionOpenView {
    /// The collection to reconcile.
    pub collection: Seq<char>,
    /// The tag of the engine to run.
    pub engine: u8,
}

/// The initiator's opening frame.
#[derive(Debug, PartialEq, Eq)]
pub struct SessionOpen {
    collection: String,
    engine: u8,
}

impl View for SessionOpen {
    type V = SessionOpenView;

    closed spec fn view(&self) -> SessionOpenView {
        SessionOpenView { collection: self.collection@, engine: self.engine }
    }
}

impl Clone for SessionOpen {
    fn clone(&self) -> (copy: Self)
        ensures
            copy@ == self@,
    {
        SessionOpen { collection: self.collection.clone(), engine: self.engine }
    }
}

impl SessionOpen {
    /// Names the collection whose document heads are to be reconciled and the
    /// engine that will reconcile them.
    pub fn new(collection: String, engine: EngineKind) -> (open: Self)
        ensures
            open@ == (SessionOpenView {
                collection: collection@,
                engine: engine.wire_tag(),
            }),
    {
        SessionOpen { collection, engine: engine.tag() }
    }

    /// Asks for an engine by its tag, whether or not this build runs it.
    pub fn with_engine_tag(self, tag: u8) -> (open: Self)
        ensures
            open@ == (SessionOpenView { engine: tag, ..self@ }),
    {
        SessionOpen { collection: self.collection, engine: tag }
    }

    /// The collection being reconciled.
    pub fn collection(&self) -> (collection: &str)
        ensures
            collection@ == self@.collection,
    {
        self.collection.as_str()
    }

    /// The engine the initiator asked for, or
    /// [`ReconcileError::UnsupportedEngine`] if this build does not run it.
    pub fn engine(&self) -> (r: Result<EngineKind, ReconcileError>)
        ensures
            match r {
                Ok(kind) => kind.wire_tag() == self@.engine,
                Err(error) => self@.engine > 1 && error == (ReconcileError::UnsupportedEngine {
                    tag: self@.engine,
                }),
            },
    {
        EngineKind::from_tag(self.engine)
    }
}

/// The item an opening frame is written as. The default engine is left out.
pub open spec fn open_written(open: SessionOpenView) -> CborView {
    CborView::Table(
        if open.engine == EngineKind::Rbsr.wire_tag() {
            seq![cbor::entry("collection"@, CborView::Text(open.collection))]
        } else {
            seq![
                cbor::entry("collection"@, CborView::Text(open.collection)),
                cbor::entry("engine"@, CborView::Integer(open.engine as int)),
            ]
        },
    )
}

/// The opening frame an item is read as. An engine that is not named is the
/// default one.
pub open spec fn open_read(item: CborView) -> Option<SessionOpenView> {
    match cbor::record_of(item) {
        Some(entries) => {
            let engines = cbor::values_named(entries, "engine"@);
            let engine = if engines.len() == 0 {
                Some(EngineKind::Rbsr.wire_tag() as int)
            } else if engines.len() == 1 {
                cbor::integer_in(engines[0], 0, u8::MAX as int)
            } else {
                None
            };
            match (cbor::field(entries, "collection"@), engine) {
                (Some(collection), Some(tag)) => match cbor::text_of(collection) {
                    Some(collection) => Some(SessionOpenView { collection, engine: tag as u8 }),
                    None => None,
                },
                _ => None,
            }
        },
        None => None,
    }
}

/// An opening frame reads back as it was written, whether or not the engine is
/// named in it.
pub proof fn lemma_open_round_trip(open: SessionOpenView)
    ensures
        open_read(open_written(open)) == Some(open),
        cbor::plain(open_written(open), cbor::MAX_DEPTH as nat),
{
    reveal_strlit("collection");
    reveal_strlit("engine");
    assert("collection"@.len() == 10 && "engine"@.len() == 6);
    let name = CborView::Text(open.collection);
    cbor::lemma_record1("collection"@, name);
    cbor::lemma_record2("collection"@, name, "engine"@, CborView::Integer(open.engine as int));
    reveal_with_fuel(cbor::plain, 2);
    assert(cbor::values_named(seq![cbor::entry("collection"@, name)], "engine"@).len() == 0);
}

/// What an item is read as is what its fields say: the collection, which has to be there
/// once, and the engine, which is the range engine where it is not named.
pub proof fn lemma_open_is_what_its_fields_say(
    item: CborView,
    open: SessionOpenView,
    entries: Seq<(CborView, CborView)>,
)
    requires
        cbor::record_of(item) == Some(entries),
    ensures
        open_read(item) == Some(open) <==> {
            &&& cbor::field(entries, "collection"@) matches Some(collection)
            &&& cbor::text_of(collection) == Some(open.collection)
            &&& cbor::values_named(entries, "engine"@).len() == 0 ==> open.engine == 0
            &&& cbor::values_named(entries, "engine"@).len() != 0 ==> {
                &&& cbor::field(entries, "engine"@) matches Some(engine)
                &&& cbor::integer_of(engine) == Some(open.engine as int)
            }
        },
{
}

/// An item that is no record is no opening frame.
pub proof fn lemma_open_is_a_record(item: CborView)
    ensures
        cbor::record_of(item) is None ==> open_read(item) is None,
        <SessionOpen as WireMessage>::read(item) == open_read(item),
{
}

/// An opening frame is a map of the collection's name and, unless it is the range
/// engine, the tag of the engine: one for the rateless engine.
pub proof fn lemma_open_layout(collection: Seq<char>, engine: u8)
    ensures
        open_written(SessionOpenView { collection, engine: 0 }) == CborView::Table(
            seq![(CborView::Text("collection"@), CborView::Text(collection))],
        ),
        engine != 0 ==> open_written(SessionOpenView { collection, engine }) == CborView::Table(
            seq![
                (CborView::Text("collection"@), CborView::Text(collection)),
                (CborView::Text("engine"@), CborView::Integer(engine as int)),
            ],
        ),
        EngineKind::Rbsr.wire_tag() == 0,
        EngineKind::Riblt.wire_tag() == 1,
        <SessionOpen as WireMessage>::wire_kind() is SessionOpen,
        <SessionOpen as WireMessage>::written(SessionOpenView { collection, engine })
            == open_written(SessionOpenView { collection, engine }),
{
}

impl WireMessage for SessionOpen {
    open spec fn wire_kind() -> MessageKind {
        MessageKind::SessionOpen
    }

    open spec fn written(message: SessionOpenView) -> CborView {
        open_written(message)
    }

    open spec fn read(item: CborView) -> Option<SessionOpenView> {
        open_read(item)
    }

    fn kind() -> (kind: MessageKind) {
        MessageKind::SessionOpen
    }

    fn to_item(&self) -> (item: Value) {
        proof {
            lemma_open_round_trip(self@);
        }
        let collection = cbor::build_entry(
            "collection",
            cbor::build(Part::Text(self.collection.clone())),
        );
        if self.engine == EngineKind::Rbsr.tag() {
            cbor::build_record1(collection)
        } else {
            cbor::build_record2(
                collection,
                cbor::build_entry("engine", cbor::build(Part::Unsigned(self.engine as u64))),
            )
        }
    }

    fn from_item(item: &Value) -> (r: Option<Self>) {
        let entries = match cbor::read_record(item) {
            Some(entries) => entries,
            None => {
                return None;
            },
        };
        let engine: u8 = match cbor::find(entries, "engine") {
            Found::Missing => EngineKind::Rbsr.tag(),
            Found::One(tag) => match cbor::read_integer(tag, 0, u8::MAX as i128) {
                Some(tag) => tag as u8,
                None => {
                    return None;
                },
            },
            Found::Many => {
                return None;
            },
        };
        match cbor::read_field(entries, "collection") {
            Some(collection) => match cbor::read_text(collection) {
                Some(collection) => Some(SessionOpen { collection, engine }),
                None => None,
            },
            None => None,
        }
    }
}

} // verus!
