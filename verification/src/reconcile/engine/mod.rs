//! The protocol-agnostic engine seam.
//!
//! An engine owns one side of one reconciliation session. It is driven by two
//! calls, and the drive loop never assumes strict alternation:
//!
//! ```text
//! loop {
//!     while let Some(msg) = engine.next_outbound()? { send(msg) }
//!     if converged { break }
//!     match engine.ingest(recv()?)? { .. }
//! }
//! ```
//!
//! Range-based reconciliation is strictly alternating: `next_outbound` returns
//! `Some` once per round and `None` afterwards. A rateless engine has the
//! opposite shape, a stream of coded symbols with no per-symbol reply. Both fit,
//! because `next_outbound` may fire repeatedly without an intervening `ingest`
//! and either side may be silent for arbitrarily many turns.
use crate::reconcile::error::ReconcileError;
use crate::reconcile::source::ItemId;
use vstd::prelude::*;

pub mod rbsr;
pub mod riblt;

verus! {

/// Which reconciliation protocol a session runs.
///
/// A session's two peers must agree, and the initiator chooses: it names the
/// engine in its opening frame and a responder that does not implement it
/// refuses the session outright. Both engines produce the same [`Diff`] and hand
/// it to the same fetch path, so the choice is about how the difference is
/// found, never about what is done with it.
#[derive(Clone, Copy, Debug, PartialEq, Eq, Structural)]
pub enum EngineKind {
    /// Range-based reconciliation: deterministic, `O(log n)` interactive
    /// rounds, and the only one that can scope a session to a sub-range.
    Rbsr,
    /// Rateless sketch reconciliation: `O(d)` bytes independent of set size, at
    /// the cost of a probabilistic symbol count.
    Riblt,
}

impl Default for EngineKind {
    fn default() -> (kind: Self)
        ensures
            kind == EngineKind::Rbsr,
    {
        EngineKind::Rbsr
    }
}

impl EngineKind {
    /// The tag that stands for an engine on the wire.
    pub open spec fn wire_tag(self) -> u8 {
        match self {
            EngineKind::Rbsr => 0,
            EngineKind::Riblt => 1,
        }
    }

    /// The tag that stands for this engine on the wire.
    pub fn tag(self) -> (tag: u8)
        ensures
            tag == self.wire_tag(),
    {
        match self {
            EngineKind::Rbsr => 0,
            EngineKind::Riblt => 1,
        }
    }

    /// Reads an engine tag off the wire.
    pub fn from_tag(tag: u8) -> (r: Result<Self, ReconcileError>)
        ensures
            match r {
                Ok(kind) => kind.wire_tag() == tag,
                Err(error) => tag > 1 && error == (ReconcileError::UnsupportedEngine { tag }),
            },
    {
        match tag {
            0 => Ok(EngineKind::Rbsr),
            1 => Ok(EngineKind::Riblt),
            other => Err(ReconcileError::UnsupportedEngine { tag: other }),
        }
    }
}

/// What a peer message told the engine about the session's progress.
#[derive(Clone, Copy, Debug, PartialEq, Eq, Structural)]
pub enum Progress {
    /// More rounds (or more symbols) are needed.
    Continue,
    /// The local side has learned its full difference; the session is over.
    Converged,
}

/// What a [`Diff`] denotes.
#[verifier::ext_equal]
pub struct DiffView {
    /// The pull list.
    pub need: Seq<Seq<u8>>,
    /// The push list.
    pub have: Seq<Seq<u8>>,
}

/// The difference of two identical sets.
pub open spec fn no_difference() -> DiffView {
    DiffView { need: Seq::empty(), have: Seq::empty() }
}

/// The bytes of a run of identities.
pub open spec fn id_views(ids: Seq<ItemId>) -> Seq<Seq<u8>> {
    ids.map_values(|id: ItemId| id@)
}

/// Identities are viewed one for one, in their order; and two sets that do not differ
/// have nothing to pull and nothing to push.
pub proof fn lemma_lists_one_for_one(ids: Seq<ItemId>)
    ensures
        id_views(ids).len() == ids.len(),
        forall|i: int| 0 <= i < ids.len() ==> #[trigger] id_views(ids)[i] == ids[i]@,
        no_difference().need.len() == 0,
        no_difference().have.len() == 0,
{
}

/// Copies a run of identities.
pub fn copy_ids(ids: &[ItemId]) -> (copy: Vec<ItemId>)
    ensures
        id_views(copy@) == id_views(ids@),
{
    let mut copy: Vec<ItemId> = Vec::with_capacity(ids.len());
    let mut i: usize = 0;
    while i < ids.len()
        invariant
            i <= ids@.len(),
            copy@.len() == i,
            forall|j: int| 0 <= j < i ==> (#[trigger] copy@[j])@ == ids@[j]@,
        decreases ids.len() - i,
    {
        copy.push(ids[i].clone());
        i = i + 1;
    }
    assert(id_views(copy@) =~= id_views(ids@));
    copy
}

/// The set difference a session discovered, from the local peer's point of view.
#[derive(Debug, PartialEq, Eq)]
pub struct Diff {
    need: Vec<ItemId>,
    have: Vec<ItemId>,
}

impl View for Diff {
    type V = DiffView;

    closed spec fn view(&self) -> DiffView {
        DiffView { need: id_views(self.need@), have: id_views(self.have@) }
    }
}

impl Clone for Diff {
    fn clone(&self) -> (copy: Self)
        ensures
            copy@ == self@,
    {
        Diff { need: copy_ids(self.need.as_slice()), have: copy_ids(self.have.as_slice()) }
    }
}

impl Default for Diff {
    fn default() -> (diff: Self)
        ensures
            diff@ == no_difference(),
    {
        let diff = Diff { need: Vec::new(), have: Vec::new() };
        assert(diff@ =~= no_difference());
        diff
    }
}

impl Diff {
    /// Items the peer holds and the local side lacks: the pull list.
    pub fn need(&self) -> (ids: &[ItemId])
        ensures
            id_views(ids@) == self@.need,
    {
        self.need.as_slice()
    }

    /// Items the local side holds and the peer lacks: the push list.
    pub fn have(&self) -> (ids: &[ItemId])
        ensures
            id_views(ids@) == self@.have,
    {
        self.have.as_slice()
    }

    /// Whether the two sets were already identical.
    pub fn is_empty(&self) -> (r: bool)
        ensures
            r == (self@ == no_difference()),
    {
        proof {
            if self@.need.len() == 0 && self@.have.len() == 0 {
                assert(self@ =~= no_difference());
            }
        }
        self.need.len() == 0 && self.have.len() == 0
    }

    /// Records an item the local side must pull.
    pub fn record_need(&mut self, id: ItemId)
        ensures
            final(self)@ == (DiffView { need: old(self)@.need.push(id@), ..old(self)@ }),
    {
        self.need.push(id);
        assert(self@.need =~= old(self)@.need.push(id@));
    }

    /// Records an item the local side must push.
    pub fn record_have(&mut self, id: ItemId)
        ensures
            final(self)@ == (DiffView { have: old(self)@.have.push(id@), ..old(self)@ }),
    {
        self.have.push(id);
        assert(self@.have =~= old(self)@.have.push(id@));
    }
}

/// One side of one reconciliation session.
///
/// Engines are single-use: build one per session, drive it to convergence, take
/// its [`Diff`], drop it.
pub trait Engine: Sized {
    /// The protocol message this engine exchanges.
    type Message;

    /// Whether the engine is in a state it can be driven from.
    spec fn ready(&self) -> bool;

    /// How the engine moves when it is asked for its next message, and what it
    /// answers.
    spec fn speaks(
        before: Self,
        after: Self,
        answer: Result<Option<Self::Message>, ReconcileError>,
    ) -> bool;

    /// How the engine moves when it takes a message in, and what it answers.
    spec fn hears(
        before: Self,
        message: Self::Message,
        after: Self,
        answer: Result<Progress, ReconcileError>,
    ) -> bool;

    /// The difference learned so far.
    spec fn learned(&self) -> DiffView;

    /// Returns the next message to send, or `None` when this side has nothing
    /// to say right now. May legitimately return `Some` many times in a row.
    fn next_outbound(&mut self) -> (answer: Result<Option<Self::Message>, ReconcileError>)
        requires
            old(self).ready(),
        ensures
            final(self).ready(),
            Self::speaks(*old(self), *final(self), answer),
    ;

    /// Consumes a message from the peer.
    fn ingest(&mut self, message: Self::Message) -> (answer: Result<Progress, ReconcileError>)
        requires
            old(self).ready(),
        ensures
            final(self).ready(),
            Self::hears(*old(self), message, *final(self), answer),
    ;

    /// The difference learned so far; complete once the session has converged.
    fn diff(&self) -> (diff: &Diff)
        ensures
            diff@ == self.learned(),
    ;
}

} // verus!
