//! The RBSR engine: one side of one range-reconciliation session.
use crate::reconcile::engine;
use crate::reconcile::engine::rbsr::initiator;
use crate::reconcile::engine::rbsr::message;
use crate::reconcile::engine::rbsr::message::{RangeView, RbsrMessage};
use crate::reconcile::engine::rbsr::responder;
use crate::reconcile::engine::rbsr::segment_tree::SegmentTree;
use crate::reconcile::engine::{Diff, DiffView, Engine, Progress};
use crate::reconcile::error::ReconcileError;
use crate::reconcile::source::{BoundView, ItemSource};
use vstd::prelude::*;

verus! {

/// Which side of the session this engine plays.
///
/// The asymmetry is the protocol's, not an implementation detail: only the
/// initiator learns a difference, and only the responder refines ranges.
#[derive(Clone, Copy, Debug, PartialEq, Eq, Structural)]
pub enum Role {
    /// Opens the session, keeps the tiling fixed, and learns the difference.
    Initiator,
    /// Refines mismatching ranges and learns nothing.
    Responder,
}

/// The state of an RBSR engine.
#[verifier::ext_equal]
pub struct RbsrView {
    /// The sort keys of the local set.
    pub keys: Seq<Seq<u8>>,
    /// The identities of the local set.
    pub ids: Seq<Seq<u8>>,
    /// The side it plays.
    pub role: Role,
    /// The message to send next.
    pub pending: Option<Seq<RangeView>>,
    /// What it has learned.
    pub diff: DiffView,
}

/// What an RBSR engine makes of a peer's message.
///
/// The initiator maps the ranges, and has converged once every outgoing range is
/// agreed on. The responder refines them and learns nothing. An error leaves the
/// next message as it was.
pub open spec fn answered(v: RbsrView, message: Seq<RangeView>) -> (
    RbsrView,
    Result<Progress, ReconcileError>,
) {
    match v.role {
        Role::Initiator => {
            let (out, learned, stopped) = initiator::reconciled(
                v.keys,
                v.ids,
                v.diff,
                BoundView::Min,
                message,
            );
            match stopped {
                Some(error) => (RbsrView { diff: learned, ..v }, Err(error)),
                None => if message::all_skip(out) {
                    (RbsrView { diff: learned, pending: None, ..v }, Ok(Progress::Converged))
                } else {
                    (RbsrView { diff: learned, pending: Some(out), ..v }, Ok(Progress::Continue))
                },
            }
        },
        Role::Responder => {
            let (out, stopped) = responder::response(v.keys, v.ids, message);
            match stopped {
                Some(error) => (v, Err(error)),
                None => (RbsrView { pending: Some(out), ..v }, Ok(Progress::Continue)),
            }
        },
    }
}

/// A range-based set reconciliation engine over a sealed local set.
pub struct RbsrEngine<S: ItemSource> {
    index: SegmentTree<S>,
    role: Role,
    pending: Option<RbsrMessage>,
    diff: Diff,
}

impl<S: ItemSource> View for RbsrEngine<S> {
    type V = RbsrView;

    closed spec fn view(&self) -> RbsrView {
        RbsrView {
            keys: self.index.keys(),
            ids: self.index.ids(),
            role: self.role,
            pending: match self.pending {
                Some(message) => Some(message@),
                None => None,
            },
            diff: self.diff@,
        }
    }
}

impl<S: ItemSource> RbsrEngine<S> {
    /// Whether the range index is well formed.
    pub closed spec fn wf(&self) -> bool {
        self.index.wf()
    }

    /// Builds the initiating side, which opens with a full-range fingerprint.
    pub fn initiator(source: S) -> (engine: Self)
        requires
            2 * source.keys().len() <= usize::MAX,
        ensures
            engine.ready(),
            engine@ == (RbsrView {
                keys: source.keys(),
                ids: source.ids(),
                role: Role::Initiator,
                pending: Some(initiator::opening(source.ids())),
                diff: engine::no_difference(),
            }),
    {
        let index = SegmentTree::build(source);
        let opening = initiator::initiate(&index);
        RbsrEngine {
            index,
            role: Role::Initiator,
            pending: Some(opening),
            diff: Diff::default(),
        }
    }

    /// Builds the responding side, which stays silent until spoken to.
    pub fn responder(source: S) -> (engine: Self)
        requires
            2 * source.keys().len() <= usize::MAX,
        ensures
            engine.ready(),
            engine@ == (RbsrView {
                keys: source.keys(),
                ids: source.ids(),
                role: Role::Responder,
                pending: None,
                diff: engine::no_difference(),
            }),
    {
        RbsrEngine {
            index: SegmentTree::build(source),
            role: Role::Responder,
            pending: None,
            diff: Diff::default(),
        }
    }

    /// Which side this engine plays.
    pub fn role(&self) -> (role: Role)
        ensures
            role == self@.role,
    {
        self.role
    }
}

impl<S: ItemSource> Engine for RbsrEngine<S> {
    type Message = RbsrMessage;

    open spec fn ready(&self) -> bool {
        self.wf()
    }

    open spec fn speaks(
        before: Self,
        after: Self,
        answer: Result<Option<RbsrMessage>, ReconcileError>,
    ) -> bool {
        &&& after@ == (RbsrView { pending: None, ..before@ })
        &&& match answer {
            Ok(Some(message)) => before@.pending == Some(message@),
            Ok(None) => before@.pending is None,
            Err(_) => false,
        }
    }

    open spec fn hears(
        before: Self,
        message: RbsrMessage,
        after: Self,
        answer: Result<Progress, ReconcileError>,
    ) -> bool {
        (after@, answer) == answered(before@, message@)
    }

    open spec fn learned(&self) -> DiffView {
        self@.diff
    }

    fn next_outbound(&mut self) -> (answer: Result<Option<RbsrMessage>, ReconcileError>) {
        let pending = self.pending.take();
        Ok(pending)
    }

    fn ingest(&mut self, message: RbsrMessage) -> (answer: Result<Progress, ReconcileError>) {
        match self.role {
            Role::Initiator => {
                match initiator::reconcile(&self.index, &mut self.diff, &message) {
                    Ok(outgoing) => {
                        if outgoing.is_all_skip() {
                            self.pending = None;
                            return Ok(Progress::Converged);
                        }
                        self.pending = Some(outgoing);
                        Ok(Progress::Continue)
                    },
                    Err(error) => Err(error),
                }
            },
            Role::Responder => {
                match responder::respond(&self.index, &message) {
                    Ok(outgoing) => {
                        self.pending = Some(outgoing);
                        Ok(Progress::Continue)
                    },
                    Err(error) => Err(error),
                }
            },
        }
    }

    fn diff(&self) -> (diff: &Diff) {
        &self.diff
    }
}

/// The responder learns nothing, whatever it is told.
pub proof fn lemma_responder_learns_nothing(v: RbsrView, message: Seq<RangeView>)
    requires
        v.role == Role::Responder,
    ensures
        answered(v, message).0.diff == v.diff,
        answered(v, message).0.role == v.role,
{
}

} // verus!
