//! Drives one [`Engine`] through one reconciliation session.
//!
//! The session owns the policy that is the same whichever engine is underneath:
//! bound the number of rounds, stop emitting once the local side has converged,
//! and refuse input afterwards. Which *role* a session plays is a property of
//! the engine it was built around, not of the session, so there is nothing
//! role-shaped here.
//!
//! The drive loop a transport runs over it is:
//!
//! ```text
//! while let Some(msg) = session.next_outbound()? { send(msg) }
//! while !session.is_converged() {
//!     session.ingest(recv()?)?;
//!     while let Some(msg) = session.next_outbound()? { send(msg) }
//! }
//! ```
use crate::reconcile::engine::{Diff, Engine, Progress};
use crate::reconcile::error::ReconcileError;
use vstd::prelude::*;

verus! {

/// Bound on the rounds a session will run before giving up.
///
/// A peer whose answers never converge, through malice or a bug, terminates
/// the session with [`ReconcileError::RoundCapExceeded`] instead of looping
/// forever. It is session policy that applies to any engine.
pub const MAX_ROUNDS: usize = 32;

/// One reconciliation session over one engine.
///
/// Single-use: build it, drive it to convergence, take its [`Diff`].
pub struct Session<E: Engine> {
    engine: E,
    rounds: usize,
    converged: bool,
}

impl<E: Engine> Session<E> {
    /// The engine underneath.
    pub closed spec fn engine(&self) -> E {
        self.engine
    }

    /// How many peer messages have arrived, the one that broke the cap included.
    pub closed spec fn round_count(&self) -> usize {
        self.rounds
    }

    /// Whether the local side has learned its full difference.
    pub closed spec fn converged(&self) -> bool {
        self.converged
    }

    /// Whether the session can be driven.
    pub open spec fn wf(&self) -> bool {
        &&& self.engine().ready()
        &&& self.round_count() <= MAX_ROUNDS + 1
    }

    /// How a session moves when it is asked for its next message, and what it
    /// answers: nothing once it has converged, and otherwise what its engine
    /// says.
    pub open spec fn says(
        before: Self,
        after: Self,
        answer: Result<Option<E::Message>, ReconcileError>,
    ) -> bool {
        &&& after.round_count() == before.round_count()
        &&& after.converged() == before.converged()
        &&& if before.converged() {
            &&& answer == Ok::<Option<E::Message>, ReconcileError>(None)
            &&& after.engine() == before.engine()
        } else {
            E::speaks(before.engine(), after.engine(), answer)
        }
    }

    /// How a session moves when it takes a message in, and what it answers: it
    /// is closed once converged, gives up past the round cap, and otherwise
    /// leaves the answer to its engine.
    pub open spec fn takes(
        before: Self,
        message: E::Message,
        after: Self,
        answer: Result<Progress, ReconcileError>,
    ) -> bool {
        if before.converged() {
            &&& answer == Err::<Progress, ReconcileError>(ReconcileError::SessionClosed)
            &&& after == before
        } else if before.round_count() >= MAX_ROUNDS {
            &&& answer == Err::<Progress, ReconcileError>(
                ReconcileError::RoundCapExceeded { max: MAX_ROUNDS },
            )
            &&& after.engine() == before.engine()
            &&& after.round_count() == MAX_ROUNDS + 1
            &&& !after.converged()
        } else {
            &&& E::hears(before.engine(), message, after.engine(), answer)
            &&& after.round_count() == before.round_count() + 1
            &&& after.converged() == (answer == Ok::<Progress, ReconcileError>(
                Progress::Converged,
            ))
        }
    }

    /// What one peer message does to a session. Up to the thirty-second it is the
    /// engine's: the session is converged exactly if the engine answers that it is,
    /// and that answer is handed on. Past it the session gives up; and once it has
    /// converged it takes nothing more.
    pub proof fn lemma_message_taken(
        before: Self,
        message: E::Message,
        after: Self,
        answer: Result<Progress, ReconcileError>,
    )
        requires
            Self::takes(before, message, after, answer),
        ensures
            !before.converged() && before.round_count() < 32 ==> {
                &&& after.converged() <==> (answer matches Ok(progress)
                    && progress is Converged)
                &&& after.round_count() == before.round_count() + 1
                &&& E::hears(before.engine(), message, after.engine(), answer)
            },
            !before.converged() && before.round_count() >= 32 ==> {
                &&& answer matches Err(ReconcileError::RoundCapExceeded { max }) && max == 32
                &&& !after.converged()
                &&& after.engine() == before.engine()
                &&& after.round_count() == 33
            },
            before.converged() ==> {
                &&& answer matches Err(ReconcileError::SessionClosed)
                &&& after.converged()
                &&& after.engine() == before.engine()
                &&& after.round_count() == before.round_count()
            },
    {
    }

    /// What asking a session for its next message does: it has nothing to say once it
    /// has converged, and otherwise says what its engine does; either way it stands
    /// where it stood.
    pub proof fn lemma_message_said(
        before: Self,
        after: Self,
        answer: Result<Option<E::Message>, ReconcileError>,
    )
        requires
            Self::says(before, after, answer),
        ensures
            after.converged() == before.converged(),
            after.round_count() == before.round_count(),
            before.converged() ==> {
                &&& answer matches Ok(said) && said is None
                &&& after.engine() == before.engine()
            },
            !before.converged() ==> E::speaks(before.engine(), after.engine(), answer),
    {
    }

    /// Whether a session moves from one state to the next by being asked for a message
    /// or by taking one.
    pub open spec fn moves(before: Self, after: Self) -> bool {
        ||| exists|answer: Result<Option<E::Message>, ReconcileError>|
            Self::says(before, after, answer)
        ||| exists|message: E::Message, answer: Result<Progress, ReconcileError>|
            Self::takes(before, message, after, answer)
    }

    /// However a session is driven, convergence is for good, with the engine left as
    /// it was then; and the rounds counted never pass one more than the cap.
    pub proof fn lemma_convergence_is_final(history: Seq<Self>, i: int, j: int)
        requires
            0 <= i <= j < history.len(),
            forall|k: int|
                0 <= k < history.len() - 1 ==> Self::moves(
                    #[trigger] history[k],
                    history[k + 1],
                ),
        ensures
            history[i].converged() ==> history[j].converged() && history[j].engine()
                == history[i].engine() && history[j].round_count() == history[i].round_count(),
            history[i].round_count() <= 33 ==> history[j].round_count() <= 33,
        decreases j - i,
    {
        if i < j {
            Self::lemma_convergence_is_final(history, i, j - 1);
            assert(Self::moves(history[j - 1], history[j - 1 + 1]));
        }
    }

    /// Wraps an engine in a fresh session.
    pub fn new(engine: E) -> (session: Self)
        requires
            engine.ready(),
        ensures
            session.wf(),
            session.engine() == engine,
            session.round_count() == 0,
            !session.converged(),
    {
        Session { engine, rounds: 0, converged: false }
    }

    /// The next message to send, or `None` when this side has nothing to say.
    /// Always `None` once the session has converged: the terminal message is a
    /// local conclusion, not something the peer needs.
    pub fn next_outbound(&mut self) -> (answer: Result<Option<E::Message>, ReconcileError>)
        requires
            old(self).wf(),
        ensures
            final(self).wf(),
            Self::says(*old(self), *final(self), answer),
            final(self).converged() == old(self).converged(),
            old(self).converged() ==> answer == Ok::<Option<E::Message>, ReconcileError>(None),
    {
        if self.converged {
            return Ok(None);
        }
        self.engine.next_outbound()
    }

    /// Consumes one message from the peer.
    pub fn ingest(&mut self, message: E::Message) -> (answer: Result<Progress, ReconcileError>)
        requires
            old(self).wf(),
        ensures
            final(self).wf(),
            Self::takes(*old(self), message, *final(self), answer),
            !old(self).converged() ==> (final(self).converged() <==> (answer matches Ok(progress)
                && progress is Converged)),
            old(self).converged() ==> final(self).converged() && answer
                == Err::<Progress, ReconcileError>(ReconcileError::SessionClosed),
    {
        if self.converged {
            return Err(ReconcileError::SessionClosed);
        }
        if self.rounds >= MAX_ROUNDS {
            self.rounds = MAX_ROUNDS + 1;
            return Err(ReconcileError::RoundCapExceeded { max: MAX_ROUNDS });
        }
        self.rounds = self.rounds + 1;

        let answer = self.engine.ingest(message);
        if let Ok(Progress::Converged) = answer {
            self.converged = true;
        }
        answer
    }

    /// Number of peer messages that have arrived, the one that broke the round
    /// cap included.
    pub fn rounds(&self) -> (rounds: usize)
        ensures
            rounds == self.round_count(),
    {
        self.rounds
    }

    /// Whether the local side has learned its full difference.
    pub fn is_converged(&self) -> (r: bool)
        ensures
            r == self.converged(),
    {
        self.converged
    }

    /// The difference learned so far; complete once converged.
    pub fn diff(&self) -> (diff: &Diff)
        ensures
            diff@ == self.engine().learned(),
    {
        self.engine.diff()
    }

    /// Consumes the session, yielding the difference it learned.
    pub fn into_diff(self) -> (diff: Diff)
        ensures
            diff@ == self.engine().learned(),
    {
        self.engine.diff().clone()
    }
}

} // verus!
