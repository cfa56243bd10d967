//! Decides, step by step, how a [`Session`] runs over a stream of frames.
//!
//! The two roles end on different signals. An initiator knows it is finished
//! when its own engine converges, and a peer that vanishes before that has
//! failed it. A responder never converges on its own; the initiator closing its
//! sending half *is* the responder's terminal signal, so the same event is
//! success for one role and failure for the other.
//!
//! A transport asks [`Driver::next_step`] what to do, does it, and reports what
//! came of it: a frame that arrived, a peer that closed, a peer that fell
//! silent. Every outcome leads on: none leaves the transport parked on a read
//! that will never complete.
use crate::reconcile::cbor;
use crate::reconcile::codec;
use crate::reconcile::codec::{WireMessage, MAX_FRAME_BYTES, PROTOCOL_VERSION};
use crate::reconcile::engine::{Diff, Engine, Progress};
use crate::reconcile::error::ReconcileError;
use crate::reconcile::session::Session;
use vstd::prelude::*;

verus! {

/// Which end of the stream a driver stands at.
#[derive(Clone, Copy, Debug, PartialEq, Eq, Structural)]
pub enum Side {
    /// The end that opens the session and learns the difference.
    Initiator,
    /// The end that answers until the other closes.
    Responder,
}

/// What a transport does next.
#[derive(Debug, PartialEq, Eq)]
pub enum Step {
    /// Send this frame.
    Send(Vec<u8>),
    /// Wait for a frame from the peer.
    Receive,
    /// Close the sending half: the session is over.
    Finish,
}

/// What one session exchanged.
#[derive(Clone, Copy, Debug, PartialEq, Eq, Structural)]
pub struct SessionCost {
    /// Peer messages that arrived.
    pub rounds: usize,
    /// Bytes of the frames sent.
    pub bytes_sent: u64,
    /// Bytes of the frames that arrived.
    pub bytes_received: u64,
}

/// Runs one session from one end of a stream.
pub struct Driver<E: Engine> {
    session: Session<E>,
    side: Side,
    speaking: bool,
    bytes_sent: u64,
    bytes_received: u64,
}

/// A byte count with a frame added, held at the largest a count can be.
pub open spec fn counted(so_far: u64, frame: nat) -> u64 {
    if so_far + frame <= u64::MAX {
        (so_far + frame) as u64
    } else {
        u64::MAX
    }
}

/// A byte count with a frame added.
fn count(so_far: u64, frame: usize) -> (sum: u64)
    ensures
        sum == counted(so_far, frame as nat),
{
    so_far.saturating_add(frame as u64)
}

/// What a transport is told to do about what a session says.
pub open spec fn told<E: Engine>(
    said: Result<Option<E::Message>, ReconcileError>,
    over: bool,
    step: Result<Step, ReconcileError>,
) -> bool where E::Message: WireMessage {
    match said {
        Err(error) => step == Err::<Step, ReconcileError>(error),
        Ok(None) => step == Ok::<Step, ReconcileError>(
            if over {
                Step::Finish
            } else {
                Step::Receive
            },
        ),
        Ok(Some(message)) => {
            let frame = codec::frame_bytes(
                PROTOCOL_VERSION,
                E::Message::wire_kind().wire_tag(),
                codec::body_bytes::<E::Message>(message@),
            );
            let size = codec::frame_size(
                PROTOCOL_VERSION,
                E::Message::wire_kind().wire_tag(),
                cbor::bulk(E::Message::written(message@)),
            );
            match step {
                Ok(Step::Send(bytes)) => {
                    &&& codec::decoded::<E::Message>(bytes@) == Ok::<
                        <E::Message as View>::V,
                        codec::Refusal,
                    >(message@)
                    &&& bytes@ == frame
                    &&& bytes@.len() == size
                    &&& size <= MAX_FRAME_BYTES
                },
                Ok(_) => false,
                Err(error) => size > MAX_FRAME_BYTES && error == (ReconcileError::FrameTooLarge {
                    size: size as usize,
                    max: MAX_FRAME_BYTES,
                }),
            }
        },
    }
}

impl<E: Engine> Driver<E> where E::Message: WireMessage {
    /// The session that is run.
    pub closed spec fn session(&self) -> Session<E> {
        self.session
    }

    /// Which end this is.
    pub closed spec fn side(&self) -> Side {
        self.side
    }

    /// Whether it is this end's turn to speak.
    pub closed spec fn speaking(&self) -> bool {
        self.speaking
    }

    /// Bytes of the frames sent.
    pub closed spec fn sent(&self) -> u64 {
        self.bytes_sent
    }

    /// Bytes of the frames that arrived.
    pub closed spec fn received(&self) -> u64 {
        self.bytes_received
    }

    /// Whether the driver can be run.
    pub open spec fn wf(&self) -> bool {
        self.session().wf()
    }

    /// How a driver moves when it is asked what to do next, and what it answers: it
    /// waits while it is not its turn, and otherwise does what follows from what its
    /// session says.
    pub open spec fn steps(before: Self, after: Self, step: Result<Step, ReconcileError>) -> bool {
        &&& after.side() == before.side()
        &&& after.received() == before.received()
        &&& !before.speaking() ==> {
            &&& step == Ok::<Step, ReconcileError>(Step::Receive)
            &&& after == before
        }
        &&& before.speaking() ==> {
            &&& exists|said: Result<Option<E::Message>, ReconcileError>|
                {
                    &&& #[trigger] Session::<E>::says(before.session(), after.session(), said)
                    &&& told::<E>(
                        said,
                        before.side() == Side::Initiator && before.session().converged(),
                        step,
                    )
                }
            &&& after.speaking() == (step != Ok::<Step, ReconcileError>(Step::Receive))
            &&& after.sent() == match step {
                Ok(Step::Send(frame)) => counted(before.sent(), frame@.len()),
                _ => before.sent(),
            }
        }
    }

    /// How a driver moves when a frame arrives, and what it makes of it: a frame it
    /// cannot read changes nothing but the count, and one it can goes to the session.
    pub open spec fn arrives(
        before: Self,
        frame: Seq<u8>,
        after: Self,
        answer: Result<Progress, ReconcileError>,
    ) -> bool {
        &&& after.side() == before.side()
        &&& after.sent() == before.sent()
        &&& after.received() == counted(before.received(), frame.len())
        &&& after.speaking() == (before.speaking() || answer is Ok)
        &&& match codec::decoded::<E::Message>(frame) {
            Err(refusal) => {
                &&& after.session() == before.session()
                &&& answer matches Err(error) && codec::reports(
                    error,
                    refusal,
                    frame.len(),
                    E::Message::wire_kind().wire_tag(),
                )
            },
            Ok(expected) => exists|message: E::Message|
                message@ == expected && #[trigger] Session::<E>::takes(
                    before.session(),
                    message,
                    after.session(),
                    answer,
                ),
        }
    }

    /// A driver is told to finish exactly if it is its turn, it is the initiator, and
    /// its session has converged; out of turn it is told to wait, and a converged
    /// session never has it send.
    pub proof fn lemma_finish_is_convergence(
        before: Self,
        after: Self,
        step: Result<Step, ReconcileError>,
    )
        requires
            Self::steps(before, after, step),
        ensures
            (step matches Ok(told) && told is Finish) <==> before.speaking() && before.side()
                is Initiator && before.session().converged(),
            !before.speaking() ==> (step matches Ok(told) && told is Receive),
            before.session().converged() ==> !(step matches Ok(told) && told is Send),
            after.session().converged() == before.session().converged(),
            after.session().round_count() == before.session().round_count(),
    {
        if before.speaking() {
            let said = choose|said: Result<Option<E::Message>, ReconcileError>|
                {
                    &&& #[trigger] Session::<E>::says(before.session(), after.session(), said)
                    &&& told::<E>(
                        said,
                        before.side() == Side::Initiator && before.session().converged(),
                        step,
                    )
                };
            Session::<E>::lemma_message_said(before.session(), after.session(), said);
        }
    }

    /// An initiator that takes in the frame its engine converges on, in any round the
    /// session allows, is told to finish next, with the difference its engine learned;
    /// and the peer closing is then no failure.
    pub proof fn lemma_convergence_finishes(
        before: Self,
        frame: Seq<u8>,
        heard: Self,
        answer: Result<Progress, ReconcileError>,
        after: Self,
        step: Result<Step, ReconcileError>,
    )
        requires
            before.side() is Initiator,
            Self::arrives(before, frame, heard, answer),
            Self::steps(heard, after, step),
            answer matches Ok(progress) && progress is Converged,
        ensures
            step matches Ok(told) && told is Finish,
            heard.session().converged(),
            after.session().converged(),
            after.session().engine() == heard.session().engine(),
    {
        let expected = codec::decoded::<E::Message>(frame)->Ok_0;
        let message = choose|message: E::Message|
            message@ == expected && #[trigger] Session::<E>::takes(
                before.session(),
                message,
                heard.session(),
                answer,
            );
        Session::<E>::lemma_message_taken(before.session(), message, heard.session(), answer);
        Self::lemma_finish_is_convergence(heard, after, step);
        let said = choose|said: Result<Option<E::Message>, ReconcileError>|
            {
                &&& #[trigger] Session::<E>::says(heard.session(), after.session(), said)
                &&& told::<E>(
                    said,
                    heard.side() == Side::Initiator && heard.session().converged(),
                    step,
                )
            };
        Session::<E>::lemma_message_said(heard.session(), after.session(), said);
    }

    /// What a session says goes out: a message whose frame takes no more than 16 MiB is
    /// sent, a larger one is refused with its size, and an error is passed on. With
    /// nothing to say the driver waits, unless the session is over. Waiting gives the
    /// turn away, and nothing else does.
    pub proof fn lemma_said_is_sent(before: Self, after: Self, step: Result<Step, ReconcileError>)
        requires
            Self::steps(before, after, step),
            before.speaking(),
        ensures
            exists|said: Result<Option<E::Message>, ReconcileError>|
                {
                    &&& #[trigger] Session::<E>::says(before.session(), after.session(), said)
                    &&& said matches Err(error) ==> step == Err::<Step, ReconcileError>(error)
                    &&& said matches Ok(None) ==> step is Ok && !(step->Ok_0 is Send)
                    &&& said matches Ok(Some(message)) ==> {
                        let size = codec::frame_size(
                            1,
                            E::Message::wire_kind().wire_tag(),
                            cbor::bulk(E::Message::written(message@)),
                        );
                        if size <= 16_777_216 {
                            step matches Ok(Step::Send(bytes)) && bytes@.len() == size
                                && codec::decoded::<E::Message>(bytes@) == Ok::<
                                <E::Message as View>::V,
                                codec::Refusal,
                            >(message@)
                        } else {
                            step matches Err(ReconcileError::FrameTooLarge { size: found, max })
                                && found == size as usize && max == 16_777_216
                        }
                    }
                },
            after.speaking() <==> !(step matches Ok(told) && told is Receive),
    {
        let said = choose|said: Result<Option<E::Message>, ReconcileError>|
            {
                &&& #[trigger] Session::<E>::says(before.session(), after.session(), said)
                &&& told::<E>(
                    said,
                    before.side() == Side::Initiator && before.session().converged(),
                    step,
                )
            };
        assert(Session::<E>::says(before.session(), after.session(), said));
    }

    /// A frame that cannot be read is refused and leaves the session and the turn as
    /// they were, and its bytes are counted all the same; a frame that is taken in gives
    /// the driver the turn. Counts stop at the largest they can hold.
    pub proof fn lemma_refused_frame_changes_nothing(
        before: Self,
        frame: Seq<u8>,
        after: Self,
        answer: Result<Progress, ReconcileError>,
    )
        requires
            Self::arrives(before, frame, after, answer),
        ensures
            codec::decoded::<E::Message>(frame) is Err ==> answer is Err && after.session()
                == before.session() && after.speaking() == before.speaking(),
            frame.len() > 16_777_216 ==> (answer matches Err(ReconcileError::FrameTooLarge {
                size,
                max,
            }) && size == frame.len() as usize && max == 16_777_216),
            answer is Ok ==> after.speaking(),
            answer is Err ==> after.speaking() == before.speaking(),
            after.sent() == before.sent(),
            after.side() == before.side(),
            after.received() as int == if before.received() + frame.len() > u64::MAX {
                u64::MAX as int
            } else {
                before.received() + frame.len()
            },
    {
        codec::lemma_decode_order::<E::Message>(frame);
    }

    /// A frame one driver is told to send reaches the session at the other end as the
    /// message that was said, and both count its bytes.
    pub proof fn lemma_sent_is_taken(
        before: Self,
        after: Self,
        frame: Vec<u8>,
        peer: Self,
        hearing: Self,
        answer: Result<Progress, ReconcileError>,
    )
        requires
            Self::steps(before, after, Ok(Step::Send(frame))),
            Self::arrives(peer, frame@, hearing, answer),
        ensures
            exists|said: E::Message, heard: E::Message|
                {
                    &&& said@ == heard@
                    &&& #[trigger] Session::<E>::says(
                        before.session(),
                        after.session(),
                        Ok(Some(said)),
                    )
                    &&& #[trigger] Session::<E>::takes(
                        peer.session(),
                        heard,
                        hearing.session(),
                        answer,
                    )
                },
            before.sent() + frame@.len() <= u64::MAX ==> after.sent() == before.sent()
                + frame@.len(),
            peer.received() + frame@.len() <= u64::MAX ==> hearing.received() == peer.received()
                + frame@.len(),
    {
        let step = Ok::<Step, ReconcileError>(Step::Send(frame));
        let said = choose|said: Result<Option<E::Message>, ReconcileError>|
            {
                &&& #[trigger] Session::<E>::says(before.session(), after.session(), said)
                &&& told::<E>(
                    said,
                    before.side() == Side::Initiator && before.session().converged(),
                    step,
                )
            };
        let message = said->Ok_0->Some_0;
        let heard = choose|heard: E::Message|
            heard@ == message@ && #[trigger] Session::<E>::takes(
                peer.session(),
                heard,
                hearing.session(),
                answer,
            );
        assert(said == Ok::<Option<E::Message>, ReconcileError>(Some(message)));
        assert(Session::<E>::says(before.session(), after.session(), Ok(Some(message))));
        assert(Session::<E>::takes(peer.session(), heard, hearing.session(), answer));
    }

    /// Runs the initiating side, which speaks first.
    pub fn initiator(session: Session<E>) -> (driver: Self)
        requires
            session.wf(),
        ensures
            driver.wf(),
            driver.session() == session,
            driver.side() == Side::Initiator,
            driver.speaking(),
            driver.sent() == 0,
            driver.received() == 0,
    {
        Driver { session, side: Side::Initiator, speaking: true, bytes_sent: 0, bytes_received: 0 }
    }

    /// Runs the responding side, which waits to be spoken to.
    pub fn responder(session: Session<E>) -> (driver: Self)
        requires
            session.wf(),
        ensures
            driver.wf(),
            driver.session() == session,
            driver.side() == Side::Responder,
            !driver.speaking(),
            driver.sent() == 0,
            driver.received() == 0,
    {
        Driver { session, side: Side::Responder, speaking: false, bytes_sent: 0, bytes_received: 0 }
    }

    /// What to do next: send everything the session has to say, one frame at a
    /// time, then finish if this is an initiator that has converged, and
    /// otherwise wait for the peer.
    pub fn next_step(&mut self) -> (step: Result<Step, ReconcileError>)
        requires
            old(self).wf(),
        ensures
            final(self).wf(),
            Self::steps(*old(self), *final(self), step),
            final(self).side() == old(self).side(),
            final(self).received() == old(self).received(),
            !old(self).speaking() ==> {
                &&& step == Ok::<Step, ReconcileError>(Step::Receive)
                &&& *final(self) == *old(self)
            },
            old(self).speaking() ==> {
                &&& exists|said: Result<Option<E::Message>, ReconcileError>|
                    {
                        &&& #[trigger] Session::<E>::says(
                            old(self).session(),
                            final(self).session(),
                            said,
                        )
                        &&& told::<E>(
                            said,
                            old(self).side() == Side::Initiator && old(self).session().converged(),
                            step,
                        )
                    }
                &&& final(self).speaking() == (step != Ok::<Step, ReconcileError>(Step::Receive))
                &&& final(self).sent() == match step {
                    Ok(Step::Send(frame)) => counted(old(self).sent(), frame@.len()),
                    _ => old(self).sent(),
                }
            },
            old(self).speaking() && old(self).side() == Side::Initiator
                && old(self).session().converged() ==> step == Ok::<Step, ReconcileError>(
                Step::Finish,
            ),
    {
        if !self.speaking {
            return Ok(Step::Receive);
        }
        let said = self.session.next_outbound();
        let ghost uttered = said;
        let step = match said {
            Err(error) => Err(error),
            Ok(None) => {
                if self.side == Side::Initiator && self.session.is_converged() {
                    Ok(Step::Finish)
                } else {
                    self.speaking = false;
                    Ok(Step::Receive)
                }
            },
            Ok(Some(message)) => match codec::encode(&message) {
                Ok(frame) => {
                    self.bytes_sent = count(self.bytes_sent, frame.len());
                    Ok(Step::Send(frame))
                },
                Err(error) => Err(error),
            },
        };
        assert(Session::<E>::says(old(self).session(), self.session(), uttered));
        step
    }

    /// Takes in a frame that arrived from the peer. It is then this end's turn
    /// to speak.
    pub fn frame_arrived(&mut self, frame: &[u8]) -> (r: Result<Progress, ReconcileError>)
        requires
            old(self).wf(),
        ensures
            final(self).wf(),
            Self::arrives(*old(self), frame@, *final(self), r),
            final(self).side() == old(self).side(),
            final(self).sent() == old(self).sent(),
            final(self).received() == counted(old(self).received(), frame@.len()),
            final(self).speaking() == (old(self).speaking() || r is Ok),
            match codec::decoded::<E::Message>(frame@) {
                Err(refusal) => {
                    &&& final(self).session() == old(self).session()
                    &&& r matches Err(error) && codec::reports(
                        error,
                        refusal,
                        frame@.len(),
                        E::Message::wire_kind().wire_tag(),
                    )
                },
                Ok(expected) => exists|message: E::Message|
                    message@ == expected && #[trigger] Session::<E>::takes(
                        old(self).session(),
                        message,
                        final(self).session(),
                        r,
                    ),
            },
    {
        self.bytes_received = count(self.bytes_received, frame.len());
        let message = match codec::decode::<E::Message>(frame) {
            Ok(message) => message,
            Err(error) => {
                return Err(error);
            },
        };
        let ghost read = message;
        let r = self.session.ingest(message);
        if let Ok(_) = r {
            self.speaking = true;
        }
        assert(Session::<E>::takes(old(self).session(), read, self.session(), r));
        r
    }

    /// What the peer closing its sending half means: the end of a session to a
    /// responder, and to an initiator that has not converged its failure.
    pub fn peer_closed(&self) -> (r: Result<(), ReconcileError>)
        ensures
            match r {
                Ok(_) => self.side() == Side::Responder || self.session().converged(),
                Err(error) => {
                    &&& self.side() == Side::Initiator
                    &&& !self.session().converged()
                    &&& error matches ReconcileError::Transport(text) && text@
                        == "peer closed the session before it converged"@
                },
            },
    {
        if self.side == Side::Initiator && !self.session.is_converged() {
            return Err(
                ReconcileError::Transport("peer closed the session before it converged".to_owned()),
            );
        }
        Ok(())
    }

    /// What a peer that keeps the stream open and sends nothing means: to either
    /// role, the failure of the session.
    pub fn peer_silent(&self) -> (error: ReconcileError)
        ensures
            error matches ReconcileError::Transport(text) && text@
                == "peer sent nothing for too long"@,
    {
        ReconcileError::Transport("peer sent nothing for too long".to_owned())
    }

    /// What the session has exchanged so far.
    pub fn cost(&self) -> (cost: SessionCost)
        ensures
            cost == (SessionCost {
                rounds: self.session().round_count(),
                bytes_sent: self.sent(),
                bytes_received: self.received(),
            }),
    {
        SessionCost {
            rounds: self.session.rounds(),
            bytes_sent: self.bytes_sent,
            bytes_received: self.bytes_received,
        }
    }

    /// Whether the local side has learned its full difference.
    pub fn is_converged(&self) -> (r: bool)
        ensures
            r == self.session().converged(),
    {
        self.session.is_converged()
    }

    /// Consumes the driver, yielding the difference its session learned.
    pub fn into_diff(self) -> (diff: Diff)
        ensures
            diff@ == self.session().engine().learned(),
    {
        self.session.into_diff()
    }
}

} // verus!
