//! What holds of a range session between two engines, and of the two sessions that
//! drive them, from the opening to the end.
use crate::reconcile::engine;
use crate::reconcile::engine::rbsr::engine as rbsr_engine;
use crate::reconcile::engine::rbsr::engine::{RbsrEngine, RbsrView, Role};
use crate::reconcile::engine::rbsr::initiator;
use crate::reconcile::engine::rbsr::laws;
use crate::reconcile::engine::rbsr::laws::Holdings;
use crate::reconcile::engine::rbsr::message;
use crate::reconcile::engine::rbsr::message::RbsrMessage;
use crate::reconcile::engine::rbsr::responder;
use crate::reconcile::engine::rbsr::rounds;
use crate::reconcile::engine::Progress;
use crate::reconcile::error::ReconcileError;
use crate::reconcile::session::Session;
use crate::reconcile::source::ItemSource;
use vstd::prelude::*;

verus! {

/// What an initiating engine opens a session with.
pub open spec fn initiating(a: Holdings) -> RbsrView {
    RbsrView {
        keys: a.keys,
        ids: a.ids,
        role: Role::Initiator,
        pending: Some(initiator::opening(a.ids)),
        diff: engine::no_difference(),
    }
}

/// What a responding engine opens a session with.
pub open spec fn responding(b: Holdings) -> RbsrView {
    RbsrView {
        keys: b.keys,
        ids: b.ids,
        role: Role::Responder,
        pending: None,
        diff: engine::no_difference(),
    }
}

/// One round: the responder answers what the initiator says, and the initiator takes
/// the answer in.
pub open spec fn played(v: RbsrView, w: RbsrView) -> (
    RbsrView,
    RbsrView,
    Result<Progress, ReconcileError>,
) {
    match v.pending {
        Some(question) => {
            let asking = RbsrView { pending: None, ..v };
            let (answering, heard) = rbsr_engine::answered(w, question);
            match (heard, answering.pending) {
                (Ok(_), Some(reply)) => {
                    let (next, answer) = rbsr_engine::answered(asking, reply);
                    (next, RbsrView { pending: None, ..answering }, answer)
                },
                (Err(error), _) => (asking, answering, Err(error)),
                _ => (asking, answering, Err(ReconcileError::UnexpectedMessage)),
            }
        },
        None => (v, w, Err(ReconcileError::UnexpectedMessage)),
    }
}

/// Where a session stands after some number of rounds, and what the initiator made of
/// the last; it stays where it is once it has ended.
pub open spec fn after_plays(v: RbsrView, w: RbsrView, plays: nat) -> (
    RbsrView,
    RbsrView,
    Result<Progress, ReconcileError>,
)
    decreases plays,
{
    if plays == 0 {
        (v, w, Ok(Progress::Continue))
    } else {
        let (next, answering, answer) = after_plays(v, w, (plays - 1) as nat);
        if answer == Ok::<Progress, ReconcileError>(Progress::Continue) {
            played(next, answering)
        } else {
            (next, answering, answer)
        }
    }
}

/// However many rounds it has taken, a session of two engines goes on exactly while
/// some range is in question, and ends on exactly the true difference; no error stops
/// it.
pub proof fn lemma_engines_are_exact(a: Holdings, b: Holdings, plays: nat)
    requires
        laws::reconcilable(a, b),
    ensures
        ({
            let (next, answering, answer) = after_plays(initiating(a), responding(b), plays);
            &&& answering == responding(b)
            &&& next.keys == a.keys && next.ids == a.ids && next.role == Role::Initiator
            &&& match answer {
                Ok(Progress::Continue) => {
                    &&& next.pending == Some(rounds::after_rounds(a, b, plays).0)
                    &&& next.diff == rounds::after_rounds(a, b, plays).1
                    &&& plays > 0 ==> !message::all_skip(rounds::after_rounds(a, b, plays).0)
                },
                Ok(Progress::Converged) => {
                    &&& next.pending is None
                    &&& next.diff.need.no_duplicates()
                    &&& next.diff.have.no_duplicates()
                    &&& forall|x: Seq<u8>| #[trigger]
                        next.diff.need.contains(x) <==> b.ids.contains(x) && !a.ids.contains(x)
                    &&& forall|x: Seq<u8>| #[trigger]
                        next.diff.have.contains(x) <==> a.ids.contains(x) && !b.ids.contains(x)
                },
                Err(_) => false,
            }
        }),
    decreases plays,
{
    if plays > 0 {
        let before = (plays - 1) as nat;
        lemma_engines_are_exact(a, b, before);
        let (next, answering, answer) = after_plays(initiating(a), responding(b), before);
        if answer == Ok::<Progress, ReconcileError>(Progress::Continue) {
            let (ranges, diff) = rounds::after_rounds(a, b, before);
            rounds::lemma_session_is_exact(a, b, before);
            rounds::lemma_session_is_exact(a, b, plays);
            laws::lemma_round_keeps_conversing(a, b, ranges, diff);
            let reply = responder::response(b.keys, b.ids, ranges).0;
            let asking = RbsrView { pending: None, ..next };
            assert(rbsr_engine::answered(answering, ranges) == (
                RbsrView { pending: Some(reply), ..answering },
                Ok::<Progress, ReconcileError>(Progress::Continue),
            ));
            assert(played(next, answering).1 == responding(b));
        }
    }
}

/// Two engines none of whose responses defers a range converge, on exactly the true
/// difference, within one round more than the splits that bring the responder's set
/// within the listing threshold.
pub proof fn lemma_engines_converge(a: Holdings, b: Holdings, splits: nat)
    requires
        laws::reconcilable(a, b),
        b.ids.len() <= rounds::reach_of(splits),
        forall|r: nat| r <= splits ==> #[trigger] rounds::round_undeferred(a, b, r),
    ensures
        ({
            let (next, answering, answer) = after_plays(
                initiating(a),
                responding(b),
                splits + 1,
            );
            &&& answer matches Ok(progress) && progress is Converged
            &&& next.diff.need.no_duplicates()
            &&& next.diff.have.no_duplicates()
            &&& forall|x: Seq<u8>| #[trigger]
                next.diff.need.contains(x) <==> b.ids.contains(x) && !a.ids.contains(x)
            &&& forall|x: Seq<u8>| #[trigger]
                next.diff.have.contains(x) <==> a.ids.contains(x) && !b.ids.contains(x)
        }),
{
    lemma_engines_are_exact(a, b, splits + 1);
    rounds::lemma_rounds_are_logarithmic(a, b, splits);
}

/// What an engine makes of any message. A responder answers each range of it and learns
/// nothing. An initiator maps each range of it, keeps what that teaches it, and has
/// converged exactly if every range it would send is agreed on; it then has nothing
/// more to say, and otherwise sends them. What either refuses it reports.
pub proof fn lemma_engine_answers(v: RbsrView, message: Seq<message::RangeView>)
    ensures
        ({
            let (w, answer) = rbsr_engine::answered(v, message);
            &&& w.keys == v.keys && w.ids == v.ids && w.role == v.role
            &&& v.role is Responder ==> {
                let (out, stopped) = responder::response(v.keys, v.ids, message);
                &&& w.diff == v.diff
                &&& stopped is Some ==> answer == Err::<Progress, ReconcileError>(
                    stopped->Some_0,
                ) && w.pending == v.pending
                &&& stopped is None ==> {
                    &&& answer matches Ok(progress) && progress is Continue
                    &&& w.pending == Some(out)
                }
            }
            &&& v.role is Initiator ==> {
                let (out, learned, stopped) = initiator::reconciled(
                    v.keys,
                    v.ids,
                    v.diff,
                    crate::reconcile::source::BoundView::Min,
                    message,
                );
                &&& w.diff == learned
                &&& stopped is Some ==> answer == Err::<Progress, ReconcileError>(
                    stopped->Some_0,
                ) && w.pending == v.pending
                &&& stopped is None ==> answer is Ok
                &&& stopped is None ==> ((answer matches Ok(progress) && progress is Converged)
                    <==> forall|i: int| 0 <= i < out.len() ==> (#[trigger] out[i]).mode is Skip)
                &&& (answer matches Ok(progress) && progress is Converged) ==> w.pending is None
                &&& (answer matches Ok(progress) && progress is Continue) ==> w.pending == Some(
                    out,
                )
            }
        }),
{
}

/// What an engine says is what it has to say, once.
pub proof fn lemma_engine_says_it_once<S: ItemSource>(
    before: RbsrEngine<S>,
    after: RbsrEngine<S>,
    answer: Result<Option<RbsrMessage>, ReconcileError>,
)
    requires
        <RbsrEngine<S> as engine::Engine>::speaks(before, after, answer),
    ensures
        answer is Ok,
        answer->Ok_0 is Some <==> before@.pending is Some,
        answer->Ok_0 matches Some(message) ==> before@.pending == Some(message@),
        after@.pending is None,
        after@.diff == before@.diff,
        after@.role == before@.role,
        after@.keys == before@.keys,
        after@.ids == before@.ids,
{
}

/// Whether two sessions move by one round: what the one says the other takes, and what
/// that says in turn the first takes.
pub open spec fn met<S: ItemSource, T: ItemSource>(
    asking: Session<RbsrEngine<S>>,
    answering: Session<RbsrEngine<T>>,
    asked: Session<RbsrEngine<S>>,
    answered: Session<RbsrEngine<T>>,
    answer: Result<Progress, ReconcileError>,
) -> bool {
    exists|
        question: RbsrMessage,
        heard: RbsrMessage,
        said: Session<RbsrEngine<S>>,
        took: Result<Progress, ReconcileError>,
        turned: Session<RbsrEngine<T>>,
        reply: RbsrMessage,
        read: RbsrMessage,
    |
        {
            &&& heard@ == question@
            &&& read@ == reply@
            &&& #[trigger] Session::<RbsrEngine<S>>::says(asking, said, Ok(Some(question)))
            &&& #[trigger] Session::<RbsrEngine<T>>::takes(answering, heard, turned, took)
            &&& #[trigger] Session::<RbsrEngine<T>>::says(turned, answered, Ok(Some(reply)))
            &&& #[trigger] Session::<RbsrEngine<S>>::takes(said, read, asked, answer)
        }
}

/// Two sessions that have not converged and have rounds left move as their engines do:
/// the answer is the engines', and the initiating session is converged exactly if its
/// engine answers that it is.
pub proof fn lemma_sessions_play<S: ItemSource, T: ItemSource>(
    asking: Session<RbsrEngine<S>>,
    answering: Session<RbsrEngine<T>>,
    asked: Session<RbsrEngine<S>>,
    answered: Session<RbsrEngine<T>>,
    answer: Result<Progress, ReconcileError>,
)
    requires
        met(asking, answering, asked, answered, answer),
        !asking.converged(),
        !answering.converged(),
        asking.round_count() < 32,
        answering.round_count() < 32,
        answering.engine()@.role == Role::Responder,
        answering.engine()@.pending is None,
    ensures
        ({
            let (next, done, expected) = played(asking.engine()@, answering.engine()@);
            expected is Ok ==> {
                &&& asked.engine()@ == next
                &&& answered.engine()@ == done
                &&& answer == expected
                &&& asked.converged() <==> (answer matches Ok(progress) && progress is Converged)
                &&& !answered.converged()
                &&& asked.round_count() == asking.round_count() + 1
                &&& answered.round_count() == answering.round_count() + 1
            }
        }),
{
    let (question, heard, said, took, turned, reply, read) = choose|
        question: RbsrMessage,
        heard: RbsrMessage,
        said: Session<RbsrEngine<S>>,
        took: Result<Progress, ReconcileError>,
        turned: Session<RbsrEngine<T>>,
        reply: RbsrMessage,
        read: RbsrMessage,
    |
        {
            &&& heard@ == question@
            &&& read@ == reply@
            &&& #[trigger] Session::<RbsrEngine<S>>::says(asking, said, Ok(Some(question)))
            &&& #[trigger] Session::<RbsrEngine<T>>::takes(answering, heard, turned, took)
            &&& #[trigger] Session::<RbsrEngine<T>>::says(turned, answered, Ok(Some(reply)))
            &&& #[trigger] Session::<RbsrEngine<S>>::takes(said, read, asked, answer)
        };
    Session::<RbsrEngine<S>>::lemma_message_said(asking, said, Ok(Some(question)));
    Session::<RbsrEngine<T>>::lemma_message_taken(answering, heard, turned, took);
    Session::<RbsrEngine<T>>::lemma_message_said(turned, answered, Ok(Some(reply)));
    Session::<RbsrEngine<S>>::lemma_message_taken(said, read, asked, answer);
}

/// Two sessions over the range engine, opened over two sets and driven against each
/// other: if their engines converge within the rounds a session allows, then by then
/// the initiating session has converged, its answer said so, and what it has learned
/// is exactly the true difference.
pub proof fn lemma_sessions_converge<S: ItemSource, T: ItemSource>(
    a: Holdings,
    b: Holdings,
    asking: Seq<Session<RbsrEngine<S>>>,
    answering: Seq<Session<RbsrEngine<T>>>,
    answers: Seq<Result<Progress, ReconcileError>>,
    plays: nat,
)
    requires
        laws::reconcilable(a, b),
        plays <= 32,
        asking.len() == plays + 1,
        answering.len() == plays + 1,
        answers.len() == plays,
        asking[0].engine()@ == initiating(a),
        answering[0].engine()@ == responding(b),
        !asking[0].converged() && !answering[0].converged(),
        asking[0].round_count() == 0 && answering[0].round_count() == 0,
        forall|k: int|
            0 <= k < plays ==> met(
                #[trigger] asking[k],
                answering[k],
                asking[k + 1],
                answering[k + 1],
                answers[k],
            ),
        forall|k: nat|
            k < plays ==> (#[trigger] after_plays(initiating(a), responding(b), k)).2 == Ok::<
                Progress,
                ReconcileError,
            >(Progress::Continue),
    ensures
        ({
            let (next, done, answer) = after_plays(initiating(a), responding(b), plays);
            let last = asking[plays as int];
            &&& last.engine()@ == next
            &&& last.round_count() == plays
            &&& answering[plays as int].engine()@ == done
            &&& answering[plays as int].round_count() == plays
            &&& !answering[plays as int].converged()
            &&& plays > 0 ==> answers[plays - 1] == answer
            &&& last.converged() <==> (answer matches Ok(progress) && progress is Converged)
            &&& last.converged() ==> {
                &&& last.engine()@.diff.need.no_duplicates()
                &&& last.engine()@.diff.have.no_duplicates()
                &&& forall|x: Seq<u8>| #[trigger]
                    last.engine()@.diff.need.contains(x) <==> b.ids.contains(x) && !a.ids.contains(
                        x,
                    )
                &&& forall|x: Seq<u8>| #[trigger]
                    last.engine()@.diff.have.contains(x) <==> a.ids.contains(x) && !b.ids.contains(
                        x,
                    )
            }
        }),
    decreases plays,
{
    lemma_engines_are_exact(a, b, plays);
    if plays > 0 {
        let before = (plays - 1) as nat;
        let fewer = asking.take(plays as int);
        let others = answering.take(plays as int);
        let said = answers.take(before as int);
        assert forall|k: int| 0 <= k < before implies met(
            #[trigger] fewer[k],
            others[k],
            fewer[k + 1],
            others[k + 1],
            said[k],
        ) by {
            assert(met(asking[k], answering[k], asking[k + 1], answering[k + 1], answers[k]));
        }
        lemma_sessions_converge(a, b, fewer, others, said, before);
        lemma_engines_are_exact(a, b, before);
        assert(fewer[before as int] == asking[before as int]);
        assert(others[before as int] == answering[before as int]);
        assert(after_plays(initiating(a), responding(b), before).2 == Ok::<
            Progress,
            ReconcileError,
        >(Progress::Continue));
        assert(met(
            asking[before as int],
            answering[before as int],
            asking[before as int + 1],
            answering[before as int + 1],
            answers[before as int],
        ));
        lemma_sessions_play(
            asking[before as int],
            answering[before as int],
            asking[plays as int],
            answering[plays as int],
            answers[before as int],
        );
    }
}

} // verus!
