//! What the two sessions that drive a rateless exchange do, and when they end.
use crate::reconcile::engine;
use crate::reconcile::engine::riblt::decoder;
use crate::reconcile::engine::riblt::decoder::DecoderView;
use crate::reconcile::engine::riblt::engine as riblt_engine;
use crate::reconcile::engine::riblt::engine::{RibltEngine, RibltView, RoleView};
use crate::reconcile::engine::riblt::exchange;
use crate::reconcile::engine::riblt::laws;
use crate::reconcile::engine::riblt::message::{RibltMessage, RibltMessageView};
use crate::reconcile::engine::riblt::symbol::CellView;
use crate::reconcile::engine::Progress;
use crate::reconcile::error::ReconcileError;
use crate::reconcile::session::Session;
use vstd::prelude::*;

verus! {

/// What an engine says is what it has to say, once.
pub proof fn lemma_engine_says_it_once(
    before: RibltEngine,
    after: RibltEngine,
    answer: Result<Option<RibltMessage>, ReconcileError>,
)
    requires
        <RibltEngine as engine::Engine>::speaks(before, after, answer),
    ensures
        answer is Ok,
        answer->Ok_0 is Some <==> before@.pending is Some,
        answer->Ok_0 matches Some(message) ==> before@.pending == Some(message@),
        after@.pending is None,
        after@.diff == before@.diff,
        after@.role == before@.role,
        after@.width == before@.width,
{
}

/// An engine refuses what is not for its side, and is left as it was: an encoder takes
/// no cells, and a decoder takes no request and no empty batch.
pub proof fn lemma_engine_refuses(v: RibltView, message: RibltMessageView)
    ensures
        (v.role is Encoder && message is Symbols) || (v.role is Decoder && message is Request) || (
        v.role is Decoder && (message matches RibltMessageView::Symbols { symbols, .. }
            && symbols.len() == 0)) ==> {
            &&& riblt_engine::answered(v, message).0 == v
            &&& riblt_engine::answered(v, message).1 matches Err(
                ReconcileError::UnexpectedMessage,
            )
        },
{
}

/// The width a set reconciles at: none yet if it is empty, and otherwise the one width
/// all its identities have, up to 64 bytes. A set of mixed widths is refused for the
/// first identity that differs from the first of all, and a wider set for its width.
pub proof fn lemma_width_is_the_one_all_have(ids: Seq<Seq<u8>>)
    ensures
        ids.len() == 0 ==> riblt_engine::width_of(ids) == Ok::<nat, ReconcileError>(0nat),
        ids.len() > 0 ==> match riblt_engine::width_of(ids) {
            Ok(width) => {
                &&& width <= 64
                &&& forall|i: int| 0 <= i < ids.len() ==> (#[trigger] ids[i]).len() == width
            },
            Err(ReconcileError::SymbolTooWide { size, max }) => {
                &&& max == 64
                &&& ids[0].len() > 64
                &&& size == ids[0].len() as usize
                &&& forall|i: int|
                    0 <= i < ids.len() ==> (#[trigger] ids[i]).len() == ids[0].len()
            },
            Err(ReconcileError::SymbolWidthMismatch { found, expected }) => {
                &&& expected == ids[0].len() as usize
                &&& exists|k: int|
                    {
                        &&& 0 < k < ids.len()
                        &&& found == (#[trigger] ids[k]).len() as usize
                        &&& ids[k].len() != ids[0].len()
                        &&& forall|i: int|
                            0 <= i < k ==> (#[trigger] ids[i]).len() == ids[0].len()
                    }
            },
            Err(_) => false,
        },
{
    if ids.len() > 0 {
        lemma_odd_width_is_the_first(ids, 0);
    }
}

/// The odd width found from some index up is that of the first identity that has one.
proof fn lemma_odd_width_is_the_first(ids: Seq<Seq<u8>>, from: int)
    requires
        0 <= from <= ids.len(),
        ids.len() > 0,
        forall|i: int| 0 <= i < from ==> (#[trigger] ids[i]).len() == ids[0].len(),
    ensures
        match riblt_engine::odd_width(ids, from) {
            Some(found) => exists|k: int|
                {
                    &&& 0 < k < ids.len()
                    &&& found == (#[trigger] ids[k]).len()
                    &&& ids[k].len() != ids[0].len()
                    &&& forall|i: int| 0 <= i < k ==> (#[trigger] ids[i]).len() == ids[0].len()
                },
            None => forall|i: int|
                0 <= i < ids.len() ==> (#[trigger] ids[i]).len() == ids[0].len(),
        },
    decreases ids.len() - from,
{
    if from < ids.len() {
        if ids[from].len() == ids[0].len() {
            lemma_odd_width_is_the_first(ids, from + 1);
        } else {
            assert(ids[from].len() != ids[0].len());
        }
    }
}

/// How a declared width is met: past 64 bytes it is refused, and so is one that differs
/// from a width already known; a side that knows none starts over at it, with nothing
/// in its set; and otherwise nothing changes.
pub proof fn lemma_width_is_settled(v: RibltView, declared: u16)
    ensures
        match riblt_engine::adopted(v, declared) {
            Err(ReconcileError::SymbolTooWide { size, max }) => {
                &&& declared > 64
                &&& size == declared
                &&& max == 64
            },
            Err(ReconcileError::SymbolWidthMismatch { found, expected }) => {
                &&& 0 < declared <= 64
                &&& v.width != 0
                &&& v.width != declared
                &&& found == declared
                &&& expected == v.width as usize
            },
            Err(_) => false,
            Ok(w) => {
                &&& declared <= 64
                &&& w.pending == v.pending
                &&& w.diff == v.diff
                &&& w.width == if declared == 0 {
                    v.width
                } else {
                    declared as nat
                }
                &&& declared == 0 || v.width == declared ==> w == v
                &&& declared != 0 && v.width != declared ==> {
                    &&& v.width == 0
                    &&& v.role matches RoleView::Encoder { produced, .. } ==> w.role == (
                    RoleView::Encoder { symbols: Seq::empty(), position: 0, produced })
                    &&& v.role matches RoleView::Decoder { received, .. } ==> (
                    w.role matches RoleView::Decoder { state, received: kept } && {
                        &&& kept == received
                        &&& state.width == declared
                        &&& state.set.len() == 0
                        &&& state.cells.len() == 0
                        &&& state.accepted.len() == 0
                        &&& state.retired.len() == 0
                        &&& state.queue.len() == 0
                        &&& state.remote.len() == 0
                        &&& state.local.len() == 0
                    })
                }
            },
        },
{
}

/// An encoder answers a request with as many cells as are asked for, at least one, and
/// no more than a frame carries or than the session has left: the next of its stream,
/// in order.
pub proof fn lemma_request_is_served(v: RibltView, wanted: u32)
    requires
        v.role is Encoder,
        v.width <= 64,
        v.role->produced < 262_144,
    ensures
        ({
            let (w, answer) = riblt_engine::answered(
                v,
                RibltMessageView::Request { symbols: wanted, width: v.width as u16 },
            );
            let left = 262_144 - v.role->produced;
            &&& answer matches Ok(progress) && progress is Continue
            &&& w.pending matches Some(RibltMessageView::Symbols { width, symbols }) && {
                let n = symbols.len();
                &&& width == v.width
                &&& 1 <= n <= 16_384
                &&& n <= left
                &&& wanted >= 1 ==> n <= wanted
                &&& n == wanted || n == 16_384 || n == left || (wanted == 0 && n == 1)
                &&& w.role matches RoleView::Encoder { symbols: set, position, produced } && {
                    &&& set == v.role->Encoder_symbols
                    &&& position == v.role->position + n
                    &&& produced == v.role->produced + n
                    &&& forall|k: int|
                        0 <= k < n ==> #[trigger] symbols[k]
                            == crate::reconcile::engine::riblt::encoder::stream_cell(
                            v.width,
                            set,
                            v.role->position + k,
                        )
                }
            }
        }),
{
    assert(riblt_engine::adopted(v, v.width as u16) == Ok::<RibltView, ReconcileError>(v));
}

/// A batch with a cell of another width than the session's is refused for the first such
/// cell.
pub proof fn lemma_odd_cell_is_refused(v: RibltView, batch: Seq<CellView>, k: int)
    requires
        v.role is Decoder,
        v.width <= 64,
        v.role->state.width == v.width,
        v.role->received + batch.len() <= 262_144,
        0 <= k < batch.len(),
        batch[k].sum.len() != v.width,
        forall|i: int| 0 <= i < k ==> (#[trigger] batch[i]).sum.len() == v.width,
    ensures
        riblt_engine::answered(
            v,
            RibltMessageView::Symbols { width: v.width as u16, symbols: batch },
        ).1 matches Err(ReconcileError::SymbolWidthMismatch { found, expected }) && found
            == batch[k].sum.len() as usize && expected == v.width,
{
    assert(riblt_engine::adopted(v, v.width as u16) == Ok::<RibltView, ReconcileError>(v));
    lemma_took_stops_at_the_odd_cell(v.role->state, batch, k);
}

/// Taking a batch in stops at the first cell of another width.
proof fn lemma_took_stops_at_the_odd_cell(state: DecoderView, batch: Seq<CellView>, k: int)
    requires
        0 <= k < batch.len(),
        batch[k].sum.len() != state.width,
        forall|i: int| 0 <= i < k ==> (#[trigger] batch[i]).sum.len() == state.width,
    ensures
        riblt_engine::took(state, batch).1 == Some(batch[k].sum.len()),
    decreases batch.len(),
{
    if k > 0 {
        assert(batch[0].sum.len() == state.width);
        let rest = batch.skip(1);
        assert forall|i: int| 0 <= i < k - 1 implies (#[trigger] rest[i]).sum.len()
            == state.width by {
            assert(rest[i] == batch[i + 1]);
        }
        lemma_took_stops_at_the_odd_cell(decoder::taken(state, batch[0]), rest, k - 1);
    }
}

/// A batch of cells of the session's width, whoever sent them, is taken in, cell after
/// cell, and peeled. If nothing is then left in any cell the decoder has converged, and
/// what it recovered is what it learned; otherwise it asks for as many cells as it has
/// received, from eight up to 16384.
pub proof fn lemma_batch_is_solved(v: RibltView, batch: Seq<CellView>)
    requires
        v.role is Decoder,
        v.width <= 64,
        v.role->state.width == v.width,
        0 < batch.len(),
        v.role->received + batch.len() <= 262_144,
        forall|i: int| 0 <= i < batch.len() ==> (#[trigger] batch[i]).sum.len() == v.width,
    ensures
        ({
            let (w, answer) = riblt_engine::answered(
                v,
                RibltMessageView::Symbols { width: v.width as u16, symbols: batch },
            );
            let total = v.role->received + batch.len();
            let settled = decoder::drained(
                batch.fold_left(
                    v.role->state,
                    |state: DecoderView, cell: CellView| decoder::taken(state, cell),
                ),
            );
            &&& w.width == v.width
            &&& w.role matches RoleView::Decoder { state, received } && state == settled
                && received == total
            &&& answer is Ok
            &&& (answer matches Ok(progress) && progress is Converged) <==> decoder::decoded(
                settled,
            )
            &&& decoder::decoded(settled) ==> {
                &&& w.pending is None
                &&& w.diff.need == v.diff.need + settled.remote
                &&& w.diff.have == v.diff.have + settled.local
            }
            &&& !decoder::decoded(settled) ==> {
                &&& w.diff == v.diff
                &&& w.pending matches Some(RibltMessageView::Request { symbols, width }) && {
                    &&& width == v.width
                    &&& symbols == if total < 8 {
                        8
                    } else if total > 16_384 {
                        16_384
                    } else {
                        total
                    }
                }
            }
        }),
{
    assert(riblt_engine::adopted(v, v.width as u16) == Ok::<RibltView, ReconcileError>(v));
    lemma_took_is_the_fold(v.role->state, batch);
}

/// Taking a batch of cells of one width in takes them one after another.
proof fn lemma_took_is_the_fold(state: DecoderView, batch: Seq<CellView>)
    requires
        forall|i: int| 0 <= i < batch.len() ==> (#[trigger] batch[i]).sum.len() == state.width,
    ensures
        riblt_engine::took(state, batch) == (
            batch.fold_left(
                state,
                |state: DecoderView, cell: CellView| decoder::taken(state, cell),
            ),
            None::<nat>,
        ),
    decreases batch.len(),
{
    let f = |state: DecoderView, cell: CellView| decoder::taken(state, cell);
    batch.lemma_fold_left_alt(state, f);
    if batch.len() > 0 {
        let rest = batch.skip(1);
        let next = decoder::taken(state, batch[0]);
        assert(batch[0].sum.len() == state.width);
        assert forall|i: int| 0 <= i < rest.len() implies (#[trigger] rest[i]).sum.len()
            == next.width by {
            assert(rest[i] == batch[i + 1]);
        }
        lemma_took_is_the_fold(next, rest);
        rest.lemma_fold_left_alt(next, f);
        assert(batch.subrange(1, batch.len() as int) =~= rest);
        assert(batch.fold_left_alt(state, f) == rest.fold_left_alt(next, f));
    }
}

/// Past the cells a session may exchange, either side gives up: an encoder that has
/// produced them all, and a decoder a batch would take past them.
pub proof fn lemma_symbol_cap_ends_the_session(v: RibltView, message: RibltMessageView)
    requires
        v.width <= 64,
        match (v.role, message) {
            (RoleView::Encoder { produced, .. }, RibltMessageView::Request { width, .. }) => {
                &&& produced >= 262_144
                &&& width == v.width
            },
            (
                RoleView::Decoder { received, .. },
                RibltMessageView::Symbols { symbols, width },
            ) => {
                &&& received + symbols.len() > 262_144
                &&& symbols.len() > 0
                &&& width == v.width
            },
            _ => false,
        },
    ensures
        riblt_engine::answered(v, message).0 == v,
        riblt_engine::answered(v, message).1 matches Err(
            ReconcileError::SymbolCapExceeded { max },
        ) && max == 262_144,
{
    assert(riblt_engine::adopted(v, v.width as u16) == Ok::<RibltView, ReconcileError>(v));
}

/// Whether two sessions move by one exchange: what the one says the other takes, and
/// what that says in turn the first takes.
pub open spec fn met(
    asking: Session<RibltEngine>,
    answering: Session<RibltEngine>,
    asked: Session<RibltEngine>,
    answered: Session<RibltEngine>,
    answer: Result<Progress, ReconcileError>,
) -> bool {
    exists|
        request: RibltMessage,
        heard: RibltMessage,
        said: Session<RibltEngine>,
        took: Result<Progress, ReconcileError>,
        turned: Session<RibltEngine>,
        batch: RibltMessage,
        read: RibltMessage,
    |
        {
            &&& heard@ == request@
            &&& read@ == batch@
            &&& #[trigger] Session::<RibltEngine>::says(asking, said, Ok(Some(request)))
            &&& #[trigger] Session::<RibltEngine>::takes(answering, heard, turned, took)
            &&& #[trigger] Session::<RibltEngine>::says(turned, answered, Ok(Some(batch)))
            &&& #[trigger] Session::<RibltEngine>::takes(said, read, asked, answer)
        }
}

/// Two sessions that have not converged and have rounds left move as their engines do:
/// the answer is the engines', and the decoding session is converged exactly if its
/// engine answers that it is.
pub proof fn lemma_sessions_exchange(
    asking: Session<RibltEngine>,
    answering: Session<RibltEngine>,
    asked: Session<RibltEngine>,
    answered: Session<RibltEngine>,
    answer: Result<Progress, ReconcileError>,
)
    requires
        met(asking, answering, asked, answered, answer),
        !asking.converged(),
        !answering.converged(),
        asking.round_count() < 32,
        answering.round_count() < 32,
        answering.engine()@.role is Encoder,
    ensures
        ({
            let (next, done, expected) = exchange::exchanged(
                asking.engine()@,
                answering.engine()@,
            );
            expected is Ok ==> {
                &&& asked.engine()@ == next
                &&& answered.engine()@ == done
                &&& answer == expected
                &&& asked.converged() <==> (answer matches Ok(progress) && progress is Converged)
                &&& !answered.converged()
                &&& asked.round_count() == asking.round_count() + 1
                &&& answered.round_count() == answering.round_count() + 1
            }
        }),
{
    let (request, heard, said, took, turned, batch, read) = choose|
        request: RibltMessage,
        heard: RibltMessage,
        said: Session<RibltEngine>,
        took: Result<Progress, ReconcileError>,
        turned: Session<RibltEngine>,
        batch: RibltMessage,
        read: RibltMessage,
    |
        {
            &&& heard@ == request@
            &&& read@ == batch@
            &&& #[trigger] Session::<RibltEngine>::says(asking, said, Ok(Some(request)))
            &&& #[trigger] Session::<RibltEngine>::takes(answering, heard, turned, took)
            &&& #[trigger] Session::<RibltEngine>::says(turned, answered, Ok(Some(batch)))
            &&& #[trigger] Session::<RibltEngine>::takes(said, read, asked, answer)
        };
    Session::<RibltEngine>::lemma_message_said(asking, said, Ok(Some(request)));
    Session::<RibltEngine>::lemma_message_taken(answering, heard, turned, took);
    Session::<RibltEngine>::lemma_message_said(turned, answered, Ok(Some(batch)));
    Session::<RibltEngine>::lemma_message_taken(said, read, asked, answer);
}

/// Two sessions over the rateless engine, opened over two sets and driven against each
/// other: if their engines converge within the rounds a session allows, then by then
/// the decoding session has converged, its answer said so, and what it has learned is
/// exactly the true difference.
pub proof fn lemma_sessions_converge(
    width: nat,
    mine: Seq<Seq<u8>>,
    theirs: Seq<Seq<u8>>,
    asking: Seq<Session<RibltEngine>>,
    answering: Seq<Session<RibltEngine>>,
    answers: Seq<Result<Progress, ReconcileError>>,
    exchanges: nat,
)
    requires
        width <= 64,
        laws::reconcilable(width, mine, theirs),
        forall|k: nat|
            k < exchanges ==> #[trigger] exchange::batch_drains_true(
                exchange::decoding(width, mine),
                exchange::encoding(width, theirs),
                theirs,
                k,
            ),
        exchanges <= 32,
        asking.len() == exchanges + 1,
        answering.len() == exchanges + 1,
        answers.len() == exchanges,
        asking[0].engine()@ == exchange::decoding(width, mine),
        answering[0].engine()@ == exchange::encoding(width, theirs),
        !asking[0].converged() && !answering[0].converged(),
        asking[0].round_count() == 0 && answering[0].round_count() == 0,
        forall|k: int|
            0 <= k < exchanges ==> met(
                #[trigger] asking[k],
                answering[k],
                asking[k + 1],
                answering[k + 1],
                answers[k],
            ),
        forall|k: nat|
            k < exchanges ==> (#[trigger] exchange::after_exchanges(
                exchange::decoding(width, mine),
                exchange::encoding(width, theirs),
                k,
            )).2 == Ok::<Progress, ReconcileError>(Progress::Continue),
        exchange::after_exchanges(
            exchange::decoding(width, mine),
            exchange::encoding(width, theirs),
            exchanges,
        ).2 is Ok,
    ensures
        ({
            let (next, done, answer) = exchange::after_exchanges(
                exchange::decoding(width, mine),
                exchange::encoding(width, theirs),
                exchanges,
            );
            let last = asking[exchanges as int];
            &&& last.engine()@ == next
            &&& last.round_count() == exchanges
            &&& answering[exchanges as int].engine()@ == done
            &&& answering[exchanges as int].round_count() == exchanges
            &&& !answering[exchanges as int].converged()
            &&& exchanges > 0 ==> answers[exchanges - 1] == answer
            &&& last.converged() <==> (answer matches Ok(progress) && progress is Converged)
            &&& last.converged() ==> {
                &&& last.engine()@.diff.need.no_duplicates()
                &&& last.engine()@.diff.have.no_duplicates()
                &&& forall|x: Seq<u8>| #[trigger]
                    last.engine()@.diff.need.contains(x) <==> theirs.contains(x) && !mine.contains(
                        x,
                    )
                &&& forall|x: Seq<u8>| #[trigger]
                    last.engine()@.diff.have.contains(x) <==> mine.contains(x) && !theirs.contains(
                        x,
                    )
            }
        }),
    decreases exchanges,
{
    let d = exchange::decoding(width, mine);
    let e = exchange::encoding(width, theirs);
    exchange::lemma_session_is_exact(width, mine, theirs, exchanges);
    if exchanges > 0 {
        let before = (exchanges - 1) as nat;
        let fewer = asking.take(exchanges as int);
        let others = answering.take(exchanges as int);
        let said = answers.take(before as int);
        assert(exchange::after_exchanges(d, e, before).2 == Ok::<Progress, ReconcileError>(
            Progress::Continue,
        ));
        assert forall|k: int| 0 <= k < before implies met(
            #[trigger] fewer[k],
            others[k],
            fewer[k + 1],
            others[k + 1],
            said[k],
        ) by {
            assert(met(asking[k], answering[k], asking[k + 1], answering[k + 1], answers[k]));
        }
        lemma_sessions_converge(width, mine, theirs, fewer, others, said, before);
        exchange::lemma_session_is_exact(width, mine, theirs, before);
        assert(fewer[before as int] == asking[before as int]);
        assert(others[before as int] == answering[before as int]);
        assert(met(
            asking[before as int],
            answering[before as int],
            asking[before as int + 1],
            answering[before as int + 1],
            answers[before as int],
        ));
        lemma_sessions_exchange(
            asking[before as int],
            answering[before as int],
            asking[exchanges as int],
            answering[exchanges as int],
            answers[before as int],
        );
    }
}

} // verus!
