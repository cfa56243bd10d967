//! What holds of a rateless session between two honest engines, from its opening
//! request to its end.
use crate::reconcile::engine;
use crate::reconcile::engine::riblt::caps;
use crate::reconcile::engine::riblt::decoder;
use crate::reconcile::engine::riblt::decoder::DecoderView;
use crate::reconcile::engine::riblt::engine as riblt_engine;
use crate::reconcile::engine::riblt::engine::{RibltView, RoleView};
use crate::reconcile::engine::riblt::laws;
use crate::reconcile::engine::riblt::message::RibltMessageView;
use crate::reconcile::engine::Progress;
use crate::reconcile::error::ReconcileError;
use vstd::prelude::*;

verus! {

/// What a decoding engine opens a session with.
pub open spec fn decoding(width: nat, mine: Seq<Seq<u8>>) -> RibltView {
    RibltView {
        role: RoleView::Decoder { state: decoder::fresh(width, mine), received: 0 },
        width,
        pending: Some(
            RibltMessageView::Request {
                symbols: caps::INITIAL_SYMBOL_BATCH as u32,
                width: width as u16,
            },
        ),
        diff: engine::no_difference(),
    }
}

/// What an encoding engine opens a session with.
pub open spec fn encoding(width: nat, theirs: Seq<Seq<u8>>) -> RibltView {
    RibltView {
        role: RoleView::Encoder { symbols: theirs, position: 0, produced: 0 },
        width,
        pending: None,
        diff: engine::no_difference(),
    }
}

/// One exchange: the encoder answers what the decoder asks, and the decoder takes
/// the answer in.
pub open spec fn exchanged(d: RibltView, e: RibltView) -> (
    RibltView,
    RibltView,
    Result<Progress, ReconcileError>,
) {
    match d.pending {
        Some(request) => {
            let asking = RibltView { pending: None, ..d };
            let (serving, heard) = riblt_engine::answered(e, request);
            match (heard, serving.pending) {
                (Ok(_), Some(batch)) => {
                    let (next, answer) = riblt_engine::answered(asking, batch);
                    (next, RibltView { pending: None, ..serving }, answer)
                },
                (Err(error), _) => (asking, serving, Err(error)),
                _ => (asking, serving, Err(ReconcileError::UnexpectedMessage)),
            }
        },
        None => (d, e, Err(ReconcileError::UnexpectedMessage)),
    }
}

/// Where a session stands between two exchanges: both engines at one width and at
/// one place in the stream, and only true symbols recovered.
pub open spec fn paired(
    d: RibltView,
    e: RibltView,
    mine: Seq<Seq<u8>>,
    theirs: Seq<Seq<u8>>,
) -> bool {
    &&& d.role matches RoleView::Decoder { state, received }
    &&& e.role matches RoleView::Encoder { symbols, position, produced }
    &&& d.pending matches Some(RibltMessageView::Request { symbols: wanted, width: declared })
    &&& d.width == e.width == declared == state.width <= caps::MAX_SYMBOL_BYTES
    &&& symbols == theirs
    &&& state.set == mine
    &&& state.cells.len() == position == produced == received <= caps::MAX_CODED_SYMBOLS
    &&& decoder::accounted(state)
    &&& laws::honest(state, theirs)
    &&& laws::truthful(state, theirs)
    &&& d.diff == engine::no_difference()
}

/// The state a decoder has taken the encoder's answer into, before it peels.
pub open spec fn taken_in(d: RibltView, e: RibltView) -> DecoderView {
    let state = d.role->state;
    match d.pending {
        Some(request) => match riblt_engine::answered(e, request).0.pending {
            Some(RibltMessageView::Symbols { symbols, .. }) => riblt_engine::took(
                state,
                symbols,
            ).0,
            _ => state,
        },
        None => state,
    }
}

/// An exchange ends with the decoder asking for more, or converged on exactly the
/// true difference, or on the symbol cap: nothing else can happen between honest
/// peers, if draining the batch reads nothing false.
pub proof fn lemma_exchange(
    d: RibltView,
    e: RibltView,
    mine: Seq<Seq<u8>>,
    theirs: Seq<Seq<u8>>,
)
    requires
        paired(d, e, mine, theirs),
        laws::reconcilable(d.width, mine, theirs),
        laws::drains_true(taken_in(d, e), theirs),
    ensures
        ({
            let (next, serving, answer) = exchanged(d, e);
            match answer {
                Ok(Progress::Continue) => {
                    &&& paired(next, serving, mine, theirs)
                    &&& next.width == d.width
                },
                Ok(Progress::Converged) => {
                    &&& laws::is_difference(next.diff.need, theirs, mine)
                    &&& laws::is_difference(next.diff.have, mine, theirs)
                },
                Err(error) => {
                    &&& error == (ReconcileError::SymbolCapExceeded {
                        max: caps::MAX_CODED_SYMBOLS,
                    })
                    &&& e.role->produced == caps::MAX_CODED_SYMBOLS
                },
            }
        }),
{
    let state = d.role->state;
    let produced = e.role->produced;
    let wanted = d.pending->Some_0->Request_symbols;
    let asking = RibltView { pending: None, ..d };
    let (next, serving, answer) = exchanged(d, e);
    assert(riblt_engine::adopted(e, d.width as u16) == Ok::<RibltView, ReconcileError>(e));
    if produced < caps::MAX_CODED_SYMBOLS {
        let count = riblt_engine::granted(wanted, (caps::MAX_CODED_SYMBOLS - produced) as nat);
        let batch = riblt_engine::stream_batch(d.width, theirs, state.cells.len(), count);
        assert(taken_in(d, e) == riblt_engine::took(state, batch).0);
        laws::lemma_session_recovers_the_difference(asking, theirs, count);
        laws::lemma_honest_batch_keeps_truth(state, theirs, count);
        assert((next, answer) == riblt_engine::solved(asking, d.width as u16, batch));
        let filled = riblt_engine::took(state, batch).0;
        decoder::lemma_drained_accounted(filled);
        if answer == Ok::<Progress, ReconcileError>(Progress::Converged) {
            let settled = next.role->state;
            laws::lemma_honest_peels_are_true(filled, theirs);
            laws::lemma_honest_convergence_is_exact(settled, theirs);
            assert(next.diff.need =~= settled.remote);
            assert(next.diff.have =~= settled.local);
        }
    }
}

/// A side with an empty set does not know the width, and takes the other's with
/// the first exchange: a session opens as if it had known.
pub proof fn lemma_opening_settles_the_width(mine: Seq<Seq<u8>>, theirs: Seq<Seq<u8>>)
    requires
        riblt_engine::width_of(mine) is Ok,
        riblt_engine::width_of(theirs) is Ok,
        mine.len() > 0 && theirs.len() > 0 ==> mine[0].len() == theirs[0].len(),
    ensures
        ({
            let d = decoding(riblt_engine::width_of(mine)->Ok_0, mine);
            let e = encoding(riblt_engine::width_of(theirs)->Ok_0, theirs);
            let width = common_width(mine, theirs);
            exchanged(d, e) == exchanged(decoding(width, mine), encoding(width, theirs))
        }),
{
    let own = riblt_engine::width_of(mine)->Ok_0;
    let other = riblt_engine::width_of(theirs)->Ok_0;
    let width = common_width(mine, theirs);
    if own != other {
        if mine.len() == 0 {
            assert(mine =~= Seq::<Seq<u8>>::empty());
        } else {
            assert(theirs =~= Seq::<Seq<u8>>::empty());
        }
    }
}

/// The width a session between two sets runs at.
pub open spec fn common_width(mine: Seq<Seq<u8>>, theirs: Seq<Seq<u8>>) -> nat {
    if mine.len() > 0 {
        mine[0].len()
    } else if theirs.len() > 0 {
        theirs[0].len()
    } else {
        0
    }
}

/// Where a session stands after some number of exchanges, and what the decoder
/// made of the last; it stays where it is once it has ended.
pub open spec fn after_exchanges(d: RibltView, e: RibltView, exchanges: nat) -> (
    RibltView,
    RibltView,
    Result<Progress, ReconcileError>,
)
    decreases exchanges,
{
    if exchanges == 0 {
        (d, e, Ok(Progress::Continue))
    } else {
        let (next, serving, answer) = after_exchanges(d, e, (exchanges - 1) as nat);
        if answer == Ok::<Progress, ReconcileError>(Progress::Continue) {
            exchanged(next, serving)
        } else {
            (next, serving, answer)
        }
    }
}

/// Whether draining the batch of an exchange reads nothing false.
pub open spec fn batch_drains_true(
    d: RibltView,
    e: RibltView,
    theirs: Seq<Seq<u8>>,
    exchange: nat,
) -> bool {
    let (next, serving, answer) = after_exchanges(d, e, exchange);
    answer == Ok::<Progress, ReconcileError>(Progress::Continue) ==> laws::drains_true(
        taken_in(next, serving),
        theirs,
    )
}

/// A session between honest peers, none of whose batches drains falsely, however
/// many exchanges it takes, is still asking, or has converged on exactly the true
/// difference, or has spent its whole symbol budget.
pub proof fn lemma_session_is_exact(
    width: nat,
    mine: Seq<Seq<u8>>,
    theirs: Seq<Seq<u8>>,
    exchanges: nat,
)
    requires
        width <= caps::MAX_SYMBOL_BYTES,
        laws::reconcilable(width, mine, theirs),
        forall|k: nat|
            k < exchanges ==> #[trigger] batch_drains_true(
                decoding(width, mine),
                encoding(width, theirs),
                theirs,
                k,
            ),
    ensures
        ({
            let (next, serving, answer) = after_exchanges(
                decoding(width, mine),
                encoding(width, theirs),
                exchanges,
            );
            match answer {
                Ok(Progress::Continue) => {
                    &&& paired(next, serving, mine, theirs)
                    &&& next.width == width
                },
                Ok(Progress::Converged) => {
                    &&& laws::is_difference(next.diff.need, theirs, mine)
                    &&& laws::is_difference(next.diff.have, mine, theirs)
                },
                Err(error) => error == (ReconcileError::SymbolCapExceeded {
                    max: caps::MAX_CODED_SYMBOLS,
                }),
            }
        }),
    decreases exchanges,
{
    let d = decoding(width, mine);
    let e = encoding(width, theirs);
    if exchanges == 0 {
        laws::lemma_fresh_is_true(width, mine, theirs);
    } else {
        let (next, serving, answer) = after_exchanges(d, e, (exchanges - 1) as nat);
        lemma_session_is_exact(width, mine, theirs, (exchanges - 1) as nat);
        assert(batch_drains_true(d, e, theirs, (exchanges - 1) as nat));
        if answer == Ok::<Progress, ReconcileError>(Progress::Continue) {
            lemma_exchange(next, serving, mine, theirs);
        }
    }
}

/// Whether an engine is within its symbol budget.
pub open spec fn within_budget(v: RibltView) -> bool {
    match v.role {
        RoleView::Encoder { produced, .. } => produced <= caps::MAX_CODED_SYMBOLS,
        RoleView::Decoder { received, .. } => received <= caps::MAX_CODED_SYMBOLS,
    }
}

/// Neither side ever exceeds its symbol budget, whatever the peer sends; and what
/// an encoder answers holds at least one cell and no more than a frame may carry.
pub proof fn lemma_budget_is_kept(v: RibltView, message: RibltMessageView)
    requires
        within_budget(v),
    ensures
        ({
            let (w, answer) = riblt_engine::answered(v, message);
            &&& within_budget(w)
            &&& v.role is Encoder && answer is Ok ==> {
                &&& w.pending matches Some(RibltMessageView::Symbols { symbols, .. })
                &&& 1 <= symbols.len() <= caps::MAX_SYMBOL_BATCH
            }
        }),
{
}

/// Batches double: each asks for as much as has arrived so far, from the first
/// batch until the frame cap binds.
pub proof fn lemma_batches_double(received: nat)
    ensures
        riblt_engine::next_batch_size(0) == caps::INITIAL_SYMBOL_BATCH,
        caps::INITIAL_SYMBOL_BATCH <= received <= caps::MAX_SYMBOL_BATCH ==> received
            + riblt_engine::next_batch_size(received) == 2 * received,
        caps::INITIAL_SYMBOL_BATCH <= received ==> received + riblt_engine::next_batch_size(
            received,
        ) <= 2 * received,
{
}

} // verus!
