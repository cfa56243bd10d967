//! What an honest stream is sure to yield.
//!
//! Peeling is complete: a cell at which one symbol is missing yields it, and a cell
//! at which none is missing reads as nothing. So a decoder with nothing left to
//! recover has converged, and one that goes on asking still lacks something.
use crate::reconcile::engine::riblt::caps;
use crate::reconcile::engine::riblt::decoder;
use crate::reconcile::engine::riblt::decoder::DecoderView;
use crate::reconcile::engine::riblt::encoder;
use crate::reconcile::engine::riblt::engine as riblt_engine;
use crate::reconcile::engine::riblt::engine::RibltView;
use crate::reconcile::engine::riblt::exchange;
use crate::reconcile::engine::riblt::laws;
use crate::reconcile::engine::riblt::mapping;
use crate::reconcile::engine::riblt::sketch;
use crate::reconcile::engine::riblt::symbol;
use crate::reconcile::engine::riblt::symbol::{CellView, ADD, REMOVE};
use crate::reconcile::engine::riblt::window;
use crate::reconcile::engine::Progress;
use crate::reconcile::error::ReconcileError;
use crate::reconcile::lists;
use vstd::prelude::*;

verus! {

/// Whether every cell counts exactly the members the peer's set has there, less those
/// of the local set and of what was recovered from the peer, and with those recovered
/// of the local set put back.
pub open spec fn counts_exactly(v: DecoderView, theirs: Seq<Seq<u8>>) -> bool {
    forall|i: int|
        0 <= i < v.cells.len() ==> (#[trigger] v.cells[i]).count == sketch::members(theirs, i)
            - sketch::members(v.set, i) - sketch::members(v.remote, i) + sketch::members(
            v.local,
            i,
        )
}

/// What is still to be recovered, on either side.
pub open spec fn outstanding(v: DecoderView, theirs: Seq<Seq<u8>>) -> Seq<Seq<u8>> {
    laws::missing_remote(v, theirs) + laws::missing_local(v, theirs)
}

/// A fold short of the limits of an `i64` counts its members exactly.
proof fn lemma_fold_counts(cell: CellView, symbols: Seq<Seq<u8>>, direction: i64, index: int)
    requires
        direction == 1 || direction == -1,
        i64::MIN + symbols.len() < cell.count < i64::MAX - symbols.len(),
    ensures
        window::folded(cell, symbols, direction, index).count == cell.count + if direction == 1 {
            sketch::members(symbols, index) as int
        } else {
            -sketch::members(symbols, index)
        },
    decreases symbols.len(),
{
    if symbols.len() > 0 {
        lemma_fold_counts(cell, symbols.drop_last(), direction, index);
        sketch::lemma_members_bound(symbols.drop_last(), index);
    }
}

/// What was recovered is no more than there is.
proof fn lemma_recovered_bounds(v: DecoderView, theirs: Seq<Seq<u8>>, index: int)
    requires
        laws::reconcilable(v.width, v.set, theirs),
        laws::truthful(v, theirs),
    ensures
        v.remote.len() <= theirs.len(),
        v.local.len() <= v.set.len(),
        sketch::members(theirs, index) <= theirs.len(),
        sketch::members(v.set, index) <= v.set.len(),
        sketch::members(v.remote, index) <= theirs.len(),
        sketch::members(v.local, index) <= v.set.len(),
{
    lists::lemma_sublist_len(v.remote, theirs);
    lists::lemma_sublist_len(v.local, v.set);
    sketch::lemma_members_bound(theirs, index);
    sketch::lemma_members_bound(v.set, index);
    sketch::lemma_members_bound(v.remote, index);
    sketch::lemma_members_bound(v.local, index);
}

/// Taking the cell an honest encoder streams next keeps every count exact.
proof fn lemma_cell_counts(v: DecoderView, theirs: Seq<Seq<u8>>)
    requires
        laws::reconcilable(v.width, v.set, theirs),
        laws::truthful(v, theirs),
        counts_exactly(v, theirs),
    ensures
        counts_exactly(
            decoder::taken(v, encoder::stream_cell(v.width, theirs, v.cells.len() as int)),
            theirs,
        ),
{
    let n = v.cells.len() as int;
    let cell = encoder::stream_cell(v.width, theirs, n);
    let next = decoder::taken(v, cell);
    lemma_recovered_bounds(v, theirs, n);
    lemma_fold_counts(symbol::zero_cell(v.width), theirs, ADD, n);
    let a = window::folded(cell, v.set, REMOVE, n);
    let b = window::folded(a, v.remote, REMOVE, n);
    lemma_fold_counts(cell, v.set, REMOVE, n);
    lemma_fold_counts(a, v.remote, REMOVE, n);
    lemma_fold_counts(b, v.local, ADD, n);
    assert forall|i: int| 0 <= i < next.cells.len() implies (#[trigger] next.cells[i]).count
        == sketch::members(theirs, i) - sketch::members(next.set, i) - sketch::members(
        next.remote,
        i,
    ) + sketch::members(next.local, i) by {
        if i < n {
            assert(next.cells[i] == v.cells[i]);
        }
    }
}

/// Taking a whole batch of honest cells keeps every count exact, recovers nothing, and
/// retires the cells there is nothing in and no others.
proof fn lemma_batch_counts(v: DecoderView, theirs: Seq<Seq<u8>>, count: nat)
    requires
        decoder::accounted(v),
        laws::honest(v, theirs),
        laws::reconcilable(v.width, v.set, theirs),
        laws::truthful(v, theirs),
        counts_exactly(v, theirs),
        v.cells.len() + count <= usize::MAX,
    ensures
        ({
            let batch = riblt_engine::stream_batch(v.width, theirs, v.cells.len(), count);
            let next = riblt_engine::took(v, batch).0;
            &&& counts_exactly(next, theirs)
            &&& next.remote == v.remote
            &&& next.local == v.local
            &&& next.set == v.set
            &&& next.width == v.width
            &&& next.cells.len() == v.cells.len() + count
            &&& next.retired.len() == v.retired.len() + count
            &&& forall|i: int|
                0 <= i < v.cells.len() ==> next.cells[i] == v.cells[i] && next.retired[i]
                    == v.retired[i]
            &&& forall|i: int|
                v.cells.len() <= i < next.cells.len() ==> next.retired[i] == symbol::cell_is_empty(
                    next.cells[i],
                )
        }),
    decreases count,
{
    let batch = riblt_engine::stream_batch(v.width, theirs, v.cells.len(), count);
    laws::lemma_honest_batch_keeps_truth(v, theirs, count);
    if count > 0 {
        let cell = encoder::stream_cell(v.width, theirs, v.cells.len() as int);
        let next = decoder::taken(v, cell);
        assert(batch[0] == cell);
        laws::lemma_honest_cell_keeps_truth(v, theirs);
        lemma_cell_counts(v, theirs);
        sketch::lemma_folded_parts(symbol::zero_cell(v.width), theirs, ADD, v.cells.len() as int);
        sketch::lemma_sum_with_len(
            symbol::zero_cell(v.width).sum,
            theirs,
            v.cells.len() as int,
        );
        assert(batch.skip(1) =~= riblt_engine::stream_batch(
            v.width,
            theirs,
            next.cells.len(),
            (count - 1) as nat,
        ));
        lemma_batch_counts(next, theirs, (count - 1) as nat);
    }
}

/// Peeling keeps every count exact.
proof fn lemma_peel_counts(v: DecoderView, theirs: Seq<Seq<u8>>, index: int)
    requires
        decoder::accounted(v),
        laws::honest(v, theirs),
        laws::reconcilable(v.width, v.set, theirs),
        laws::truthful(v, theirs),
        laws::reads_true(v, theirs, index),
        counts_exactly(v, theirs),
        decoder::peelable(v, index),
    ensures
        counts_exactly(decoder::peeled(v, index), theirs),
{
    let next = decoder::peeled(v, index);
    let sym = v.cells[index].sum;
    assert forall|i: int| 0 <= i < next.cells.len() implies (#[trigger] next.cells[i]).count
        == sketch::members(theirs, i) - sketch::members(next.set, i) - sketch::members(
        next.remote,
        i,
    ) + sketch::members(next.local, i) by {
        lemma_recovered_bounds(v, theirs, i);
        assert(v.remote.push(sym).drop_last() =~= v.remote);
        assert(v.local.push(sym).drop_last() =~= v.local);
        assert(v.cells[i].count == sketch::members(theirs, i) - sketch::members(v.set, i)
            - sketch::members(v.remote, i) + sketch::members(v.local, i));
    }
}

/// Draining keeps every count exact.
pub proof fn lemma_drain_counts(v: DecoderView, theirs: Seq<Seq<u8>>)
    requires
        decoder::accounted(v),
        laws::honest(v, theirs),
        laws::reconcilable(v.width, v.set, theirs),
        laws::truthful(v, theirs),
        laws::drains_true(v, theirs),
        counts_exactly(v, theirs),
    ensures
        counts_exactly(decoder::drained(v), theirs),
    decreases decoder::unretired(v.retired), v.queue.len(),
{
    if v.queue.len() > 0 {
        decoder::lemma_peeled_accounted(v);
        let index = v.queue[0] as int;
        let rest = DecoderView { queue: v.queue.skip(1), ..v };
        assert(laws::honest(rest, theirs));
        assert(counts_exactly(rest, theirs));
        if decoder::peelable(rest, index) {
            laws::lemma_pure_is_true(v, theirs, index);
            decoder::lemma_peel_progresses(rest, index);
            let next = decoder::peeled(rest, index);
            lists::lemma_push(v.remote, v.cells[index].sum);
            lists::lemma_push(v.local, v.cells[index].sum);
            lemma_peel_counts(v, theirs, index);
            assert(counts_exactly(next, theirs)) by {
                let other = decoder::peeled(v, index);
                assert forall|i: int| 0 <= i < next.cells.len() implies (
                #[trigger] next.cells[i]).count == sketch::members(theirs, i) - sketch::members(
                    next.set,
                    i,
                ) - sketch::members(next.remote, i) + sketch::members(next.local, i) by {
                    assert(next.cells[i] == other.cells[i]);
                }
            }
            lemma_drain_counts(next, theirs);
        } else {
            lemma_drain_counts(rest, theirs);
        }
    }
}

/// What a cell of an honest stream holds where one symbol is missing: that symbol,
/// its checksum, and one either way for the side it is on. So it reads as one symbol,
/// and unless the cell is retired it is peeled.
pub proof fn lemma_lone_member_is_peelable(v: DecoderView, theirs: Seq<Seq<u8>>, index: int)
    requires
        decoder::accounted(v),
        laws::honest(v, theirs),
        laws::reconcilable(v.width, v.set, theirs),
        laws::truthful(v, theirs),
        counts_exactly(v, theirs),
        v.width > 0,
        0 <= index < v.cells.len(),
        laws::missing_at(v, theirs, index).len() == 1,
    ensures
        ({
            let lone = laws::missing_at(v, theirs, index)[0];
            &&& v.cells[index].sum == lone
            &&& v.cells[index].checksum == symbol::checksum_of(lone)
            &&& v.cells[index].count == if theirs.contains(lone) {
                1int
            } else {
                -1int
            }
            &&& !v.retired[index] ==> decoder::peelable(v, index)
            &&& !symbol::cell_is_empty(v.cells[index])
        }),
{
    let z = symbol::zero_cell(v.width).sum;
    let more = laws::missing_remote(v, theirs);
    let less = laws::missing_local(v, theirs);
    let part = laws::missing_at(v, theirs, index);
    laws::lemma_honest_residual(v, theirs, index);
    laws::lemma_members_in_full(more + less, z, 0, index);
    laws::lemma_missing_is_drawn(v, theirs, index);
    laws::lemma_net_count(more, less, theirs, index);
    let x = part[0];
    assert(part =~= seq![x]);
    assert(part.contains(x));
    assert(part.drop_last() =~= Seq::<Seq<u8>>::empty());
    mapping::lemma_every_symbol_starts_at_zero(symbol::checksum_of(x));
    assert(sketch::sum_with(z, part, 0) == symbol::xor_bytes(z, x)) by {
        assert(sketch::sum_with(z, part.drop_last(), 0) == z);
    }
    assert(sketch::checksum_with(0, part, 0) == 0 ^ symbol::checksum_of(x)) by {
        assert(sketch::checksum_with(0, part.drop_last(), 0) == 0);
    }
    sketch::lemma_xor_u64(symbol::checksum_of(x), 0, 0);
    assert(x.len() == v.width);
    assert(symbol::xor_bytes(z, x) =~= x) by {
        assert forall|i: int| 0 <= i < x.len() implies symbol::xor_bytes(z, x)[i] == x[i] by {
            sketch::lemma_xor_u8(x[i], 0, 0);
        }
    }
    assert(laws::net_count(part, theirs) == if theirs.contains(x) {
        1int
    } else {
        -1int
    }) by {
        assert(laws::net_count(part.drop_last(), theirs) == 0);
    }
    symbol::lemma_cell_readings(v.cells[index]);
    let n = v.cells[index].count as int;
    assert(n * n == 1) by (nonlinear_arith)
        requires
            n == 1 || n == -1,
    ;
}

/// What a cell of an honest stream holds where nothing is missing: nothing.
pub proof fn lemma_nothing_missing_is_empty(v: DecoderView, theirs: Seq<Seq<u8>>, index: int)
    requires
        decoder::accounted(v),
        laws::honest(v, theirs),
        laws::reconcilable(v.width, v.set, theirs),
        laws::truthful(v, theirs),
        counts_exactly(v, theirs),
        0 <= index < v.cells.len(),
        laws::missing_at(v, theirs, index).len() == 0,
    ensures
        symbol::cell_is_empty(v.cells[index]),
        !decoder::peelable(v, index),
{
    let z = symbol::zero_cell(v.width).sum;
    let more = laws::missing_remote(v, theirs);
    let less = laws::missing_local(v, theirs);
    let part = laws::missing_at(v, theirs, index);
    laws::lemma_honest_residual(v, theirs, index);
    laws::lemma_members_in_full(more + less, z, 0, index);
    laws::lemma_missing_is_drawn(v, theirs, index);
    laws::lemma_net_count(more, less, theirs, index);
    assert(part =~= Seq::<Seq<u8>>::empty());
    assert(sketch::sum_with(z, part, 0) == z);
    symbol::lemma_cell_readings(v.cells[index]);
    assert(v.cells[index] =~= CellView {
        sum: Seq::new(v.cells[index].sum.len(), |i: int| 0u8),
        checksum: 0,
        count: 0,
    });
}

/// A decoder that has drained its queue has no cell left, of those that may still
/// yield a symbol, at which exactly one is missing.
pub proof fn lemma_stalled_cells_lack_several(v: DecoderView, theirs: Seq<Seq<u8>>, index: int)
    requires
        decoder::accounted(v),
        laws::honest(v, theirs),
        laws::reconcilable(v.width, v.set, theirs),
        laws::truthful(v, theirs),
        laws::drains_true(v, theirs),
        counts_exactly(v, theirs),
        v.width > 0,
        0 <= index < v.cells.len(),
        !decoder::drained(v).retired[index],
    ensures
        laws::missing_at(decoder::drained(v), theirs, index).len() != 1,
{
    let settled = decoder::drained(v);
    decoder::lemma_drained_accounted(v);
    laws::lemma_honest_peels_are_true(v, theirs);
    lemma_drain_counts(v, theirs);
    if laws::missing_at(settled, theirs, index).len() == 1 {
        lemma_lone_member_is_peelable(settled, theirs, index);
    }
}

/// Everything outstanding maps into the first cell, and into any other cell no more of
/// it does.
proof fn lemma_outstanding_at(v: DecoderView, theirs: Seq<Seq<u8>>, index: int)
    ensures
        laws::missing_at(v, theirs, 0) == outstanding(v, theirs),
        laws::missing_at(v, theirs, index).len() <= outstanding(v, theirs).len(),
{
    let all = outstanding(v, theirs);
    lists::lemma_filter(all, |x: Seq<u8>| window::is_member(x, index));
    lemma_all_kept(all, |x: Seq<u8>| window::is_member(x, 0));
}

/// Filtering keeps a list as it is if it keeps all of it.
proof fn lemma_all_kept(s: Seq<Seq<u8>>, keep: spec_fn(Seq<u8>) -> bool)
    requires
        keep == |x: Seq<u8>| window::is_member(x, 0),
    ensures
        s.filter(keep) == s,
    decreases s.len(),
{
    reveal(Seq::filter);
    if s.len() > 0 {
        lemma_all_kept(s.drop_last(), keep);
        mapping::lemma_every_symbol_starts_at_zero(symbol::checksum_of(s.last()));
        assert(s.drop_last().push(s.last()) =~= s);
    } else {
        assert(s.filter(keep) =~= s);
    }
}

/// A decoder of an honest stream with nothing outstanding has converged, whatever its
/// cells: nothing is left in any of them.
pub proof fn lemma_nothing_outstanding_is_decoded(v: DecoderView, theirs: Seq<Seq<u8>>)
    requires
        decoder::accounted(v),
        laws::honest(v, theirs),
        laws::reconcilable(v.width, v.set, theirs),
        laws::truthful(v, theirs),
        counts_exactly(v, theirs),
        v.cells.len() > 0,
        outstanding(v, theirs).len() == 0,
    ensures
        decoder::decoded(v),
{
    assert forall|i: int| 0 <= i < v.cells.len() implies symbol::cell_is_empty(
        #[trigger] v.cells[i],
    ) by {
        lemma_outstanding_at(v, theirs, i);
        lemma_nothing_missing_is_empty(v, theirs, i);
    }
}

/// Nothing is outstanding exactly if both sides of the difference are recovered.
pub proof fn lemma_outstanding_is_the_rest(v: DecoderView, theirs: Seq<Seq<u8>>)
    requires
        laws::reconcilable(v.width, v.set, theirs),
        laws::truthful(v, theirs),
    ensures
        outstanding(v, theirs).no_duplicates(),
        forall|x: Seq<u8>| #[trigger]
            outstanding(v, theirs).contains(x) <==> {
                ||| theirs.contains(x) && !v.set.contains(x) && !v.remote.contains(x)
                ||| v.set.contains(x) && !theirs.contains(x) && !v.local.contains(x)
            },
{
    let more = laws::missing_remote(v, theirs);
    let less = laws::missing_local(v, theirs);
    let all = outstanding(v, theirs);
    laws::lemma_missing_is_drawn(v, theirs, 0);
    lemma_outstanding_at(v, theirs, 0);
    assert forall|x: Seq<u8>| more.contains(x) || less.contains(x) implies all.contains(x) by {
        if more.contains(x) {
            let k = choose|k: int| 0 <= k < more.len() && more[k] == x;
            assert(all[k] == x);
        } else {
            let k = choose|k: int| 0 <= k < less.len() && less[k] == x;
            assert(all[more.len() + k] == x);
        }
    }
}

/// With at most one symbol outstanding nothing reads false, and draining either leaves
/// the state as it was or leaves nothing outstanding.
proof fn lemma_few_drain_true(v: DecoderView, theirs: Seq<Seq<u8>>)
    requires
        decoder::accounted(v),
        laws::honest(v, theirs),
        laws::reconcilable(v.width, v.set, theirs),
        laws::truthful(v, theirs),
        outstanding(v, theirs).len() <= 1,
    ensures
        laws::drains_true(v, theirs),
        outstanding(decoder::drained(v), theirs).len() == 0 || decoder::drained(v) == (
        DecoderView { queue: Seq::empty(), ..v }),
    decreases decoder::unretired(v.retired), v.queue.len(),
{
    assert forall|index: int| laws::reads_true(v, theirs, index) by {
        lemma_few_read_true(v, theirs, index);
    }
    if v.queue.len() > 0 {
        decoder::lemma_peeled_accounted(v);
        let index = v.queue[0] as int;
        let rest = DecoderView { queue: v.queue.skip(1), ..v };
        assert(laws::honest(rest, theirs));
        if decoder::peelable(rest, index) {
            laws::lemma_pure_is_true(v, theirs, index);
            decoder::lemma_peel_progresses(rest, index);
            let next = decoder::peeled(rest, index);
            let x = v.cells[index].sum;
            lists::lemma_push(v.remote, x);
            lists::lemma_push(v.local, x);
            lemma_outstanding_is_the_rest(v, theirs);
            lemma_outstanding_is_the_rest(next, theirs);
            assert(outstanding(v, theirs).contains(x));
            if outstanding(next, theirs).len() > 0 {
                let y = outstanding(next, theirs)[0];
                assert(outstanding(next, theirs).contains(y));
                assert(outstanding(v, theirs).contains(y));
                assert(y != x);
                let i = choose|i: int|
                    0 <= i < outstanding(v, theirs).len() && outstanding(v, theirs)[i] == x;
                let j = choose|j: int|
                    0 <= j < outstanding(v, theirs).len() && outstanding(v, theirs)[j] == y;
                assert(false);
            }
            lemma_few_drain_true(next, theirs);
            let settled = decoder::drained(next);
            assert(outstanding(DecoderView { queue: Seq::empty(), ..next }, theirs)
                == outstanding(next, theirs));
        } else {
            lemma_few_drain_true(rest, theirs);
        }
    } else {
        assert(v.queue =~= Seq::<usize>::empty());
    }
}

/// With at most one symbol outstanding every cell reads true.
proof fn lemma_few_read_true(v: DecoderView, theirs: Seq<Seq<u8>>, index: int)
    requires
        outstanding(v, theirs).len() <= 1,
    ensures
        laws::reads_true(v, theirs, index),
{
    let part = laws::missing_at(v, theirs, index);
    lemma_outstanding_at(v, theirs, index);
    if part.len() == 1 {
        assert(part.drop_last() =~= Seq::<Seq<u8>>::empty());
        assert(laws::net_count(part.drop_last(), theirs) == 0);
    } else {
        assert(part =~= Seq::<Seq<u8>>::empty());
        assert(laws::net_count(part, theirs) == 0);
    }
}

/// Whether what was recovered is the whole difference: everything the peer's set alone
/// has, and everything the local set alone has.
pub open spec fn lacks_nothing(
    mine: Seq<Seq<u8>>,
    theirs: Seq<Seq<u8>>,
    remote: Seq<Seq<u8>>,
    local: Seq<Seq<u8>>,
) -> bool {
    &&& forall|x: Seq<u8>| #[trigger]
        theirs.contains(x) && !mine.contains(x) ==> remote.contains(x)
    &&& forall|x: Seq<u8>| #[trigger]
        mine.contains(x) && !theirs.contains(x) ==> local.contains(x)
}

/// A decoder of an honest stream has converged exactly if it lacks nothing.
pub proof fn lemma_decoded_lacks_nothing(v: DecoderView, theirs: Seq<Seq<u8>>)
    requires
        decoder::accounted(v),
        laws::honest(v, theirs),
        laws::reconcilable(v.width, v.set, theirs),
        laws::truthful(v, theirs),
        laws::reads_true(v, theirs, 0),
        counts_exactly(v, theirs),
        v.cells.len() > 0,
    ensures
        decoder::decoded(v) <==> lacks_nothing(v.set, theirs, v.remote, v.local),
{
    let left = outstanding(v, theirs);
    lemma_outstanding_is_the_rest(v, theirs);
    if decoder::decoded(v) {
        laws::lemma_honest_convergence_is_exact(v, theirs);
    }
    if lacks_nothing(v.set, theirs, v.remote, v.local) {
        if left.len() > 0 {
            assert(left.contains(left[0]));
        }
        lemma_nothing_outstanding_is_decoded(v, theirs);
    }
}

/// An exchange converges exactly if it leaves nothing outstanding: a decoder that has
/// recovered the whole difference never asks for more, and one that asks for more
/// lacks something.
pub proof fn lemma_exchange_converges_when_done(
    d: RibltView,
    e: RibltView,
    mine: Seq<Seq<u8>>,
    theirs: Seq<Seq<u8>>,
)
    requires
        exchange::paired(d, e, mine, theirs),
        laws::reconcilable(d.width, mine, theirs),
        laws::drains_true(exchange::taken_in(d, e), theirs),
        counts_exactly(d.role->state, theirs),
        e.role->produced < caps::MAX_CODED_SYMBOLS,
    ensures
        ({
            let (next, serving, answer) = exchange::exchanged(d, e);
            &&& next.role is Decoder
            &&& counts_exactly(next.role->state, theirs)
            &&& laws::truthful(next.role->state, theirs)
            &&& next.role->state.set == mine
            &&& answer == Ok::<Progress, ReconcileError>(
                if lacks_nothing(mine, theirs, next.role->state.remote, next.role->state.local) {
                    Progress::Converged
                } else {
                    Progress::Continue
                },
            )
        }),
{
    let state = d.role->state;
    let produced = e.role->produced;
    let wanted = d.pending->Some_0->Request_symbols;
    let asking = RibltView { pending: None, ..d };
    let (next, serving, answer) = exchange::exchanged(d, e);
    assert(riblt_engine::adopted(e, d.width as u16) == Ok::<RibltView, ReconcileError>(e));
    assert(riblt_engine::adopted(asking, d.width as u16) == Ok::<RibltView, ReconcileError>(
        asking,
    ));
    let count = riblt_engine::granted(wanted, (caps::MAX_CODED_SYMBOLS - produced) as nat);
    let batch = riblt_engine::stream_batch(d.width, theirs, state.cells.len(), count);
    let filled = riblt_engine::took(state, batch).0;
    assert(exchange::taken_in(d, e) == filled);
    exchange::lemma_exchange(d, e, mine, theirs);
    laws::lemma_honest_batch_keeps_truth(state, theirs, count);
    lemma_batch_counts(state, theirs, count);
    decoder::lemma_drained_accounted(filled);
    laws::lemma_honest_peels_are_true(filled, theirs);
    lemma_drain_counts(filled, theirs);
    let settled = decoder::drained(filled);
    assert((next, answer) == riblt_engine::solved(asking, d.width as u16, batch));
    assert(settled.cells.len() == settled.accepted.len());
    lemma_decoded_lacks_nothing(settled, theirs);
}

/// A session that goes on asking, after however many exchanges, still lacks some symbol
/// that exactly one of the two sets has.
pub proof fn lemma_asking_means_lacking(
    width: nat,
    mine: Seq<Seq<u8>>,
    theirs: Seq<Seq<u8>>,
    exchanges: nat,
)
    requires
        width <= caps::MAX_SYMBOL_BYTES,
        laws::reconcilable(width, mine, theirs),
        forall|k: nat|
            k < exchanges ==> #[trigger] exchange::batch_drains_true(
                exchange::decoding(width, mine),
                exchange::encoding(width, theirs),
                theirs,
                k,
            ),
    ensures
        ({
            let (next, serving, answer) = exchange::after_exchanges(
                exchange::decoding(width, mine),
                exchange::encoding(width, theirs),
                exchanges,
            );
            answer == Ok::<Progress, ReconcileError>(Progress::Continue) ==> {
                &&& next.role is Decoder
                &&& counts_exactly(next.role->state, theirs)
                &&& exchanges > 0 ==> !lacks_nothing(
                    mine,
                    theirs,
                    next.role->state.remote,
                    next.role->state.local,
                )
            }
        }),
    decreases exchanges,
{
    let d = exchange::decoding(width, mine);
    let e = exchange::encoding(width, theirs);
    if exchanges > 0 {
        let before = (exchanges - 1) as nat;
        let (next, serving, answer) = exchange::after_exchanges(d, e, before);
        lemma_asking_means_lacking(width, mine, theirs, before);
        exchange::lemma_session_is_exact(width, mine, theirs, before);
        assert(exchange::batch_drains_true(d, e, theirs, before));
        if answer == Ok::<Progress, ReconcileError>(Progress::Continue) {
            if serving.role->produced < caps::MAX_CODED_SYMBOLS {
                lemma_exchange_converges_when_done(next, serving, mine, theirs);
            } else {
                exchange::lemma_exchange(next, serving, mine, theirs);
                assert(riblt_engine::adopted(serving, next.width as u16) == Ok::<
                    RibltView,
                    ReconcileError,
                >(serving));
            }
        }
    }
}

/// Two sets that differ in at most one symbol are reconciled by the first batch,
/// whatever they share and whatever the symbol is: the decoder converges on exactly
/// the difference.
pub proof fn lemma_one_difference_takes_one_batch(
    width: nat,
    mine: Seq<Seq<u8>>,
    theirs: Seq<Seq<u8>>,
)
    requires
        0 < width <= caps::MAX_SYMBOL_BYTES,
        laws::reconcilable(width, mine, theirs),
        forall|x: Seq<u8>, y: Seq<u8>|
            (#[trigger] mine.contains(x) != theirs.contains(x)) && (#[trigger] mine.contains(y)
                != theirs.contains(y)) ==> x == y,
    ensures
        ({
            let (next, serving, answer) = exchange::exchanged(
                exchange::decoding(width, mine),
                exchange::encoding(width, theirs),
            );
            &&& answer matches Ok(progress) && progress is Converged
            &&& next.diff.need.no_duplicates()
            &&& next.diff.have.no_duplicates()
            &&& forall|x: Seq<u8>| #[trigger]
                next.diff.need.contains(x) <==> theirs.contains(x) && !mine.contains(x)
            &&& forall|x: Seq<u8>| #[trigger]
                next.diff.have.contains(x) <==> mine.contains(x) && !theirs.contains(x)
        }),
{
    let d = exchange::decoding(width, mine);
    let e = exchange::encoding(width, theirs);
    let state = decoder::fresh(width, mine);
    laws::lemma_fresh_is_true(width, mine, theirs);
    let count = riblt_engine::granted(
        caps::INITIAL_SYMBOL_BATCH as u32,
        caps::MAX_CODED_SYMBOLS as nat,
    );
    let batch = riblt_engine::stream_batch(width, theirs, 0, count);
    let filled = riblt_engine::took(state, batch).0;
    assert(riblt_engine::adopted(e, width as u16) == Ok::<RibltView, ReconcileError>(e));
    assert(exchange::taken_in(d, e) == filled);
    laws::lemma_honest_batch_keeps_truth(state, theirs, count);
    lemma_batch_counts(state, theirs, count);
    lemma_outstanding_is_the_rest(filled, theirs);
    let left = outstanding(filled, theirs);
    assert(left.len() <= 1) by {
        if left.len() > 1 {
            assert(left.contains(left[0]) && left.contains(left[1]));
            assert(mine.contains(left[0]) != theirs.contains(left[0]));
            assert(mine.contains(left[1]) != theirs.contains(left[1]));
        }
    }
    lemma_few_drain_true(filled, theirs);
    exchange::lemma_exchange(d, e, mine, theirs);
    lemma_exchange_converges_when_done(d, e, mine, theirs);
    let settled = decoder::drained(filled);
    decoder::lemma_drained_accounted(filled);
    laws::lemma_honest_peels_are_true(filled, theirs);
    lemma_drain_counts(filled, theirs);
    if outstanding(settled, theirs).len() != 0 {
        assert(settled.cells == filled.cells && settled.retired == filled.retired);
        assert(outstanding(settled, theirs) == left);
        lemma_outstanding_at(settled, theirs, 0);
        lemma_lone_member_is_peelable(settled, theirs, 0);
        assert(!settled.retired[0]);
        assert(decoder::peelable(settled, 0));
    }
    lemma_nothing_outstanding_is_decoded(settled, theirs);
}

} // verus!
