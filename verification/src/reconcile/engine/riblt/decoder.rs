//! The side that solves for the difference: subtract, then peel.
//!
//! All the working state of a session lives here: the encoder is oblivious, so
//! the decoder alone decides when enough has arrived. Each arriving cell is
//! first *subtracted*: the decoder folds its own set into it, which annihilates
//! every symbol both peers hold before any decoding happens. That is where the
//! `O(d)` comes from: the shared majority cancels algebraically, at zero
//! communication cost, however large it is.
//!
//! What remains is a linear system over the difference alone, solved by
//! peeling: a cell holding exactly one symbol (count `±1`, checksum
//! confirming) yields that symbol, which is then XORed out of every other cell
//! it maps into, typically making more cells pure and cascading. When the
//! cascade stalls with cells still unaccounted for, that is not failure: it
//! means the prefix received so far is too short, and more symbols resume it.
//!
//! The cells come off a network, so a peer is free to send cells no encoder
//! would produce. Two rules keep such a stream from being believed.
//! Convergence is "every residual is the identity", not "every queued cell was
//! visited". And a cell that has once been fully explained, or has once been
//! peeled, is retired: it never yields a symbol again, whatever later peels make
//! of it.
use crate::reconcile::engine::riblt::mapping;
use crate::reconcile::engine::riblt::mapping::RandomMapping;
use crate::reconcile::engine::riblt::recovery;
use crate::reconcile::engine::riblt::sketch;
use crate::reconcile::engine::riblt::symbol;
use crate::reconcile::engine::riblt::symbol::{CellView, CodedSymbol, HashedSymbol, ADD, REMOVE};
use crate::reconcile::engine::riblt::window;
use crate::reconcile::engine::riblt::window::CodingWindow;
use crate::reconcile::error::ReconcileError;
use vstd::prelude::*;

verus! {

/// The state of a decoder.
#[verifier::ext_equal]
pub struct DecoderView {
    /// The symbol width.
    pub width: nat,
    /// The local set.
    pub set: Seq<Seq<u8>>,
    /// The cells taken from the peer, as they arrived.
    pub accepted: Seq<CellView>,
    /// What is left to explain of each cell.
    pub cells: Seq<CellView>,
    /// Which cells never yield a symbol again.
    pub retired: Seq<bool>,
    /// Cells found pure and not visited since.
    pub queue: Seq<usize>,
    /// Recovered symbols the peer holds and the local set lacks.
    pub remote: Seq<Seq<u8>>,
    /// Recovered symbols the local set holds and the peer lacks.
    pub local: Seq<Seq<u8>>,
}

/// What is left of the cell at `index` once the local set and everything already
/// recovered is subtracted.
pub open spec fn residual(
    set: Seq<Seq<u8>>,
    remote: Seq<Seq<u8>>,
    local: Seq<Seq<u8>>,
    cell: CellView,
    index: int,
) -> CellView {
    window::folded(
        window::folded(window::folded(cell, set, REMOVE, index), remote, REMOVE, index),
        local,
        ADD,
        index,
    )
}

/// The state before any cell has arrived.
pub open spec fn fresh(width: nat, set: Seq<Seq<u8>>) -> DecoderView {
    DecoderView {
        width,
        set,
        accepted: Seq::empty(),
        cells: Seq::empty(),
        retired: Seq::empty(),
        queue: Seq::empty(),
        remote: Seq::empty(),
        local: Seq::empty(),
    }
}

/// The state after the peer's next cell: its residual is kept, queued if it is
/// pure, and retired if there is nothing in it.
pub open spec fn taken(v: DecoderView, cell: CellView) -> DecoderView {
    let index = v.cells.len() as int;
    let left = residual(v.set, v.remote, v.local, cell, index);
    DecoderView {
        accepted: v.accepted.push(cell),
        cells: v.cells.push(left),
        retired: v.retired.push(symbol::cell_is_empty(left)),
        queue: if symbol::cell_is_pure(left) {
            v.queue.push(index as usize)
        } else {
            v.queue
        },
        ..v
    }
}

/// The direction that takes the symbol of a pure cell out of the sketch.
pub open spec fn removal(count: i64) -> i64 {
    if count == 1 {
        REMOVE
    } else {
        ADD
    }
}

/// The cells after a symbol is taken out of each it is a member of.
pub open spec fn cells_without(
    cells: Seq<CellView>,
    sym: Seq<u8>,
    direction: i64,
) -> Seq<CellView> {
    Seq::new(
        cells.len(),
        |i: int|
            if window::is_member(sym, i) {
                symbol::applied(cells[i], sym, direction)
            } else {
                cells[i]
            },
    )
}

/// Which cells are retired after a symbol is taken out, given the cells that
/// leaves.
pub open spec fn retired_after(
    retired: Seq<bool>,
    cells: Seq<CellView>,
    sym: Seq<u8>,
) -> Seq<bool> {
    Seq::new(
        retired.len(),
        |i: int| retired[i] || (window::is_member(sym, i) && symbol::cell_is_empty(cells[i])),
    )
}

/// The first `n` cells a symbol is a member of that are pure and not retired, in
/// ascending order.
pub open spec fn newly_pure(
    retired: Seq<bool>,
    cells: Seq<CellView>,
    sym: Seq<u8>,
    n: int,
) -> Seq<usize>
    decreases n,
{
    if n <= 0 {
        Seq::empty()
    } else {
        let prior = newly_pure(retired, cells, sym, n - 1);
        if window::is_member(sym, n - 1) && !retired[n - 1] && symbol::cell_is_pure(cells[n - 1]) {
            prior.push((n - 1) as usize)
        } else {
            prior
        }
    }
}

/// The state after the pure cell at `index` yields its symbol: the symbol is
/// taken out of every cell it is a member of, the cell is retired, cells left
/// with nothing are retired, and cells left pure are queued.
pub open spec fn peeled(v: DecoderView, index: int) -> DecoderView {
    let sym = v.cells[index].sum;
    let count = v.cells[index].count;
    let cells = cells_without(v.cells, sym, removal(count));
    let retired = retired_after(v.retired.update(index, true), cells, sym);
    DecoderView {
        cells,
        retired,
        queue: v.queue + newly_pure(retired, cells, sym, cells.len() as int),
        remote: if count == 1 {
            v.remote.push(sym)
        } else {
            v.remote
        },
        local: if count == 1 {
            v.local
        } else {
            v.local.push(sym)
        },
        ..v
    }
}

/// Whether the cell at `index` may yield its symbol.
pub open spec fn peelable(v: DecoderView, index: int) -> bool {
    0 <= index < v.cells.len() && !v.retired[index] && symbol::cell_is_pure(v.cells[index])
}

/// How many cells may still yield a symbol.
pub open spec fn unretired(retired: Seq<bool>) -> nat
    decreases retired.len(),
{
    if retired.len() == 0 {
        0
    } else {
        unretired(retired.drop_last()) + if retired.last() {
            0nat
        } else {
            1nat
        }
    }
}

/// Retiring cells never makes more of them available.
proof fn lemma_unretired_shrinks(a: Seq<bool>, b: Seq<bool>)
    requires
        a.len() == b.len(),
        forall|i: int| 0 <= i < a.len() && #[trigger] a[i] ==> b[i],
    ensures
        unretired(b) <= unretired(a),
        (exists|i: int| 0 <= i < a.len() && !#[trigger] a[i] && b[i]) ==> unretired(b) < unretired(
            a,
        ),
    decreases a.len(),
{
    if a.len() > 0 {
        lemma_unretired_shrinks(a.drop_last(), b.drop_last());
        if exists|i: int| 0 <= i < a.len() && !#[trigger] a[i] && b[i] {
            let i = choose|i: int| 0 <= i < a.len() && !#[trigger] a[i] && b[i];
            if i < a.len() - 1 {
                assert(!a.drop_last()[i] && b.drop_last()[i]);
            }
        }
    }
}

/// Peeling a cell leaves fewer cells that may yield a symbol.
pub proof fn lemma_peel_progresses(v: DecoderView, index: int)
    requires
        v.cells.len() == v.retired.len(),
        peelable(v, index),
    ensures
        unretired(peeled(v, index).retired) < unretired(v.retired),
        peeled(v, index).cells.len() == peeled(v, index).retired.len(),
{
    let after = peeled(v, index).retired;
    assert(!v.retired[index] && after[index]);
    lemma_unretired_shrinks(v.retired, after);
}

/// The state once every queued cell has been visited, first queued first, each
/// yielding its symbol if it still may.
pub open spec fn drained(v: DecoderView) -> DecoderView
    decreases unretired(v.retired), v.queue.len(),
    when v.cells.len() == v.retired.len()
{
    if v.queue.len() == 0 {
        v
    } else {
        let index = v.queue[0] as int;
        let rest = DecoderView { queue: v.queue.skip(1), ..v };
        if peelable(rest, index) {
            proof {
                lemma_peel_progresses(rest, index);
            }
            drained(peeled(rest, index))
        } else {
            drained(rest)
        }
    }
}

/// Whether every cell is accounted for: what remains of it is what it arrived
/// as, less the local set and everything recovered. All cells have the width of
/// the session, and every cell that may yield a symbol is queued.
pub open spec fn accounted(v: DecoderView) -> bool {
    &&& v.accepted.len() == v.cells.len()
    &&& v.retired.len() == v.cells.len()
    &&& v.cells.len() <= usize::MAX
    &&& forall|i: int|
        0 <= i < v.cells.len() ==> sketch::accounts_for(
            v.set,
            v.remote,
            v.local,
            #[trigger] v.accepted[i],
            v.cells[i],
            i,
        )
    &&& forall|i: int| 0 <= i < v.cells.len() ==> (#[trigger] v.cells[i]).sum.len() == v.width
    &&& forall|k: int| 0 <= k < v.queue.len() ==> (#[trigger] v.queue[k]) < v.cells.len()
    &&& forall|i: int| #[trigger] peelable(v, i) ==> v.queue.contains(i as usize)
}

/// Whether every cell received so far is accounted for with nothing remaining.
pub open spec fn decoded(v: DecoderView) -> bool {
    v.cells.len() > 0 && forall|i: int|
        0 <= i < v.cells.len() ==> symbol::cell_is_empty(#[trigger] v.cells[i])
}

/// Taking a cell keeps every cell accounted for.
pub proof fn lemma_taken_accounted(v: DecoderView, cell: CellView)
    requires
        accounted(v),
        cell.sum.len() == v.width,
        v.cells.len() < usize::MAX,
    ensures
        accounted(taken(v, cell)),
{
    let w = taken(v, cell);
    let n = v.cells.len() as int;
    sketch::lemma_residual_accounts(v.set, v.remote, v.local, cell, n);
    sketch::lemma_sum_with_len(cell.sum, v.set, n);
    sketch::lemma_sum_with_len(sketch::sum_with(cell.sum, v.set, n), v.remote, n);
    sketch::lemma_sum_with_len(
        sketch::sum_with(sketch::sum_with(cell.sum, v.set, n), v.remote, n),
        v.local,
        n,
    );
    assert forall|i: int| 0 <= i < w.cells.len() implies sketch::accounts_for(
        w.set,
        w.remote,
        w.local,
        #[trigger] w.accepted[i],
        w.cells[i],
        i,
    ) by {
        if i < n {
            assert(w.accepted[i] == v.accepted[i]);
        }
    }
    assert forall|i: int| #[trigger] peelable(w, i) implies w.queue.contains(i as usize) by {
        if i < n {
            assert(peelable(v, i));
            let k = choose|k: int| 0 <= k < v.queue.len() && v.queue[k] == i as usize;
            assert(w.queue[k] == i as usize);
        } else {
            assert(w.queue[v.queue.len() as int] == i as usize);
        }
    }
}

/// What is newly queued are exactly the pure, unretired members.
proof fn lemma_newly_pure(
    retired: Seq<bool>,
    cells: Seq<CellView>,
    sym: Seq<u8>,
    n: int,
)
    requires
        0 <= n <= cells.len() <= usize::MAX,
    ensures
        forall|k: int|
            0 <= k < newly_pure(retired, cells, sym, n).len() ==> (#[trigger] newly_pure(
                retired,
                cells,
                sym,
                n,
            )[k]) < n,
        forall|i: int|
            0 <= i < n && #[trigger] window::is_member(sym, i) && !retired[i]
                && symbol::cell_is_pure(cells[i]) ==> newly_pure(
                retired,
                cells,
                sym,
                n,
            ).contains(i as usize),
    decreases n,
{
    if n > 0 {
        lemma_newly_pure(retired, cells, sym, n - 1);
        let prior = newly_pure(retired, cells, sym, n - 1);
        let all = newly_pure(retired, cells, sym, n);
        assert forall|i: int|
            0 <= i < n && #[trigger] window::is_member(sym, i) && !retired[i]
                && symbol::cell_is_pure(cells[i]) implies all.contains(i as usize) by {
            if i < n - 1 {
                assert(prior.contains(i as usize));
                let k = choose|k: int| 0 <= k < prior.len() && prior[k] == i as usize;
                assert(all[k] == i as usize);
            } else {
                assert(all[prior.len() as int] == i as usize);
            }
        }
    }
}

/// Peeling the first queued cell keeps every cell accounted for.
pub proof fn lemma_peeled_accounted(v: DecoderView)
    requires
        accounted(v),
        v.queue.len() > 0,
    ensures
        ({
            let index = v.queue[0] as int;
            let rest = DecoderView { queue: v.queue.skip(1), ..v };
            if peelable(rest, index) {
                accounted(peeled(rest, index))
            } else {
                accounted(rest)
            }
        }),
{
    let index = v.queue[0] as int;
    let rest = DecoderView { queue: v.queue.skip(1), ..v };
    assert forall|i: int| #[trigger] peelable(rest, i) && i != index implies rest.queue.contains(
        i as usize,
    ) by {
        assert(peelable(v, i));
        let k = choose|k: int| 0 <= k < v.queue.len() && v.queue[k] == i as usize;
        assert(rest.queue[k - 1] == i as usize);
    }
    assert forall|k: int| 0 <= k < rest.queue.len() implies (#[trigger] rest.queue[k])
        < v.cells.len() by {
        assert(rest.queue[k] == v.queue[k + 1]);
    }
    if peelable(rest, index) {
        let w = peeled(rest, index);
        let sym = v.cells[index].sum;
        let count = v.cells[index].count;
        let fresh_entries = newly_pure(w.retired, w.cells, sym, w.cells.len() as int);
        lemma_newly_pure(w.retired, w.cells, sym, w.cells.len() as int);
        assert forall|i: int| 0 <= i < w.cells.len() implies sketch::accounts_for(
            w.set,
            w.remote,
            w.local,
            #[trigger] w.accepted[i],
            w.cells[i],
            i,
        ) by {
            assert(sketch::accounts_for(v.set, v.remote, v.local, v.accepted[i], v.cells[i], i));
            sketch::lemma_recovery_accounts(
                v.set,
                v.remote,
                v.local,
                v.accepted[i],
                v.cells[i],
                i,
                sym,
                count == 1,
            );
        }
        assert forall|k: int| 0 <= k < w.queue.len() implies (#[trigger] w.queue[k])
            < w.cells.len() by {
            if k < rest.queue.len() {
                assert(w.queue[k] == rest.queue[k]);
            } else {
                assert(w.queue[k] == fresh_entries[k - rest.queue.len()]);
            }
        }
        assert forall|i: int| #[trigger] peelable(w, i) implies w.queue.contains(i as usize) by {
            assert(w.retired[index]);
            if window::is_member(sym, i) {
                assert(fresh_entries.contains(i as usize));
                let k = choose|k: int|
                    0 <= k < fresh_entries.len() && fresh_entries[k] == i as usize;
                assert(w.queue[rest.queue.len() + k] == i as usize);
            } else {
                assert(peelable(rest, i));
                let k = choose|k: int| 0 <= k < rest.queue.len() && rest.queue[k] == i as usize;
                assert(w.queue[k] == i as usize);
            }
        }
    } else {
        assert forall|i: int| 0 <= i < rest.cells.len() implies sketch::accounts_for(
            rest.set,
            rest.remote,
            rest.local,
            #[trigger] rest.accepted[i],
            rest.cells[i],
            i,
        ) by {
            assert(sketch::accounts_for(v.set, v.remote, v.local, v.accepted[i], v.cells[i], i));
        }
    }
}

/// Draining the queue keeps every cell accounted for, and leaves no cell that
/// may still yield a symbol: the cascade runs until it stalls.
pub proof fn lemma_drained_accounted(v: DecoderView)
    requires
        accounted(v),
    ensures
        accounted(drained(v)),
        drained(v).queue.len() == 0,
        forall|i: int| !#[trigger] peelable(drained(v), i),
        drained(v).accepted == v.accepted,
        drained(v).set == v.set,
        drained(v).width == v.width,
    decreases unretired(v.retired), v.queue.len(),
{
    if v.queue.len() > 0 {
        lemma_peeled_accounted(v);
        let index = v.queue[0] as int;
        let rest = DecoderView { queue: v.queue.skip(1), ..v };
        if peelable(rest, index) {
            lemma_peel_progresses(rest, index);
            lemma_drained_accounted(peeled(rest, index));
        } else {
            lemma_drained_accounted(rest);
        }
    }
}

/// A decoder that has converged has explained every cell it accepted: with the
/// local set and the recovered need taken out of a cell and the recovered have
/// put back, nothing is left of it.
pub proof fn lemma_convergence_explains(v: DecoderView, index: int)
    requires
        accounted(v),
        decoded(v),
        v.set.len() + v.remote.len() + v.local.len() < i64::MAX,
        0 <= index < v.accepted.len(),
    ensures
        sketch::explains(v.set, v.remote, v.local, v.accepted[index], index),
{
    assert(sketch::accounts_for(
        v.set,
        v.remote,
        v.local,
        v.accepted[index],
        v.cells[index],
        index,
    ));
    sketch::lemma_empty_is_explained(
        v.set,
        v.remote,
        v.local,
        v.accepted[index],
        v.cells[index],
        index,
    );
}

/// Recovers the symmetric difference between the local set and a peer's.
pub struct Decoder {
    width: usize,
    cells: Vec<CodedSymbol>,
    retired: Vec<bool>,
    window: CodingWindow,
    remote: CodingWindow,
    local: CodingWindow,
    decodable: Vec<usize>,
    accepted: Ghost<Seq<CellView>>,
}

/// The cells a run of coded symbols denotes.
pub open spec fn cell_views(cells: Seq<CodedSymbol>) -> Seq<CellView> {
    cells.map_values(|c: CodedSymbol| c@)
}

/// Cells are viewed one for one, in their order.
pub proof fn lemma_cells_one_for_one(cells: Seq<CodedSymbol>)
    ensures
        cell_views(cells).len() == cells.len(),
        forall|i: int| 0 <= i < cells.len() ==> #[trigger] cell_views(cells)[i] == cells[i]@,
{
}

/// A decoder has converged exactly if it has taken a cell and every part of what is
/// left of every cell is zero.
pub proof fn lemma_decoded_is_all_zero(v: DecoderView)
    ensures
        decoded(v) <==> {
            &&& v.cells.len() >= 1
            &&& forall|i: int|
                0 <= i < v.cells.len() ==> (#[trigger] v.cells[i]) == (CellView {
                    sum: Seq::new(v.cells[i].sum.len(), |k: int| 0u8),
                    checksum: 0,
                    count: 0,
                })
        },
{
    assert forall|i: int| 0 <= i < v.cells.len() implies (symbol::cell_is_empty(v.cells[i])
        <==> (#[trigger] v.cells[i]) == (CellView {
        sum: Seq::new(v.cells[i].sum.len(), |k: int| 0u8),
        checksum: 0,
        count: 0,
    })) by {
        symbol::lemma_cell_readings(v.cells[i]);
        let zeros = CellView {
            sum: Seq::new(v.cells[i].sum.len(), |k: int| 0u8),
            checksum: 0,
            count: 0,
        };
        if symbol::cell_is_empty(v.cells[i]) {
            assert(v.cells[i].sum =~= zeros.sum);
        }
    }
}

/// A cell that arrives with nothing left in it is retired at once and never queued, and
/// one that reads as one symbol is queued.
pub proof fn lemma_arrivals_are_sorted(v: DecoderView, cell: CellView)
    requires
        v.retired.len() == v.cells.len(),
        v.cells.len() < usize::MAX,
    ensures
        ({
            let w = taken(v, cell);
            let n = v.cells.len() as int;
            let left = w.cells[n];
            &&& w.cells.len() == n + 1
            &&& w.retired.len() == n + 1
            &&& forall|i: int|
                0 <= i < n ==> w.cells[i] == v.cells[i] && w.retired[i] == v.retired[i]
            &&& w.retired[n] <==> symbol::cell_is_empty(left)
            &&& w.queue == if symbol::cell_is_pure(left) {
                v.queue.push(n as usize)
            } else {
                v.queue
            }
            &&& w.remote == v.remote && w.local == v.local && w.set == v.set
            &&& w.accepted == v.accepted.push(cell)
        }),
{
}

/// Peeling a cell recovers its sum, for the peer's side if its count is one and for the
/// local side if it is minus one, retires it, and retires every cell that leaves
/// nothing in.
pub proof fn lemma_peel_recovers_the_sum(v: DecoderView, index: int)
    requires
        v.retired.len() == v.cells.len(),
        peelable(v, index),
    ensures
        ({
            let w = peeled(v, index);
            let sym = v.cells[index].sum;
            &&& w.retired.len() == v.retired.len()
            &&& w.retired[index]
            &&& v.cells[index].count == 1 ==> w.remote == v.remote.push(sym) && w.local == v.local
            &&& v.cells[index].count == -1 ==> w.local == v.local.push(sym) && w.remote == v.remote
            &&& forall|i: int| 0 <= i < v.retired.len() && v.retired[i] ==> w.retired[i]
            &&& forall|i: int|
                0 <= i < v.cells.len() && window::is_member(sym, i) && symbol::cell_is_empty(
                    #[trigger] w.cells[i],
                ) ==> w.retired[i]
            &&& forall|i: int|
                0 <= i < v.cells.len() && !window::is_member(sym, i) ==> (
                #[trigger] w.cells[i]) == v.cells[i]
            &&& forall|i: int|
                0 <= i < v.cells.len() && window::is_member(sym, i) ==> (#[trigger] w.cells[i]).sum
                    == symbol::xor_bytes(v.cells[i].sum, sym)
            &&& w.set == v.set && w.accepted == v.accepted && w.width == v.width
        }),
{
}

/// Peeling a cell queues every cell it leaves with one symbol in it, behind what is
/// queued already.
pub proof fn lemma_freed_cells_are_queued(v: DecoderView, index: int)
    requires
        v.retired.len() == v.cells.len(),
        v.cells.len() <= usize::MAX,
        peelable(v, index),
    ensures
        ({
            let w = peeled(v, index);
            &&& v.queue.is_prefix_of(w.queue)
            &&& forall|i: int|
                0 <= i < w.cells.len() && window::is_member(v.cells[index].sum, i) && !w.retired[i]
                    && symbol::cell_is_pure(#[trigger] w.cells[i]) ==> w.queue.contains(i as usize)
        }),
{
    let w = peeled(v, index);
    let sym = v.cells[index].sum;
    let freed = newly_pure(w.retired, w.cells, sym, w.cells.len() as int);
    lemma_newly_pure(w.retired, w.cells, sym, w.cells.len() as int);
    assert(v.queue.is_prefix_of(v.queue + freed));
    assert forall|i: int|
        0 <= i < w.cells.len() && window::is_member(sym, i) && !w.retired[i]
            && symbol::cell_is_pure(#[trigger] w.cells[i]) implies w.queue.contains(i as usize) by {
        let k = choose|k: int| 0 <= k < freed.len() && freed[k] == i as usize;
        assert(freed.contains(i as usize));
        assert(w.queue[v.queue.len() + k] == i as usize);
    }
}

/// Whatever cells a peer sends, each yields at most one symbol, ever: what draining
/// recovers is no more than the cells that could still yield one, those it retires stay
/// retired, and what was recovered before stays recovered.
pub proof fn lemma_each_cell_yields_once(v: DecoderView)
    requires
        v.retired.len() == v.cells.len(),
    ensures
        ({
            let w = drained(v);
            &&& w.retired.len() == v.retired.len()
            &&& v.remote.is_prefix_of(w.remote)
            &&& v.local.is_prefix_of(w.local)
            &&& w.remote.len() + w.local.len() + unretired(w.retired) <= v.remote.len()
                + v.local.len() + unretired(v.retired)
            &&& forall|i: int| 0 <= i < v.retired.len() && v.retired[i] ==> w.retired[i]
        }),
    decreases unretired(v.retired), v.queue.len(),
{
    if v.queue.len() > 0 {
        let index = v.queue[0] as int;
        let rest = DecoderView { queue: v.queue.skip(1), ..v };
        if peelable(rest, index) {
            lemma_peel_progresses(rest, index);
            lemma_each_cell_yields_once(peeled(rest, index));
        } else {
            lemma_each_cell_yields_once(rest);
        }
    }
}

impl View for Decoder {
    type V = DecoderView;

    closed spec fn view(&self) -> DecoderView {
        DecoderView {
            width: self.width as nat,
            set: self.window.symbols(),
            accepted: self.accepted@,
            cells: cell_views(self.cells@),
            retired: self.retired@,
            queue: self.decodable@,
            remote: self.remote.symbols(),
            local: self.local.symbols(),
        }
    }
}

impl Decoder {
    /// Whether the three windows stand where the next cell arrives.
    pub closed spec fn windows_ready(&self) -> bool {
        &&& self.window.wf()
        &&& self.remote.wf()
        &&& self.local.wf()
        &&& self.window.position() == self.cells@.len()
        &&& self.remote.position() == self.cells@.len()
        &&& self.local.position() == self.cells@.len()
    }

    /// Whether the decoder is well formed: every cell is accounted for, everything
    /// recovered was yielded by one, and the windows stand where the next cell
    /// arrives.
    pub open spec fn wf(&self) -> bool {
        self.windows_ready() && accounted(self@) && recovery::traced(self@)
    }

    /// A decoder over an empty local set of `width`-byte symbols.
    pub fn new(width: usize) -> (decoder: Self)
        ensures
            decoder.wf(),
            decoder@ == fresh(width as nat, Seq::empty()),
    {
        let decoder = Decoder {
            width,
            cells: Vec::new(),
            retired: Vec::new(),
            window: CodingWindow::new(),
            remote: CodingWindow::new(),
            local: CodingWindow::new(),
            decodable: Vec::new(),
            accepted: Ghost(Seq::empty()),
        };
        proof {
            assert(decoder@ =~= fresh(width as nat, Seq::empty()));
            recovery::lemma_nothing_recovered(decoder@);
        }
        decoder
    }

    /// Adds one local source symbol. All must be added before the first
    /// [`Self::add_coded_symbol`].
    pub fn add(&mut self, symbol: Vec<u8>)
        requires
            old(self).wf(),
            old(self)@.cells.len() == 0,
        ensures
            final(self).wf(),
            final(self)@ == (DecoderView { set: old(self)@.set.push(symbol@), ..old(self)@ }),
    {
        self.window.add(HashedSymbol::new(symbol));
        assert(self@ =~= DecoderView { set: old(self)@.set.push(symbol@), ..old(self)@ });
        assert forall|i: int| #[trigger] peelable(self@, i) implies self@.queue.contains(
            i as usize,
        ) by {
            assert(peelable(old(self)@, i));
        }
        proof {
            recovery::lemma_added_traced(old(self)@, symbol@);
        }
    }

    /// Takes the next cell of the peer's stream, subtracting the local set and
    /// everything already peeled out of it.
    pub fn add_coded_symbol(&mut self, cell: CodedSymbol) -> (r: Result<(), ReconcileError>)
        requires
            old(self).wf(),
            old(self)@.cells.len() < usize::MAX,
        ensures
            final(self).wf(),
            match r {
                Ok(_) => cell@.sum.len() == old(self)@.width && final(self)@ == taken(
                    old(self)@,
                    cell@,
                ),
                Err(error) => {
                    &&& cell@.sum.len() != old(self)@.width
                    &&& final(self)@ == old(self)@
                    &&& error == (ReconcileError::SymbolWidthMismatch {
                        found: cell@.sum.len() as usize,
                        expected: old(self)@.width as usize,
                    })
                },
            },
    {
        let found: usize = cell.sum().len();
        if found != self.width {
            return Err(ReconcileError::SymbolWidthMismatch { found, expected: self.width });
        }
        let ghost given = cell@;
        let mut residual = cell;
        self.window.apply(&mut residual, REMOVE);
        self.remote.apply(&mut residual, REMOVE);
        self.local.apply(&mut residual, ADD);

        let explained: bool = residual.is_empty();
        if residual.is_pure() {
            self.decodable.push(self.cells.len());
        }
        self.cells.push(residual);
        self.retired.push(explained);
        proof {
            self.accepted@ = self.accepted@.push(given);
            assert(self@ =~= taken(old(self)@, given));
            lemma_taken_accounted(old(self)@, given);
            recovery::lemma_taken_traced(old(self)@, given);
            assert(self.cells@.len() == self.cells.len());
        }
        Ok(())
    }

    /// Peels every cell that has become pure, cascading until it stalls.
    pub fn try_decode(&mut self)
        requires
            old(self).wf(),
        ensures
            final(self).wf(),
            final(self)@ == drained(old(self)@),
    {
        let mut next: usize = 0;
        let ghost start = self@;
        proof {
            recovery::lemma_drained_traced(start);
        }
        assert(start.queue.skip(0) =~= start.queue);
        assert(start =~= DecoderView { queue: start.queue.skip(0), ..start });
        while next < self.decodable.len()
            invariant
                next <= self.decodable@.len(),
                self.windows_ready(),
                accounted(DecoderView { queue: self@.queue.skip(next as int), ..self@ }),
                drained(DecoderView { queue: self@.queue.skip(next as int), ..self@ }) == drained(
                    start,
                ),
            decreases unretired(self@.retired), self.decodable@.len() - next,
        {
            let ghost before = DecoderView { queue: self@.queue.skip(next as int), ..self@ };
            let index: usize = self.decodable[next];
            next = next + 1;
            let ghost rest = DecoderView { queue: self@.queue.skip(next as int), ..self@ };
            proof {
                assert(before.queue[0] == index);
                assert(before.queue.skip(1) =~= rest.queue);
                lemma_peeled_accounted(before);
                assert(rest =~= DecoderView { queue: before.queue.skip(1), ..before });
            }
            if self.retired[index] || !self.cells[index].is_pure() {
                continue;
            }
            proof {
                assert(peelable(rest, index as int));
                lemma_peel_progresses(rest, index as int);
            }
            let count: i64 = self.cells[index].count();
            let symbol = HashedSymbol::new(
                crate::reconcile::bytes::bytes_copy(self.cells[index].sum()),
            );
            let direction: i64 = if count == 1 {
                REMOVE
            } else {
                ADD
            };
            self.retired.set(index, true);
            let ghost marked = self@;
            let mapping = self.peel(&symbol, direction);
            let ghost sym = symbol@;
            if count == 1 {
                self.remote.add_with_mapping(symbol, mapping);
            } else {
                self.local.add_with_mapping(symbol, mapping);
            }
            proof {
                let now = DecoderView { queue: self@.queue.skip(next as int), ..self@ };
                let want = peeled(rest, index as int);
                let found = newly_pure(want.retired, want.cells, sym, want.cells.len() as int);
                assert(self@.queue.skip(next as int) =~= marked.queue.skip(next as int) + found);
                assert(now.cells =~= want.cells);
                assert(now.retired =~= want.retired);
                assert(now =~= want);
            }
        }
        let ghost last = DecoderView { queue: self@.queue.skip(next as int), ..self@ };
        self.decodable.clear();
        assert(self@ =~= last);
    }

    /// Whether every cell received so far is accounted for, which is the
    /// session's signal to stop reading.
    pub fn is_decoded(&self) -> (r: bool)
        ensures
            r == decoded(self@),
    {
        let mut i: usize = 0;
        while i < self.cells.len()
            invariant
                i <= self.cells@.len(),
                forall|j: int| 0 <= j < i ==> symbol::cell_is_empty(#[trigger] self@.cells[j]),
            decreases self.cells.len() - i,
        {
            if !self.cells[i].is_empty() {
                assert(!symbol::cell_is_empty(self@.cells[i as int]));
                return false;
            }
            i = i + 1;
        }
        self.cells.len() > 0
    }

    /// Symbols the peer holds and the local set lacks.
    pub fn remote(&self) -> (symbols: Vec<&[u8]>)
        ensures
            symbols@.map_values(|s: &[u8]| s@) == self@.remote,
    {
        self.remote.raw_symbols()
    }

    /// Symbols the local set holds and the peer lacks.
    pub fn local(&self) -> (symbols: Vec<&[u8]>)
        ensures
            symbols@.map_values(|s: &[u8]| s@) == self@.local,
    {
        self.local.raw_symbols()
    }

    /// XORs a recovered symbol out of every cell it maps into, queueing any
    /// that became pure, and returns its mapping positioned past those cells so
    /// later arrivals are corrected too.
    fn peel(&mut self, symbol: &HashedSymbol, direction: i64) -> (mapping: RandomMapping)
        requires
            old(self).retired@.len() == old(self).cells@.len(),
            old(self).cells@.len() <= usize::MAX,
        ensures
            mapping::tracks(
                mapping.prng(),
                mapping.last(),
                symbol::checksum_of(symbol@),
                old(self).cells@.len() as int,
            ),
            final(self).width == old(self).width,
            final(self).window == old(self).window,
            final(self).remote == old(self).remote,
            final(self).local == old(self).local,
            final(self).accepted == old(self).accepted,
            final(self)@.cells == cells_without(old(self)@.cells, symbol@, direction),
            final(self)@.retired == retired_after(
                old(self)@.retired,
                final(self)@.cells,
                symbol@,
            ),
            final(self)@.queue == old(self)@.queue + newly_pure(
                final(self)@.retired,
                final(self)@.cells,
                symbol@,
                final(self)@.cells.len() as int,
            ),
    {
        let ghost sym = symbol@;
        let ghost hash = symbol::checksum_of(sym);
        let ghost before = self@;
        let ghost cells = cells_without(before.cells, sym, direction);
        let ghost retired = retired_after(before.retired, cells, sym);
        let ghost mut done: int = 0;
        let mut mapping = RandomMapping::new(symbol.hash());
        proof {
            mapping::lemma_tracks_from_start(hash);
            assert(before.queue + newly_pure(retired, cells, sym, 0) =~= before.queue);
        }
        while mapping.index() < self.cells.len() as u64
            invariant
                sym == symbol@,
                hash == symbol::checksum_of(sym),
                before == old(self)@,
                cells == cells_without(before.cells, sym, direction),
                retired == retired_after(before.retired, cells, sym),
                self.width == old(self).width,
                self.window == old(self).window,
                self.remote == old(self).remote,
                self.local == old(self).local,
                self.accepted == old(self).accepted,
                self.cells@.len() == before.cells.len(),
                self.cells@.len() <= usize::MAX,
                self.retired@.len() == before.cells.len(),
                before.retired.len() == before.cells.len(),
                0 <= done <= self.cells@.len(),
                mapping::tracks(mapping.prng(), mapping.last(), hash, done),
                forall|p: int| 0 <= p < done ==> (#[trigger] self.cells@[p])@ == cells[p],
                forall|p: int|
                    done <= p < self.cells@.len() ==> (#[trigger] self.cells@[p])@
                        == before.cells[p],
                forall|p: int| 0 <= p < done ==> #[trigger] self.retired@[p] == retired[p],
                forall|p: int|
                    done <= p < self.cells@.len() ==> #[trigger] self.retired@[p]
                        == before.retired[p],
                self.decodable@ == before.queue + newly_pure(retired, cells, sym, done),
            decreases self.cells@.len() - done,
        {
            let index: usize = mapping.index() as usize;
            proof {
                lemma_skipped(mapping, hash, sym, done, index as int);
                lemma_newly_pure_skips(retired, cells, sym, done, index as int);
                mapping::lemma_tracks_at(mapping.prng(), mapping.last(), hash, done, index as int);
                mapping::lemma_tracks_advanced(
                    mapping.prng(),
                    mapping.last(),
                    hash,
                    index as int,
                );
                assert(self.cells@[index as int]@ == before.cells[index as int]);
                assert(self.retired@[index as int] == before.retired[index as int]);
                assert forall|p: int| done <= p < index implies cells[p] == before.cells[p]
                    && retired[p] == before.retired[p] by {
                    assert(!window::is_member(sym, p));
                }
            }
            self.cells[index].apply(symbol, direction);
            let explained: bool = self.cells[index].is_empty();
            if explained {
                self.retired.set(index, true);
            }
            if !self.retired[index] && self.cells[index].is_pure() {
                self.decodable.push(index);
            }
            mapping.next_index();
            proof {
                assert(window::is_member(sym, index as int));
                assert(self.cells@[index as int]@ == cells[index as int]);
                assert(self.retired@[index as int] == retired[index as int]);
                done = index + 1;
                assert(self.decodable@ =~= before.queue + newly_pure(retired, cells, sym, done));
            }
        }
        proof {
            lemma_skipped(mapping, hash, sym, done, self.cells@.len() as int);
            lemma_newly_pure_skips(retired, cells, sym, done, self.cells@.len() as int);
            assert forall|p: int| done <= p < self.cells@.len() implies cells[p] == before.cells[p]
                && retired[p] == before.retired[p] by {
                assert(!window::is_member(sym, p));
            }
            assert(self@.cells =~= cells);
            assert(self@.retired =~= retired);
            mapping::lemma_tracks_at(
                mapping.prng(),
                mapping.last(),
                hash,
                done,
                self.cells@.len() as int,
            );
        }
        mapping
    }
}

/// A sequence is not a member of the cells it steps over.
proof fn lemma_skipped(mapping: RandomMapping, hash: u64, sym: Seq<u8>, from: int, to: int)
    requires
        hash == symbol::checksum_of(sym),
        mapping::tracks(mapping.prng(), mapping.last(), hash, from),
        to <= mapping.last(),
    ensures
        forall|p: int| from <= p < to ==> !#[trigger] window::is_member(sym, p),
{
    assert forall|p: int| from <= p < to implies !#[trigger] window::is_member(sym, p) by {
        assert(!mapping::reaches(mapping.prng(), mapping.last(), p));
    }
}

/// Cells a symbol is not a member of queue nothing.
proof fn lemma_newly_pure_skips(
    retired: Seq<bool>,
    cells: Seq<CellView>,
    sym: Seq<u8>,
    from: int,
    to: int,
)
    requires
        0 <= from,
        forall|p: int| from <= p < to ==> !#[trigger] window::is_member(sym, p),
    ensures
        from <= to ==> newly_pure(retired, cells, sym, from) == newly_pure(
            retired,
            cells,
            sym,
            to,
        ),
    decreases to - from,
{
    if from < to {
        lemma_newly_pure_skips(retired, cells, sym, from, to - 1);
        assert(!window::is_member(sym, to - 1));
    }
}

} // verus!
