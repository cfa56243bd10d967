//! What a decoder may recover from cells no honest encoder produces.
//!
//! Every symbol a decoder recovers was all that was left of some cell at the
//! time. Followed through to convergence, where nothing is left of any cell, that
//! leaves no room for recovering a symbol twice, on one side or on both, unless
//! what was left of a cell folded to a symbol by chance.
use crate::reconcile::engine::riblt::decoder;
use crate::reconcile::engine::riblt::decoder::DecoderView;
use crate::reconcile::engine::riblt::laws;
use crate::reconcile::engine::riblt::sketch;
use crate::reconcile::engine::riblt::symbol;
use crate::reconcile::engine::riblt::symbol::CellView;
use crate::reconcile::engine::riblt::window;
use crate::reconcile::lists;
use vstd::prelude::*;

verus! {

/// Whether a cell, less the local set and what was recovered before, reads as a
/// symbol.
pub open spec fn yields(
    v: DecoderView,
    index: int,
    before: Seq<Seq<u8>>,
    sym: Seq<u8>,
) -> bool {
    let given = v.accepted[index];
    &&& 0 <= index < v.accepted.len()
    &&& sketch::sum_with(sketch::sum_with(given.sum, v.set, index), before, index) == sym
    &&& sketch::checksum_with(sketch::checksum_with(given.checksum, v.set, index), before, index)
        == symbol::checksum_of(sym)
}

/// Whether everything recovered, in the order of `symbols`, was yielded by the
/// cells at `origins`.
pub open spec fn traced_by(v: DecoderView, symbols: Seq<Seq<u8>>, origins: Seq<int>) -> bool {
    &&& symbols.len() == origins.len()
    &&& symbols.to_multiset() == (v.remote + v.local).to_multiset()
    &&& forall|k: int|
        0 <= k < symbols.len() ==> #[trigger] yields(v, origins[k], symbols.take(k), symbols[k])
}

/// Whether everything recovered was yielded by a cell, one after another.
pub open spec fn traced(v: DecoderView) -> bool {
    exists|symbols: Seq<Seq<u8>>, origins: Seq<int>| traced_by(v, symbols, origins)
}

/// A decoder that has recovered nothing is traced.
pub proof fn lemma_nothing_recovered(v: DecoderView)
    requires
        v.remote.len() == 0,
        v.local.len() == 0,
    ensures
        traced(v),
{
    let none = Seq::<Seq<u8>>::empty();
    assert(v.remote + v.local =~= none);
    assert(traced_by(v, none, Seq::<int>::empty()));
}

/// Adding a local symbol before any cell has arrived recovers nothing.
pub proof fn lemma_added_traced(v: DecoderView, sym: Seq<u8>)
    requires
        v.accepted.len() == 0,
        traced(v),
    ensures
        traced(DecoderView { set: v.set.push(sym), ..v }),
{
    let (symbols, origins) = choose|symbols: Seq<Seq<u8>>, origins: Seq<int>|
        traced_by(v, symbols, origins);
    if symbols.len() > 0 {
        assert(yields(v, origins[0], symbols.take(0), symbols[0]));
    }
    assert(traced_by(DecoderView { set: v.set.push(sym), ..v }, symbols, origins));
}

/// Taking a cell recovers nothing.
pub proof fn lemma_taken_traced(v: DecoderView, cell: CellView)
    requires
        traced(v),
    ensures
        traced(decoder::taken(v, cell)),
{
    let (symbols, origins) = choose|symbols: Seq<Seq<u8>>, origins: Seq<int>|
        traced_by(v, symbols, origins);
    let w = decoder::taken(v, cell);
    assert forall|k: int| 0 <= k < symbols.len() implies #[trigger] yields(
        w,
        origins[k],
        symbols.take(k),
        symbols[k],
    ) by {
        assert(yields(v, origins[k], symbols.take(k), symbols[k]));
    }
    assert(traced_by(w, symbols, origins));
}

/// What is left of a cell does not depend on the order of what was recovered.
proof fn lemma_left_of(v: DecoderView, symbols: Seq<Seq<u8>>, index: int)
    requires
        decoder::accounted(v),
        symbols.to_multiset() == (v.remote + v.local).to_multiset(),
        0 <= index < v.cells.len(),
    ensures
        ({
            let given = v.accepted[index];
            let sum = sketch::sum_with(given.sum, v.set, index);
            let checksum = sketch::checksum_with(given.checksum, v.set, index);
            &&& v.cells[index].sum == sketch::sum_with(sum, symbols, index)
            &&& v.cells[index].checksum == sketch::checksum_with(checksum, symbols, index)
        }),
{
    let given = v.accepted[index];
    let sum = sketch::sum_with(given.sum, v.set, index);
    let checksum = sketch::checksum_with(given.checksum, v.set, index);
    assert(sketch::accounts_for(v.set, v.remote, v.local, given, v.cells[index], index));
    laws::lemma_concat(sum, checksum, v.remote, v.local, index);
    laws::lemma_rearranged(sum, checksum, symbols, v.remote + v.local, index);
}

/// The first queued cell yields what it is peeled for.
proof fn lemma_peeled_traced(v: DecoderView)
    requires
        decoder::accounted(v),
        traced(v),
        v.queue.len() > 0,
        decoder::peelable(v, v.queue[0] as int),
    ensures
        traced(
            decoder::peeled(DecoderView { queue: v.queue.skip(1), ..v }, v.queue[0] as int),
        ),
{
    broadcast use vstd::seq_lib::group_to_multiset_ensures;

    let index = v.queue[0] as int;
    let (symbols, origins) = choose|symbols: Seq<Seq<u8>>, origins: Seq<int>|
        traced_by(v, symbols, origins);
    let w = decoder::peeled(DecoderView { queue: v.queue.skip(1), ..v }, index);
    let sym = v.cells[index].sum;
    let more = symbols.push(sym);
    let from = origins.push(index);
    lemma_left_of(v, symbols, index);
    assert forall|k: int| 0 <= k < more.len() implies #[trigger] yields(
        w,
        from[k],
        more.take(k),
        more[k],
    ) by {
        if k < symbols.len() {
            assert(yields(v, origins[k], symbols.take(k), symbols[k]));
            assert(more.take(k) =~= symbols.take(k));
        } else {
            assert(more.take(k) =~= symbols);
        }
    }
    assert(more.to_multiset() =~= (w.remote + w.local).to_multiset()) by {
        vstd::seq_lib::lemma_multiset_commutative(v.remote, v.local);
        vstd::seq_lib::lemma_multiset_commutative(w.remote, w.local);
    }
    assert(traced_by(w, more, from));
}

/// Draining the queue recovers only what cells yield.
pub proof fn lemma_drained_traced(v: DecoderView)
    requires
        decoder::accounted(v),
        traced(v),
    ensures
        traced(decoder::drained(v)),
    decreases decoder::unretired(v.retired), v.queue.len(),
{
    if v.queue.len() > 0 {
        decoder::lemma_peeled_accounted(v);
        let index = v.queue[0] as int;
        let rest = DecoderView { queue: v.queue.skip(1), ..v };
        if decoder::peelable(rest, index) {
            decoder::lemma_peel_progresses(rest, index);
            lemma_peeled_traced(v);
            lemma_drained_traced(decoder::peeled(rest, index));
        } else {
            let (symbols, origins) = choose|symbols: Seq<Seq<u8>>, origins: Seq<int>|
                traced_by(v, symbols, origins);
            assert forall|k: int| 0 <= k < symbols.len() implies #[trigger] yields(
                rest,
                origins[k],
                symbols.take(k),
                symbols[k],
            ) by {
                assert(yields(v, origins[k], symbols.take(k), symbols[k]));
            }
            assert(traced_by(rest, symbols, origins));
            lemma_drained_traced(rest);
        }
    }
}

/// Whether a list of symbols of one width folds to a symbol.
pub open spec fn folds_to(width: nat, part: Seq<Seq<u8>>, sym: Seq<u8>) -> bool {
    &&& sketch::sum_with(symbol::zero_cell(width).sum, part, 0) == sym
    &&& sketch::checksum_with(0, part, 0) == symbol::checksum_of(sym)
}

/// What is recovered from some point on and maps into the cell that yielded the
/// symbol there.
pub open spec fn left_at(symbols: Seq<Seq<u8>>, origins: Seq<int>, k: int) -> Seq<Seq<u8>> {
    symbols.skip(k).filter(|x: Seq<u8>| window::is_member(x, origins[k]))
}

/// Whether what is left at each cell of a trace folds to the symbol it yielded only
/// where that symbol is there, an odd number of times. The checksum makes each cell
/// that breaks this by chance a `2^-64` event.
pub open spec fn unambiguous(width: nat, symbols: Seq<Seq<u8>>, origins: Seq<int>) -> bool {
    forall|k: int|
        0 <= k < symbols.len() && folds_to(width, #[trigger] left_at(symbols, origins, k), symbols[k])
            ==> left_at(symbols, origins, k).to_multiset().count(symbols[k]) % 2 == 1
}

/// Filtering a list keeps every copy of what it keeps.
proof fn lemma_filter_count(s: Seq<Seq<u8>>, keep: spec_fn(Seq<u8>) -> bool, x: Seq<u8>)
    ensures
        s.filter(keep).to_multiset().count(x) == if keep(x) {
            s.to_multiset().count(x)
        } else {
            0
        },
    decreases s.len(),
{
    broadcast use vstd::seq_lib::group_to_multiset_ensures;

    reveal(Seq::filter);
    if s.len() > 0 {
        lemma_filter_count(s.drop_last(), keep, x);
        assert(s =~= s.drop_last().push(s.last()));
    } else {
        assert(s.filter(keep) =~= s);
    }
}

/// What a cell yielded, it yielded an odd number of times from there on.
proof fn lemma_yields_oddly(v: DecoderView, symbols: Seq<Seq<u8>>, origins: Seq<int>, k: int)
    requires
        decoder::accounted(v),
        decoder::decoded(v),
        traced_by(v, symbols, origins),
        unambiguous(v.width, symbols, origins),
        0 <= k < symbols.len(),
    ensures
        symbols.skip(k).to_multiset().count(symbols[k]) % 2 == 1,
{
    broadcast use vstd::seq_lib::group_to_multiset_ensures;

    let index = origins[k];
    let sym = symbols[k];
    let given = v.accepted[index];
    let rest = symbols.skip(k);
    let zeros = symbol::zero_cell(v.width).sum;
    let keep = |x: Seq<u8>| window::is_member(x, index);
    let part = rest.filter(keep);
    let sum = sketch::sum_with(given.sum, v.set, index);
    let checksum = sketch::checksum_with(given.checksum, v.set, index);
    assert(yields(v, origins[k], symbols.take(k), symbols[k]));
    lemma_left_of(v, symbols, index);
    assert(v.cells[index].sum =~= zeros) by {
        assert(symbol::cell_is_empty(v.cells[index]));
        assert(v.cells[index].sum.len() == v.width);
    }
    assert(symbol::cell_is_empty(v.cells[index]));
    laws::lemma_concat(sum, checksum, symbols.take(k), rest, index);
    assert(symbols.take(k) + rest =~= symbols);
    laws::lemma_cancels(sym, symbol::checksum_of(sym), rest, index);
    laws::lemma_members_in_full(rest, zeros, 0, index);
    assert(folds_to(v.width, part, sym));
    assert(part == left_at(symbols, origins, k));
    lemma_filter_count(rest, keep, sym);
}

/// Nothing is recovered again from some point on.
proof fn lemma_recovered_once(v: DecoderView, symbols: Seq<Seq<u8>>, origins: Seq<int>, k: int)
    requires
        decoder::accounted(v),
        decoder::decoded(v),
        traced_by(v, symbols, origins),
        unambiguous(v.width, symbols, origins),
        0 <= k <= symbols.len(),
    ensures
        symbols.skip(k).no_duplicates(),
    decreases symbols.len() - k,
{
    broadcast use vstd::seq_lib::group_to_multiset_ensures;

    if k < symbols.len() {
        let rest = symbols.skip(k + 1);
        let sym = symbols[k];
        let now = symbols.skip(k);
        lemma_recovered_once(v, symbols, origins, k + 1);
        lemma_yields_oddly(v, symbols, origins, k);
        lists::lemma_count(rest, sym);
        assert(now.remove(0) =~= rest);
        assert(now[0] == sym);
        assert(now.to_multiset().count(sym) == rest.to_multiset().count(sym) + 1);
        assert forall|i: int, j: int| 0 <= i < j < now.len() implies now[i] != now[j] by {
            assert(now[j] == rest[j - 1]);
            if i == 0 {
                assert(rest.contains(rest[j - 1]));
            } else {
                assert(now[i] == rest[i - 1]);
            }
        }
    }
}

/// A decoder that has converged, whatever it was sent, has recovered no symbol
/// twice and none as both needed and held, unless what was left at some cell it
/// peeled folded to a symbol by chance.
pub proof fn lemma_recovered_lists_are_disjoint(
    v: DecoderView,
    symbols: Seq<Seq<u8>>,
    origins: Seq<int>,
)
    requires
        decoder::accounted(v),
        decoder::decoded(v),
        traced_by(v, symbols, origins),
        unambiguous(v.width, symbols, origins),
    ensures
        v.remote.no_duplicates(),
        v.local.no_duplicates(),
        forall|x: Seq<u8>| !(#[trigger] v.remote.contains(x) && v.local.contains(x)),
{
    let all = v.remote + v.local;
    lemma_recovered_once(v, symbols, origins, 0);
    assert(symbols.skip(0) =~= symbols);
    symbols.lemma_multiset_has_no_duplicates();
    all.lemma_multiset_has_no_duplicates_conv();
    assert forall|i: int, j: int| 0 <= i < j < v.remote.len() implies v.remote[i] != v.remote[j] by {
        assert(all[i] == v.remote[i] && all[j] == v.remote[j]);
    }
    assert forall|i: int, j: int| 0 <= i < j < v.local.len() implies v.local[i] != v.local[j] by {
        let n = v.remote.len();
        assert(all[n + i] == v.local[i] && all[n + j] == v.local[j]);
    }
    assert forall|x: Seq<u8>| !(#[trigger] v.remote.contains(x) && v.local.contains(x)) by {
        if v.remote.contains(x) && v.local.contains(x) {
            let i = choose|i: int| 0 <= i < v.remote.len() && v.remote[i] == x;
            let j = choose|j: int| 0 <= j < v.local.len() && v.local[j] == x;
            assert(all[i] == x && all[v.remote.len() + j] == x);
        }
    }
}

} // verus!
