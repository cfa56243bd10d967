//! What holds of a rateless session as a whole.
use crate::reconcile::bytes;
use crate::reconcile::engine::riblt::decoder;
use crate::reconcile::engine::riblt::decoder::DecoderView;
use crate::reconcile::engine::riblt::caps;
use crate::reconcile::engine::riblt::encoder;
use crate::reconcile::engine::riblt::engine;
use crate::reconcile::engine::riblt::engine::{RibltView, RoleView};
use crate::reconcile::engine::riblt::mapping;
use crate::reconcile::engine::riblt::sketch;
use crate::reconcile::engine::riblt::symbol;
use crate::reconcile::engine::riblt::symbol::{CellView, ADD, REMOVE};
use crate::reconcile::engine::riblt::window;
use crate::reconcile::engine::{DiffView, Progress};
use crate::reconcile::hash;
use crate::reconcile::lists;
use vstd::prelude::*;

verus! {

/// Taking one symbol out of a list takes its contribution out of every fold.
proof fn lemma_extract(sum: Seq<u8>, checksum: u64, s: Seq<Seq<u8>>, k: int, index: int)
    requires
        0 <= k < s.len(),
    ensures
        sketch::sum_with(sum, s, index) == if window::is_member(s[k], index) {
            symbol::xor_bytes(sketch::sum_with(sum, s.remove(k), index), s[k])
        } else {
            sketch::sum_with(sum, s.remove(k), index)
        },
        sketch::checksum_with(checksum, s, index) == if window::is_member(s[k], index) {
            sketch::checksum_with(checksum, s.remove(k), index) ^ symbol::checksum_of(s[k])
        } else {
            sketch::checksum_with(checksum, s.remove(k), index)
        },
        sketch::members(s, index) == sketch::members(s.remove(k), index) + if window::is_member(
            s[k],
            index,
        ) {
            1nat
        } else {
            0nat
        },
    decreases s.len(),
{
    if k == s.len() - 1 {
        assert(s.remove(k) =~= s.drop_last());
    } else {
        let rest = s.drop_last();
        lemma_extract(sum, checksum, rest, k, index);
        assert(s.remove(k).drop_last() =~= rest.remove(k));
        assert(s.remove(k).last() == s.last());
        sketch::lemma_xor_bytes_swap(
            sketch::sum_with(sum, rest.remove(k), index),
            s[k],
            s.last(),
        );
        sketch::lemma_xor_u64(
            sketch::checksum_with(checksum, rest.remove(k), index),
            symbol::checksum_of(s[k]),
            symbol::checksum_of(s.last()),
        );
    }
}

/// A fold does not depend on the order of the symbols.
pub proof fn lemma_rearranged(
    sum: Seq<u8>,
    checksum: u64,
    a: Seq<Seq<u8>>,
    b: Seq<Seq<u8>>,
    index: int,
)
    requires
        a.to_multiset() == b.to_multiset(),
    ensures
        sketch::sum_with(sum, a, index) == sketch::sum_with(sum, b, index),
        sketch::checksum_with(checksum, a, index) == sketch::checksum_with(checksum, b, index),
        sketch::members(a, index) == sketch::members(b, index),
    decreases a.len(),
{
    broadcast use vstd::seq_lib::group_to_multiset_ensures;

    vstd::seq_lib::to_multiset_len(a);
    vstd::seq_lib::to_multiset_len(b);
    if a.len() > 0 {
        let x = a.last();
        assert(a.contains(a[a.len() - 1]));
        assert(b.to_multiset().contains(x));
        assert(b.contains(x));
        let k = choose|k: int| 0 <= k < b.len() && b[k] == x;
        assert(a.drop_last() =~= a.remove(a.len() - 1));
        assert(a.drop_last().to_multiset() =~= b.remove(k).to_multiset());
        lemma_rearranged(sum, checksum, a.drop_last(), b.remove(k), index);
        lemma_extract(sum, checksum, b, k, index);
    }
}

/// Folding one list and then another folds their concatenation.
pub proof fn lemma_concat(
    sum: Seq<u8>,
    checksum: u64,
    a: Seq<Seq<u8>>,
    b: Seq<Seq<u8>>,
    index: int,
)
    ensures
        sketch::sum_with(sketch::sum_with(sum, a, index), b, index) == sketch::sum_with(
            sum,
            a + b,
            index,
        ),
        sketch::checksum_with(sketch::checksum_with(checksum, a, index), b, index)
            == sketch::checksum_with(checksum, a + b, index),
        sketch::members(a, index) + sketch::members(b, index) == sketch::members(a + b, index),
    decreases b.len(),
{
    if b.len() == 0 {
        assert(a + b =~= a);
    } else {
        lemma_concat(sum, checksum, a, b.drop_last(), index);
        assert((a + b).drop_last() =~= a + b.drop_last());
    }
}

/// Folding a list twice changes nothing.
pub proof fn lemma_cancels(sum: Seq<u8>, checksum: u64, p: Seq<Seq<u8>>, index: int)
    ensures
        sketch::sum_with(sketch::sum_with(sum, p, index), p, index) == sum,
        sketch::checksum_with(sketch::checksum_with(checksum, p, index), p, index) == checksum,
    decreases p.len(),
{
    if p.len() > 0 {
        let q = p.drop_last();
        let x = p.last();
        lemma_cancels(sum, checksum, q, index);
        if window::is_member(x, index) {
            let s = sketch::sum_with(sum, q, index);
            let c = sketch::checksum_with(checksum, q, index);
            sketch::lemma_sum_with_swap(s, x, q, index);
            sketch::lemma_xor_bytes_cancels(sum, x);
            sketch::lemma_checksum_with_swap(c, symbol::checksum_of(x), q, index);
            sketch::lemma_xor_u64(checksum, symbol::checksum_of(x), 0);
        }
    }
}

/// Cell `index` of a stream is the XOR of the symbols that map into it, the XOR of
/// their checksums, and their number.
pub proof fn lemma_cell_holds_its_members(width: nat, symbols: Seq<Seq<u8>>, index: int)
    requires
        symbols.len() < i64::MAX,
    ensures
        encoder::stream_cell(width, symbols, index).count == sketch::members(symbols, index),
        encoder::stream_cell(width, symbols, index).sum == sketch::sum_with(
            symbol::zero_cell(width).sum,
            symbols,
            index,
        ),
        encoder::stream_cell(width, symbols, index).checksum == sketch::checksum_with(
            0,
            symbols,
            index,
        ),
    decreases symbols.len(),
{
    sketch::lemma_folded_parts(symbol::zero_cell(width), symbols, ADD, index);
    if symbols.len() > 0 {
        lemma_cell_holds_its_members(width, symbols.drop_last(), index);
        sketch::lemma_members_bound(symbols.drop_last(), index);
    }
}

/// A symbol is a member of the coded symbols that the sequence seeded by the first eight
/// bytes of its digest stands at; and a cell is the byte-wise XOR of its members, the
/// XOR of their checksums, and their number.
pub proof fn lemma_cell_is_the_fold_of_its_members(
    width: nat,
    symbols: Seq<Seq<u8>>,
    index: int,
)
    requires
        symbols.len() < i64::MAX,
        0 <= index <= u64::MAX,
        forall|i: int| 0 <= i < symbols.len() ==> (#[trigger] symbols[i]).len() == width,
    ensures
        ({
            let seed = |s: Seq<u8>| bytes::le_value(hash::sha256_digest(s).take(8)) as u64;
            let kept = symbols.filter(
                |s: Seq<u8>| exists|steps: nat| (#[trigger] mapping::stands(seed(s), steps)).1 == index,
            );
            let cell = encoder::stream_cell(width, symbols, index);
            &&& cell.count == kept.len()
            &&& cell.sum == kept.fold_left(
                Seq::new(width, |k: int| 0u8),
                |sum: Seq<u8>, s: Seq<u8>| Seq::new(width, |k: int| sum[k] ^ s[k]),
            )
            &&& cell.checksum == kept.fold_left(0u64, |sum: u64, s: Seq<u8>| sum ^ seed(s))
        }),
    decreases symbols.len(),
{
    let seed = |s: Seq<u8>| bytes::le_value(hash::sha256_digest(s).take(8)) as u64;
    let keep = |s: Seq<u8>| exists|steps: nat| (#[trigger] mapping::stands(seed(s), steps)).1 == index;
    let fold = |sum: Seq<u8>, s: Seq<u8>| Seq::new(width, |k: int| sum[k] ^ s[k]);
    let mix = |sum: u64, s: Seq<u8>| sum ^ seed(s);
    lemma_cell_holds_its_members(width, symbols, index);
    reveal(Seq::filter);
    if symbols.len() == 0 {
        assert(symbols.filter(keep) =~= Seq::empty());
    } else {
        let rest = symbols.drop_last();
        let last = symbols.last();
        lemma_cell_is_the_fold_of_its_members(width, rest, index);
        lemma_cell_holds_its_members(width, rest, index);
        mapping::lemma_members_are_the_sequence(symbol::checksum_of(last), index);
        assert(symbol::checksum_of(last) == seed(last));
        assert(keep(last) == window::is_member(last, index));
        sketch::lemma_sum_with_len(symbol::zero_cell(width).sum, rest, index);
        let kept = rest.filter(keep);
        if keep(last) {
            assert(symbols.filter(keep) =~= kept.push(last));
            assert(kept.push(last).drop_last() =~= kept);
            assert(symbols[symbols.len() - 1].len() == width);
            let prior = kept.fold_left(Seq::new(width, |k: int| 0u8), fold);
            assert(fold(prior, last) =~= symbol::xor_bytes(prior, last));
        } else {
            assert(symbols.filter(keep) =~= kept);
        }
    }
}

/// The stream is a function of the set, not of the order it was loaded in.
pub proof fn lemma_stream_is_order_independent(
    width: nat,
    a: Seq<Seq<u8>>,
    b: Seq<Seq<u8>>,
    index: int,
)
    requires
        a.to_multiset() == b.to_multiset(),
        a.len() < i64::MAX,
    ensures
        encoder::stream_cell(width, a, index) == encoder::stream_cell(width, b, index),
{
    broadcast use vstd::seq_lib::group_to_multiset_ensures;

    vstd::seq_lib::to_multiset_len(a);
    vstd::seq_lib::to_multiset_len(b);
    lemma_cell_holds_its_members(width, a, index);
    lemma_cell_holds_its_members(width, b, index);
    lemma_rearranged(symbol::zero_cell(width).sum, 0, a, b, index);
}

/// Every symbol is a member of coded symbol 0, so the first cell of a stream
/// counts the whole set.
pub proof fn lemma_first_cell_holds_every_symbol(width: nat, symbols: Seq<Seq<u8>>)
    requires
        symbols.len() < i64::MAX,
    ensures
        encoder::stream_cell(width, symbols, 0).count == symbols.len(),
{
    lemma_cell_holds_its_members(width, symbols, 0);
    lemma_all_members_of_first(symbols);
}

/// Every symbol is a member of coded symbol 0.
proof fn lemma_all_members_of_first(symbols: Seq<Seq<u8>>)
    ensures
        sketch::members(symbols, 0) == symbols.len(),
    decreases symbols.len(),
{
    if symbols.len() > 0 {
        lemma_all_members_of_first(symbols.drop_last());
        mapping::lemma_every_symbol_starts_at_zero(symbol::checksum_of(symbols.last()));
    }
}

/// An empty set streams identity cells forever.
pub proof fn lemma_empty_set_streams_identity(width: nat, index: int)
    ensures
        encoder::stream_cell(width, Seq::empty(), index) == symbol::zero_cell(width),
        symbol::cell_is_empty(encoder::stream_cell(width, Seq::empty(), index)),
{
}

/// Whether every cell a decoder took is the one an honest encoder over `theirs`
/// streams there.
pub open spec fn honest(v: DecoderView, theirs: Seq<Seq<u8>>) -> bool {
    forall|i: int|
        0 <= i < v.accepted.len() ==> #[trigger] v.accepted[i] == encoder::stream_cell(
            v.width,
            theirs,
            i,
        )
}

/// Whether two lists are sets of `width`-byte symbols, and few enough to count.
pub open spec fn reconcilable(width: nat, mine: Seq<Seq<u8>>, theirs: Seq<Seq<u8>>) -> bool {
    &&& mine.no_duplicates()
    &&& theirs.no_duplicates()
    &&& forall|x: Seq<u8>| #[trigger] mine.contains(x) ==> x.len() == width
    &&& forall|x: Seq<u8>| #[trigger] theirs.contains(x) ==> x.len() == width
    &&& 4 * (mine.len() + theirs.len()) < i64::MAX
}

/// How many of `symbols` are in `theirs`, less how many are not.
pub open spec fn net_count(symbols: Seq<Seq<u8>>, theirs: Seq<Seq<u8>>) -> int
    decreases symbols.len(),
{
    if symbols.len() == 0 {
        0
    } else {
        net_count(symbols.drop_last(), theirs) + if theirs.contains(symbols.last()) {
            1int
        } else {
            -1int
        }
    }
}

/// Whether `part` is drawn, without duplicates, from what exactly one of the two
/// sets holds.
pub open spec fn drawn_from_difference(
    part: Seq<Seq<u8>>,
    mine: Seq<Seq<u8>>,
    theirs: Seq<Seq<u8>>,
) -> bool {
    &&& part.no_duplicates()
    &&& forall|x: Seq<u8>| #[trigger] part.contains(x) ==> mine.contains(x) != theirs.contains(x)
}

/// Whether everything recovered so far is true: `remote` holds distinct symbols
/// that only the peer has, and `local` distinct symbols that only the local set
/// has.
pub open spec fn truthful(v: DecoderView, theirs: Seq<Seq<u8>>) -> bool {
    &&& v.remote.no_duplicates()
    &&& v.local.no_duplicates()
    &&& forall|x: Seq<u8>| #[trigger]
        v.remote.contains(x) ==> theirs.contains(x) && !v.set.contains(x)
    &&& forall|x: Seq<u8>| #[trigger]
        v.local.contains(x) ==> v.set.contains(x) && !theirs.contains(x)
}

/// What only the peer has and has not been recovered yet.
pub open spec fn missing_remote(v: DecoderView, theirs: Seq<Seq<u8>>) -> Seq<Seq<u8>> {
    theirs.filter(|x: Seq<u8>| !v.set.contains(x) && !v.remote.contains(x))
}

/// What only the local set has and has not been recovered yet.
pub open spec fn missing_local(v: DecoderView, theirs: Seq<Seq<u8>>) -> Seq<Seq<u8>> {
    v.set.filter(|x: Seq<u8>| !theirs.contains(x) && !v.local.contains(x))
}

/// What is still missing of the difference and maps into coded symbol `index`.
pub open spec fn missing_at(v: DecoderView, theirs: Seq<Seq<u8>>, index: int) -> Seq<Seq<u8>> {
    (missing_remote(v, theirs) + missing_local(v, theirs)).filter(
        |x: Seq<u8>| window::is_member(x, index),
    )
}

/// Whether what is still missing at a cell does not fold to something else: it
/// reads as nothing only if it is nothing, and as one symbol only if it is one.
/// The checksum makes a list that breaks this a `2^-64` event.
pub open spec fn reads_true(v: DecoderView, theirs: Seq<Seq<u8>>, index: int) -> bool {
    let part = missing_at(v, theirs, index);
    let sum = sketch::sum_with(symbol::zero_cell(v.width).sum, part, 0);
    let checksum = sketch::checksum_with(0, part, 0);
    let count = net_count(part, theirs);
    &&& (sum == symbol::zero_cell(v.width).sum && checksum == 0 && count == 0 ==> part.len() == 0)
    &&& (sum.len() > 0 && (count == 1 || count == -1) && checksum == symbol::checksum_of(sum)
        ==> part.len() == 1)
}

/// Whether draining the queue reads nothing false: each cell that is peeled reads
/// true when it is, and so does the first cell, which holds whatever is missing,
/// once the cascade stalls.
pub open spec fn drains_true(v: DecoderView, theirs: Seq<Seq<u8>>) -> bool
    decreases decoder::unretired(v.retired), v.queue.len(),
    when v.cells.len() == v.retired.len()
{
    if v.queue.len() == 0 {
        reads_true(v, theirs, 0)
    } else {
        let index = v.queue[0] as int;
        let rest = DecoderView { queue: v.queue.skip(1), ..v };
        if decoder::peelable(rest, index) {
            proof {
                decoder::lemma_peel_progresses(rest, index);
            }
            reads_true(v, theirs, index) && drains_true(decoder::peeled(rest, index), theirs)
        } else {
            drains_true(rest, theirs)
        }
    }
}

/// What both sets have.
spec fn shared(v: DecoderView, theirs: Seq<Seq<u8>>) -> Seq<Seq<u8>> {
    theirs.filter(|x: Seq<u8>| v.set.contains(x))
}

/// The peer's set is what is shared, what was recovered of it, and what is still
/// missing; and likewise the local set.
proof fn lemma_decomposition(v: DecoderView, theirs: Seq<Seq<u8>>)
    requires
        reconcilable(v.width, v.set, theirs),
        truthful(v, theirs),
    ensures
        theirs.to_multiset() == shared(v, theirs).to_multiset().add(v.remote.to_multiset()).add(
            missing_remote(v, theirs).to_multiset(),
        ),
        v.set.to_multiset() == shared(v, theirs).to_multiset().add(v.local.to_multiset()).add(
            missing_local(v, theirs).to_multiset(),
        ),
{
    let common = shared(v, theirs);
    let more = missing_remote(v, theirs);
    let less = missing_local(v, theirs);
    lists::lemma_filter(theirs, |x: Seq<u8>| v.set.contains(x));
    lists::lemma_filter(theirs, |x: Seq<u8>| !v.set.contains(x) && !v.remote.contains(x));
    lists::lemma_filter(v.set, |x: Seq<u8>| !theirs.contains(x) && !v.local.contains(x));
    let mine_only = v.local.to_multiset().add(less.to_multiset());
    assert forall|x: Seq<u8>|
        theirs.to_multiset().count(x) == common.to_multiset().add(v.remote.to_multiset()).add(
            more.to_multiset(),
        ).count(x) by {
        lists::lemma_count(theirs, x);
        lists::lemma_count(common, x);
        lists::lemma_count(v.remote, x);
        lists::lemma_count(more, x);
        assert(common.contains(x) <==> theirs.contains(x) && v.set.contains(x));
        assert(more.contains(x) <==> theirs.contains(x) && !v.set.contains(x)
            && !v.remote.contains(x));
        assert(v.remote.contains(x) ==> theirs.contains(x) && !v.set.contains(x));
    }
    assert(theirs.to_multiset() =~= common.to_multiset().add(v.remote.to_multiset()).add(
        more.to_multiset(),
    ));
    assert forall|x: Seq<u8>|
        v.set.to_multiset().count(x) == common.to_multiset().add(v.local.to_multiset()).add(
            less.to_multiset(),
        ).count(x) by {
        lists::lemma_count(v.set, x);
        lists::lemma_count(common, x);
        lists::lemma_count(v.local, x);
        lists::lemma_count(less, x);
        assert(common.contains(x) <==> theirs.contains(x) && v.set.contains(x));
        assert(less.contains(x) <==> v.set.contains(x) && !theirs.contains(x)
            && !v.local.contains(x));
        assert(v.local.contains(x) ==> v.set.contains(x) && !theirs.contains(x));
    }
    assert(v.set.to_multiset() =~= common.to_multiset().add(v.local.to_multiset()).add(
        less.to_multiset(),
    ));
}

/// What remains of an honest cell is the fold of what is still missing.
pub proof fn lemma_honest_residual(v: DecoderView, theirs: Seq<Seq<u8>>, index: int)
    requires
        decoder::accounted(v),
        honest(v, theirs),
        reconcilable(v.width, v.set, theirs),
        truthful(v, theirs),
        0 <= index < v.cells.len(),
    ensures
        ({
            let more = missing_remote(v, theirs);
            let less = missing_local(v, theirs);
            let cell = v.cells[index];
            &&& cell.sum == sketch::sum_with(
                symbol::zero_cell(v.width).sum,
                more + less,
                index,
            )
            &&& cell.checksum == sketch::checksum_with(0, more + less, index)
            &&& -1 <= cell.count <= 1 ==> cell.count == sketch::members(more, index)
                - sketch::members(less, index)
            &&& sketch::members(theirs, index) - sketch::members(v.set, index) - sketch::members(
                v.remote,
                index,
            ) + sketch::members(v.local, index) == sketch::members(more, index) - sketch::members(
                less,
                index,
            )
        }),
{
    broadcast use vstd::seq_lib::group_to_multiset_ensures;

    let z = symbol::zero_cell(v.width).sum;
    let common = shared(v, theirs);
    let more = missing_remote(v, theirs);
    let less = missing_local(v, theirs);
    let given = v.accepted[index];
    assert(given == encoder::stream_cell(v.width, theirs, index));
    lemma_cell_holds_its_members(v.width, theirs, index);
    lemma_decomposition(v, theirs);

    let all = theirs + v.set + v.remote + v.local;
    lemma_concat(z, 0, theirs, v.set, index);
    lemma_concat(z, 0, theirs + v.set, v.remote, index);
    lemma_concat(z, 0, theirs + v.set + v.remote, v.local, index);

    let twice = common + v.remote + v.local;
    let regrouped = (more + less) + twice + twice;
    vstd::seq_lib::lemma_multiset_commutative(theirs, v.set);
    vstd::seq_lib::lemma_multiset_commutative(theirs + v.set, v.remote);
    vstd::seq_lib::lemma_multiset_commutative(theirs + v.set + v.remote, v.local);
    vstd::seq_lib::lemma_multiset_commutative(common, v.remote);
    vstd::seq_lib::lemma_multiset_commutative(common + v.remote, v.local);
    vstd::seq_lib::lemma_multiset_commutative(more, less);
    vstd::seq_lib::lemma_multiset_commutative(more + less, twice);
    vstd::seq_lib::lemma_multiset_commutative((more + less) + twice, twice);
    assert(all.to_multiset() =~= regrouped.to_multiset());
    lemma_rearranged(z, 0, all, regrouped, index);
    lemma_concat(z, 0, more + less, twice, index);
    lemma_concat(z, 0, (more + less) + twice, twice, index);
    lemma_cancels(
        sketch::sum_with(z, more + less, index),
        sketch::checksum_with(0, more + less, index),
        twice,
        index,
    );
    assert(sketch::accounts_for(v.set, v.remote, v.local, given, v.cells[index], index));

    let left = common + v.remote + more;
    let right = common + v.local + less;
    vstd::seq_lib::lemma_multiset_commutative(common + v.remote, more);
    vstd::seq_lib::lemma_multiset_commutative(common, v.local);
    vstd::seq_lib::lemma_multiset_commutative(common + v.local, less);
    assert(theirs.to_multiset() =~= left.to_multiset());
    assert(v.set.to_multiset() =~= right.to_multiset());
    lemma_rearranged(z, 0, theirs, left, index);
    lemma_rearranged(z, 0, v.set, right, index);
    lemma_concat(z, 0, common, v.remote, index);
    lemma_concat(z, 0, common + v.remote, more, index);
    lemma_concat(z, 0, common, v.local, index);
    lemma_concat(z, 0, common + v.local, less, index);
    sketch::lemma_members_bound(v.set, index);
    sketch::lemma_members_bound(v.remote, index);
    sketch::lemma_members_bound(v.local, index);
    lists::lemma_sublist_len(v.remote, theirs);
    lists::lemma_sublist_len(v.local, v.set);
}

/// The members of a cell, folded in full, give what they give at the cell.
pub proof fn lemma_members_in_full(s: Seq<Seq<u8>>, sum: Seq<u8>, checksum: u64, index: int)
    ensures
        sketch::sum_with(sum, s, index) == sketch::sum_with(
            sum,
            s.filter(|x: Seq<u8>| window::is_member(x, index)),
            0,
        ),
        sketch::checksum_with(checksum, s, index) == sketch::checksum_with(
            checksum,
            s.filter(|x: Seq<u8>| window::is_member(x, index)),
            0,
        ),
    decreases s.len(),
{
    reveal(Seq::filter);
    let keep = |x: Seq<u8>| window::is_member(x, index);
    if s.len() > 0 {
        lemma_members_in_full(s.drop_last(), sum, checksum, index);
        if keep(s.last()) {
            let kept = s.drop_last().filter(keep);
            assert(s.filter(keep).drop_last() =~= kept);
            assert(s.filter(keep).last() == s.last());
            mapping::lemma_every_symbol_starts_at_zero(symbol::checksum_of(s.last()));
        }
    }
}

/// The net count of the members of a cell among the missing symbols.
pub proof fn lemma_net_count(
    more: Seq<Seq<u8>>,
    less: Seq<Seq<u8>>,
    theirs: Seq<Seq<u8>>,
    index: int,
)
    requires
        forall|x: Seq<u8>| more.contains(x) ==> theirs.contains(x),
        forall|x: Seq<u8>| less.contains(x) ==> !theirs.contains(x),
    ensures
        net_count((more + less).filter(|x: Seq<u8>| window::is_member(x, index)), theirs)
            == sketch::members(more, index) - sketch::members(less, index),
    decreases more.len() + less.len(),
{
    reveal(Seq::filter);
    let keep = |x: Seq<u8>| window::is_member(x, index);
    if less.len() > 0 {
        let rest = less.drop_last();
        assert forall|x: Seq<u8>| rest.contains(x) implies !theirs.contains(x) by {
            let k = choose|k: int| 0 <= k < rest.len() && rest[k] == x;
            assert(less[k] == x);
        }
        lemma_net_count(more, rest, theirs, index);
        assert((more + less).drop_last() =~= more + rest);
        assert((more + less).last() == less.last());
        assert(less.contains(less[less.len() - 1]));
        let kept = (more + rest).filter(keep);
        if keep(less.last()) {
            assert((more + less).filter(keep) =~= kept.push(less.last()));
            assert(kept.push(less.last()).drop_last() =~= kept);
        }
    } else if more.len() > 0 {
        let rest = more.drop_last();
        assert forall|x: Seq<u8>| rest.contains(x) implies theirs.contains(x) by {
            let k = choose|k: int| 0 <= k < rest.len() && rest[k] == x;
            assert(more[k] == x);
        }
        lemma_net_count(rest, less, theirs, index);
        assert((more + less).drop_last() =~= rest + less);
        assert((more + less).last() == more.last());
        assert(more.contains(more[more.len() - 1]));
        let kept = (rest + less).filter(keep);
        if keep(more.last()) {
            assert((more + less).filter(keep) =~= kept.push(more.last()));
            assert(kept.push(more.last()).drop_last() =~= kept);
        }
    } else {
        assert((more + less).filter(keep) =~= Seq::<Seq<u8>>::empty());
    }
}

/// The members of a cell among what is missing are drawn from the difference.
pub proof fn lemma_missing_is_drawn(v: DecoderView, theirs: Seq<Seq<u8>>, index: int)
    requires
        reconcilable(v.width, v.set, theirs),
        truthful(v, theirs),
    ensures
        ({
            let more = missing_remote(v, theirs);
            let less = missing_local(v, theirs);
            let part = (more + less).filter(|x: Seq<u8>| window::is_member(x, index));
            &&& drawn_from_difference(part, v.set, theirs)
            &&& forall|x: Seq<u8>| #[trigger]
                part.contains(x) ==> (more.contains(x) || less.contains(x))
            &&& forall|x: Seq<u8>| #[trigger]
                more.contains(x) <==> theirs.contains(x) && !v.set.contains(x)
                    && !v.remote.contains(x)
            &&& forall|x: Seq<u8>| #[trigger]
                less.contains(x) <==> v.set.contains(x) && !theirs.contains(x)
                    && !v.local.contains(x)
        }),
{
    let more = missing_remote(v, theirs);
    let less = missing_local(v, theirs);
    lists::lemma_filter(theirs, |x: Seq<u8>| !v.set.contains(x) && !v.remote.contains(x));
    lists::lemma_filter(v.set, |x: Seq<u8>| !theirs.contains(x) && !v.local.contains(x));
    let both = more + less;
    assert forall|x: Seq<u8>| both.contains(x) implies (more.contains(x) || less.contains(x)) by {
        let k = choose|k: int| 0 <= k < both.len() && both[k] == x;
        if k < more.len() {
            assert(more[k] == x);
        } else {
            assert(less[k - more.len()] == x);
        }
    }
    assert(both.no_duplicates()) by {
        assert forall|i: int, j: int| 0 <= i < j < both.len() implies both[i] != both[j] by {
            if i < more.len() {
                assert(more.contains(more[i]));
                if j >= more.len() {
                    assert(less.contains(less[j - more.len()]));
                }
            }
        }
    }
    lists::lemma_filter(both, |x: Seq<u8>| window::is_member(x, index));
    let part = both.filter(|x: Seq<u8>| window::is_member(x, index));
    assert forall|x: Seq<u8>| #[trigger] part.contains(x) implies v.set.contains(x)
        != theirs.contains(x) by {
        assert(both.contains(x));
    }
}

/// A cell of an honest stream that reads true is pure only if one symbol is
/// missing there, and empty only if none is.
pub proof fn lemma_true_readings(v: DecoderView, theirs: Seq<Seq<u8>>, index: int)
    requires
        decoder::accounted(v),
        honest(v, theirs),
        reconcilable(v.width, v.set, theirs),
        truthful(v, theirs),
        0 <= index < v.cells.len(),
        reads_true(v, theirs, index),
    ensures
        symbol::cell_is_pure(v.cells[index]) ==> missing_at(v, theirs, index).len() == 1,
        symbol::cell_is_empty(v.cells[index]) ==> missing_at(v, theirs, index).len() == 0,
{
    let z = symbol::zero_cell(v.width).sum;
    let more = missing_remote(v, theirs);
    let less = missing_local(v, theirs);
    lemma_honest_residual(v, theirs, index);
    lemma_members_in_full(more + less, z, 0, index);
    lemma_missing_is_drawn(v, theirs, index);
    lemma_net_count(more, less, theirs, index);
    if symbol::cell_is_empty(v.cells[index]) {
        assert(v.cells[index].sum =~= z);
    }
}

/// A pure cell of an honest stream yields a symbol that is truly part of the
/// difference, on the side its sign says.
pub proof fn lemma_pure_is_true(v: DecoderView, theirs: Seq<Seq<u8>>, index: int)
    requires
        decoder::accounted(v),
        honest(v, theirs),
        reconcilable(v.width, v.set, theirs),
        reads_true(v, theirs, index),
        truthful(v, theirs),
        0 <= index < v.cells.len(),
        symbol::cell_is_pure(v.cells[index]),
    ensures
        ({
            let x = v.cells[index].sum;
            if v.cells[index].count == 1 {
                theirs.contains(x) && !v.set.contains(x) && !v.remote.contains(x)
            } else {
                v.set.contains(x) && !theirs.contains(x) && !v.local.contains(x)
            }
        }),
{
    let z = symbol::zero_cell(v.width).sum;
    let more = missing_remote(v, theirs);
    let less = missing_local(v, theirs);
    let part = (more + less).filter(|x: Seq<u8>| window::is_member(x, index));
    lemma_honest_residual(v, theirs, index);
    lemma_members_in_full(more + less, z, 0, index);
    lemma_missing_is_drawn(v, theirs, index);
    lemma_net_count(more, less, theirs, index);
    lemma_true_readings(v, theirs, index);
    assert(part.len() == 1);
    let x = part[0];
    assert(part =~= seq![x]);
    assert(part.contains(x));
    assert(part.drop_last() =~= Seq::<Seq<u8>>::empty());
    mapping::lemma_every_symbol_starts_at_zero(symbol::checksum_of(x));
    assert(sketch::sum_with(z, part, 0) == symbol::xor_bytes(z, x)) by {
        assert(sketch::sum_with(z, part.drop_last(), 0) == z);
    }
    assert(x.len() == v.width);
    assert(symbol::xor_bytes(z, x) =~= x) by {
        assert forall|i: int| 0 <= i < x.len() implies symbol::xor_bytes(z, x)[i] == x[i] by {
            sketch::lemma_xor_u8(x[i], 0, 0);
        }
    }
    assert(net_count(part, theirs) == if theirs.contains(x) {
        1int
    } else {
        -1int
    }) by {
        assert(net_count(part.drop_last(), theirs) == 0);
    }
}

/// Draining an honest stream recovers only what is true, if it reads nothing
/// false.
pub proof fn lemma_honest_peels_are_true(v: DecoderView, theirs: Seq<Seq<u8>>)
    requires
        decoder::accounted(v),
        honest(v, theirs),
        reconcilable(v.width, v.set, theirs),
        truthful(v, theirs),
        drains_true(v, theirs),
    ensures
        honest(decoder::drained(v), theirs),
        truthful(decoder::drained(v), theirs),
        reads_true(decoder::drained(v), theirs, 0),
    decreases decoder::unretired(v.retired), v.queue.len(),
{
    if v.queue.len() > 0 {
        decoder::lemma_peeled_accounted(v);
        let index = v.queue[0] as int;
        let rest = DecoderView { queue: v.queue.skip(1), ..v };
        if decoder::peelable(rest, index) {
            lemma_pure_is_true(v, theirs, index);
            decoder::lemma_peel_progresses(rest, index);
            let next = decoder::peeled(rest, index);
            lists::lemma_push(v.remote, v.cells[index].sum);
            lists::lemma_push(v.local, v.cells[index].sum);
            assert(honest(next, theirs));
            assert(truthful(next, theirs));
            lemma_honest_peels_are_true(next, theirs);
        } else {
            assert(honest(rest, theirs));
            lemma_honest_peels_are_true(rest, theirs);
        }
    }
}

/// A decoder that has taken nothing is honest and truthful against any peer.
pub proof fn lemma_fresh_is_true(width: nat, mine: Seq<Seq<u8>>, theirs: Seq<Seq<u8>>)
    ensures
        decoder::accounted(decoder::fresh(width, mine)),
        honest(decoder::fresh(width, mine), theirs),
        truthful(decoder::fresh(width, mine), theirs),
{
}

/// Taking the cell an honest encoder streams next keeps what was recovered true.
pub proof fn lemma_honest_cell_keeps_truth(v: DecoderView, theirs: Seq<Seq<u8>>)
    requires
        decoder::accounted(v),
        honest(v, theirs),
        truthful(v, theirs),
        v.cells.len() < usize::MAX,
    ensures
        ({
            let next = decoder::taken(
                v,
                encoder::stream_cell(v.width, theirs, v.cells.len() as int),
            );
            &&& decoder::accounted(next)
            &&& honest(next, theirs)
            &&& truthful(next, theirs)
        }),
{
    let cell = encoder::stream_cell(v.width, theirs, v.cells.len() as int);
    let next = decoder::taken(v, cell);
    sketch::lemma_folded_parts(
        symbol::zero_cell(v.width),
        theirs,
        ADD,
        v.cells.len() as int,
    );
    sketch::lemma_sum_with_len(symbol::zero_cell(v.width).sum, theirs, v.cells.len() as int);
    decoder::lemma_taken_accounted(v, cell);
    assert forall|i: int| 0 <= i < next.accepted.len() implies #[trigger] next.accepted[i]
        == encoder::stream_cell(next.width, theirs, i) by {
        if i < v.accepted.len() {
            assert(next.accepted[i] == v.accepted[i]);
        }
    }
}

/// A decoder that converges on an honest stream has recovered exactly the true
/// difference: `remote` is what only the peer holds, `local` what only the local
/// set holds, each symbol once.
pub proof fn lemma_honest_convergence_is_exact(v: DecoderView, theirs: Seq<Seq<u8>>)
    requires
        decoder::accounted(v),
        honest(v, theirs),
        reconcilable(v.width, v.set, theirs),
        truthful(v, theirs),
        reads_true(v, theirs, 0),
        decoder::decoded(v),
    ensures
        v.remote.no_duplicates(),
        v.local.no_duplicates(),
        forall|x: Seq<u8>| #[trigger]
            v.remote.contains(x) <==> theirs.contains(x) && !v.set.contains(x),
        forall|x: Seq<u8>| #[trigger]
            v.local.contains(x) <==> v.set.contains(x) && !theirs.contains(x),
{
    let z = symbol::zero_cell(v.width).sum;
    let more = missing_remote(v, theirs);
    let less = missing_local(v, theirs);
    let part = (more + less).filter(|x: Seq<u8>| window::is_member(x, 0));
    lemma_missing_is_drawn(v, theirs, 0);
    assert(symbol::cell_is_empty(v.cells[0]));
    lemma_true_readings(v, theirs, 0);
    assert(part.len() == 0);
    lists::lemma_filter(more + less, |x: Seq<u8>| window::is_member(x, 0));
    assert forall|x: Seq<u8>| !more.contains(x) && !less.contains(x) by {
        mapping::lemma_every_symbol_starts_at_zero(symbol::checksum_of(x));
        if more.contains(x) {
            let k = choose|k: int| 0 <= k < more.len() && more[k] == x;
            assert((more + less)[k] == x);
            assert(part.contains(x));
        }
        if less.contains(x) {
            let k = choose|k: int| 0 <= k < less.len() && less[k] == x;
            assert((more + less)[more.len() + k] == x);
            assert(part.contains(x));
        }
    }
    assert forall|x: Seq<u8>| theirs.contains(x) && !v.set.contains(x) implies v.remote.contains(
        x,
    ) by {
        assert(!more.contains(x));
    }
    assert forall|x: Seq<u8>| v.set.contains(x) && !theirs.contains(x) implies v.local.contains(
        x,
    ) by {
        assert(!less.contains(x));
    }
}

/// Taking a whole batch of honest cells keeps what was recovered true.
pub proof fn lemma_honest_batch_keeps_truth(v: DecoderView, theirs: Seq<Seq<u8>>, count: nat)
    requires
        decoder::accounted(v),
        honest(v, theirs),
        truthful(v, theirs),
        v.cells.len() + count <= usize::MAX,
    ensures
        ({
            let batch = engine::stream_batch(v.width, theirs, v.cells.len(), count);
            let (next, odd) = engine::took(v, batch);
            &&& odd is None
            &&& decoder::accounted(next)
            &&& honest(next, theirs)
            &&& truthful(next, theirs)
            &&& next.width == v.width
            &&& next.set == v.set
            &&& next.cells.len() == v.cells.len() + count
        }),
    decreases count,
{
    let batch = engine::stream_batch(v.width, theirs, v.cells.len(), count);
    if count > 0 {
        let cell = encoder::stream_cell(v.width, theirs, v.cells.len() as int);
        assert(batch[0] == cell);
        lemma_honest_cell_keeps_truth(v, theirs);
        let next = decoder::taken(v, cell);
        assert(next.cells[v.cells.len() as int].sum.len() == v.width);
        sketch::lemma_folded_parts(symbol::zero_cell(v.width), theirs, ADD, v.cells.len() as int);
        sketch::lemma_sum_with_len(
            symbol::zero_cell(v.width).sum,
            theirs,
            v.cells.len() as int,
        );
        assert(cell.sum.len() == v.width);
        assert(batch.skip(1) =~= engine::stream_batch(
            v.width,
            theirs,
            next.cells.len(),
            (count - 1) as nat,
        ));
        lemma_honest_batch_keeps_truth(next, theirs, (count - 1) as nat);
    }
}

/// A session between an honest encoder and a decoder: each batch of the stream, if
/// draining it reads nothing false, either leaves the decoder asking for more with only true symbols recovered,
/// or converges on exactly the true difference.
pub proof fn lemma_session_recovers_the_difference(
    v: RibltView,
    theirs: Seq<Seq<u8>>,
    count: nat,
)
    requires
        v.role is Decoder,
        ({
            let state = v.role->state;
            &&& decoder::accounted(state)
            &&& honest(state, theirs)
            &&& truthful(state, theirs)
            &&& reconcilable(state.width, state.set, theirs)
            &&& state.width == v.width
            &&& v.width <= caps::MAX_SYMBOL_BYTES
            &&& state.cells.len() <= v.role->received
        }),
        1 <= count,
        v.role->received + count <= caps::MAX_CODED_SYMBOLS,
        ({
            let state = v.role->state;
            let batch = engine::stream_batch(v.width, theirs, state.cells.len(), count);
            drains_true(engine::took(state, batch).0, theirs)
        }),
    ensures
        ({
            let state = v.role->state;
            let batch = engine::stream_batch(v.width, theirs, state.cells.len(), count);
            let (w, answer) = engine::solved(v, v.width as u16, batch);
            &&& w.role is Decoder
            &&& w.width == v.width
            &&& decoder::accounted(w.role->state)
            &&& honest(w.role->state, theirs)
            &&& truthful(w.role->state, theirs)
            &&& w.role->state.set == state.set
            &&& w.role->state.width == state.width
            &&& w.role->state.cells.len() <= w.role->received
            &&& match answer {
                Ok(Progress::Continue) => w.diff == v.diff && w.pending is Some,
                Ok(Progress::Converged) => exists|need: Seq<Seq<u8>>, have: Seq<Seq<u8>>|
                    {
                        &&& w.diff == (DiffView {
                            need: v.diff.need + need,
                            have: v.diff.have + have,
                        })
                        &&& #[trigger] is_difference(need, theirs, state.set)
                        &&& #[trigger] is_difference(have, state.set, theirs)
                    },
                Err(_) => false,
            }
        }),
{
    let state = v.role->state;
    let batch = engine::stream_batch(v.width, theirs, state.cells.len(), count);
    lemma_honest_batch_keeps_truth(state, theirs, count);
    assert(engine::adopted(v, v.width as u16) == Ok::<RibltView, crate::reconcile::error::ReconcileError>(v));
    let filled = engine::took(state, batch).0;
    decoder::lemma_drained_accounted(filled);
    lemma_honest_peels_are_true(filled, theirs);
    let settled = decoder::drained(filled);
    if decoder::decoded(settled) {
        lemma_honest_convergence_is_exact(settled, theirs);
        assert(is_difference(settled.remote, theirs, state.set));
        assert(is_difference(settled.local, state.set, theirs));
    }
}

/// Whether `list` holds, each once, exactly what `a` has and `b` lacks.
pub open spec fn is_difference(list: Seq<Seq<u8>>, a: Seq<Seq<u8>>, b: Seq<Seq<u8>>) -> bool {
    &&& list.no_duplicates()
    &&& forall|x: Seq<u8>| #[trigger] list.contains(x) <==> a.contains(x) && !b.contains(x)
}

/// What remains of a peer's cell when both sides hold the same set is nothing.
proof fn lemma_agreement_leaves_nothing(
    width: nat,
    mine: Seq<Seq<u8>>,
    theirs: Seq<Seq<u8>>,
    index: int,
)
    requires
        mine.to_multiset() == theirs.to_multiset(),
        mine.len() < i64::MAX,
    ensures
        ({
            let left = decoder::residual(
                mine,
                Seq::empty(),
                Seq::empty(),
                encoder::stream_cell(width, theirs, index),
                index,
            );
            symbol::cell_is_empty(left) && left.sum.len() == width
        }),
{
    let cell = encoder::stream_cell(width, theirs, index);
    let z = symbol::zero_cell(width).sum;
    lemma_stream_is_order_independent(width, mine, theirs, index);
    lemma_cell_holds_its_members(width, mine, index);
    let left = window::folded(cell, mine, REMOVE, index);
    sketch::lemma_folded_parts(cell, mine, REMOVE, index);
    lemma_cancels(z, 0, mine, index);
    lemma_matched_count(cell, mine, index);
}

/// Removing as many members as a cell counts leaves a count of zero.
proof fn lemma_matched_count(cell: CellView, symbols: Seq<Seq<u8>>, index: int)
    requires
        cell.count >= sketch::members(symbols, index),
    ensures
        window::folded(cell, symbols, REMOVE, index).count == cell.count - sketch::members(
            symbols,
            index,
        ),
    decreases symbols.len(),
{
    if symbols.len() > 0 {
        lemma_matched_count(cell, symbols.drop_last(), index);
    }
}

/// A batch of the stream of the same set leaves a decoder with nothing to do.
proof fn lemma_agreement_takes_nothing(v: DecoderView, theirs: Seq<Seq<u8>>, count: nat)
    requires
        v.accepted.len() == v.cells.len(),
        v.retired.len() == v.cells.len(),
        v.remote.len() == 0,
        v.local.len() == 0,
        v.queue.len() == 0,
        forall|i: int| 0 <= i < v.cells.len() ==> symbol::cell_is_empty(#[trigger] v.cells[i]),
        v.set.to_multiset() == theirs.to_multiset(),
        v.set.len() < i64::MAX,
    ensures
        ({
            let batch = engine::stream_batch(v.width, theirs, v.cells.len(), count);
            let (next, odd) = engine::took(v, batch);
            &&& odd is None
            &&& next.cells.len() == v.cells.len() + count
            &&& next.retired.len() == next.cells.len()
            &&& next.remote == v.remote
            &&& next.local == v.local
            &&& next.queue.len() == 0
            &&& forall|i: int|
                0 <= i < next.cells.len() ==> symbol::cell_is_empty(#[trigger] next.cells[i])
        }),
    decreases count,
{
    let batch = engine::stream_batch(v.width, theirs, v.cells.len(), count);
    if count > 0 {
        let index = v.cells.len() as int;
        let cell = encoder::stream_cell(v.width, theirs, index);
        assert(batch[0] == cell);
        sketch::lemma_folded_parts(symbol::zero_cell(v.width), theirs, ADD, index);
        sketch::lemma_sum_with_len(symbol::zero_cell(v.width).sum, theirs, index);
        assert(v.remote =~= Seq::empty());
        assert(v.local =~= Seq::empty());
        lemma_agreement_leaves_nothing(v.width, v.set, theirs, index);
        let next = decoder::taken(v, cell);
        assert(batch.skip(1) =~= engine::stream_batch(
            v.width,
            theirs,
            next.cells.len(),
            (count - 1) as nat,
        ));
        lemma_agreement_takes_nothing(next, theirs, (count - 1) as nat);
    }
}

/// Agreement costs one batch however large the sets are: a decoder whose set is
/// the peer's converges on the first cells it is sent, with nothing learned.
pub proof fn lemma_agreement_converges_at_once(
    v: RibltView,
    mine: Seq<Seq<u8>>,
    theirs: Seq<Seq<u8>>,
    count: nat,
)
    requires
        v.role == (RoleView::Decoder { state: decoder::fresh(v.width, mine), received: 0 }),
        v.width <= caps::MAX_SYMBOL_BYTES,
        mine.to_multiset() == theirs.to_multiset(),
        mine.len() < i64::MAX,
        1 <= count <= caps::MAX_CODED_SYMBOLS,
    ensures
        ({
            let batch = engine::stream_batch(v.width, theirs, 0, count);
            let (w, answer) = engine::solved(v, v.width as u16, batch);
            &&& answer == Ok::<Progress, crate::reconcile::error::ReconcileError>(
                Progress::Converged,
            )
            &&& w.diff == v.diff
        }),
{
    let state = decoder::fresh(v.width, mine);
    let batch = engine::stream_batch(v.width, theirs, 0, count);
    assert(engine::adopted(v, v.width as u16) == Ok::<RibltView, crate::reconcile::error::ReconcileError>(v));
    lemma_agreement_takes_nothing(state, theirs, count);
    let filled = engine::took(state, batch).0;
    assert(decoder::drained(filled) == filled);
    let w = engine::solved(v, v.width as u16, batch).0;
    assert(w.diff =~= v.diff) by {
        assert(v.diff.need + filled.remote =~= v.diff.need);
        assert(v.diff.have + filled.local =~= v.diff.have);
    }
}

} // verus!
