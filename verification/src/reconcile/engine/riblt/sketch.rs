//! The algebra of a sketch: how folds of symbols combine and cancel.
use crate::reconcile::engine::riblt::symbol;
use crate::reconcile::engine::riblt::symbol::{CellView, ADD, REMOVE};
use crate::reconcile::engine::riblt::window;
use vstd::prelude::*;

verus! {

/// `sum` with every member of coded symbol `index` among `symbols` XORed in.
pub open spec fn sum_with(sum: Seq<u8>, symbols: Seq<Seq<u8>>, index: int) -> Seq<u8>
    decreases symbols.len(),
{
    if symbols.len() == 0 {
        sum
    } else {
        let prior = sum_with(sum, symbols.drop_last(), index);
        if window::is_member(symbols.last(), index) {
            symbol::xor_bytes(prior, symbols.last())
        } else {
            prior
        }
    }
}

/// `checksum` with the checksum of every member of coded symbol `index` among
/// `symbols` XORed in.
pub open spec fn checksum_with(checksum: u64, symbols: Seq<Seq<u8>>, index: int) -> u64
    decreases symbols.len(),
{
    if symbols.len() == 0 {
        checksum
    } else {
        let prior = checksum_with(checksum, symbols.drop_last(), index);
        if window::is_member(symbols.last(), index) {
            prior ^ symbol::checksum_of(symbols.last())
        } else {
            prior
        }
    }
}

/// How many of `symbols` are members of coded symbol `index`.
pub open spec fn members(symbols: Seq<Seq<u8>>, index: int) -> nat
    decreases symbols.len(),
{
    if symbols.len() == 0 {
        0
    } else {
        members(symbols.drop_last(), index) + if window::is_member(symbols.last(), index) {
            1nat
        } else {
            0nat
        }
    }
}

/// Whether a clamped counter moved `moves` times still stands where an unclamped
/// one would, or has met a limit it cannot have come back from.
pub open spec fn counted(count: i64, exact: int, moves: nat) -> bool {
    ||| count == exact
    ||| count + moves >= i64::MAX
    ||| count - moves <= i64::MIN
}

/// XOR of bytes commutes and cancels.
pub proof fn lemma_xor_u8(a: u8, b: u8, c: u8)
    ensures
        (a ^ b) ^ c == (a ^ c) ^ b,
        (a ^ b) ^ b == a,
        a ^ b == b ^ a,
        (a ^ b) ^ c == a ^ (b ^ c),
        a ^ 0 == a,
        0 ^ a == a,
        a ^ a == 0,
{
    assert((a ^ b) ^ c == (a ^ c) ^ b) by (bit_vector);
    assert((a ^ b) ^ b == a) by (bit_vector);
    assert(a ^ b == b ^ a) by (bit_vector);
    assert((a ^ b) ^ c == a ^ (b ^ c)) by (bit_vector);
    assert(a ^ 0 == a) by (bit_vector);
    assert(0 ^ a == a) by (bit_vector);
    assert(a ^ a == 0) by (bit_vector);
}

/// XOR of checksums commutes and cancels.
pub proof fn lemma_xor_u64(a: u64, b: u64, c: u64)
    ensures
        (a ^ b) ^ c == (a ^ c) ^ b,
        (a ^ b) ^ b == a,
        a ^ b == b ^ a,
        (a ^ b) ^ c == a ^ (b ^ c),
        a ^ 0 == a,
        0 ^ a == a,
        a ^ a == 0,
{
    assert((a ^ b) ^ c == (a ^ c) ^ b) by (bit_vector);
    assert((a ^ b) ^ b == a) by (bit_vector);
    assert(a ^ b == b ^ a) by (bit_vector);
    assert((a ^ b) ^ c == a ^ (b ^ c)) by (bit_vector);
    assert(a ^ 0 == a) by (bit_vector);
    assert(0 ^ a == a) by (bit_vector);
    assert(a ^ a == 0) by (bit_vector);
}

/// The order in which two byte strings are XORed in does not matter.
pub proof fn lemma_xor_bytes_swap(a: Seq<u8>, b: Seq<u8>, c: Seq<u8>)
    ensures
        symbol::xor_bytes(symbol::xor_bytes(a, b), c) == symbol::xor_bytes(
            symbol::xor_bytes(a, c),
            b,
        ),
{
    assert forall|i: int| 0 <= i < a.len() implies symbol::xor_bytes(symbol::xor_bytes(a, b), c)[i]
        == symbol::xor_bytes(symbol::xor_bytes(a, c), b)[i] by {
        if i < b.len() && i < c.len() {
            lemma_xor_u8(a[i], b[i], c[i]);
        }
    }
    assert(symbol::xor_bytes(symbol::xor_bytes(a, b), c) =~= symbol::xor_bytes(
        symbol::xor_bytes(a, c),
        b,
    ));
}

/// XORing a byte string in twice changes nothing.
pub proof fn lemma_xor_bytes_cancels(a: Seq<u8>, b: Seq<u8>)
    ensures
        symbol::xor_bytes(symbol::xor_bytes(a, b), b) == a,
{
    assert forall|i: int| 0 <= i < a.len() implies symbol::xor_bytes(symbol::xor_bytes(a, b), b)[i]
        == a[i] by {
        if i < b.len() {
            lemma_xor_u8(a[i], b[i], b[i]);
        }
    }
    assert(symbol::xor_bytes(symbol::xor_bytes(a, b), b) =~= a);
}

/// A fold XORs sums and checksums, whichever its direction.
pub proof fn lemma_folded_parts(
    cell: CellView,
    symbols: Seq<Seq<u8>>,
    direction: i64,
    index: int,
)
    ensures
        window::folded(cell, symbols, direction, index).sum == sum_with(cell.sum, symbols, index),
        window::folded(cell, symbols, direction, index).checksum == checksum_with(
            cell.checksum,
            symbols,
            index,
        ),
    decreases symbols.len(),
{
    if symbols.len() > 0 {
        lemma_folded_parts(cell, symbols.drop_last(), direction, index);
    }
}

/// A fold keeps the width of the cell.
pub proof fn lemma_sum_with_len(sum: Seq<u8>, symbols: Seq<Seq<u8>>, index: int)
    ensures
        sum_with(sum, symbols, index).len() == sum.len(),
    decreases symbols.len(),
{
    if symbols.len() > 0 {
        lemma_sum_with_len(sum, symbols.drop_last(), index);
    }
}

/// A counter moved by one stays accounted for.
pub proof fn lemma_counted_step(count: i64, exact: int, moves: nat, direction: i64)
    requires
        counted(count, exact, moves),
        direction == ADD || direction == REMOVE,
    ensures
        counted(symbol::clamped_add(count, direction), exact + direction, moves + 1),
{
}

/// A fold moves the count by one per member.
pub proof fn lemma_folded_count(
    cell: CellView,
    symbols: Seq<Seq<u8>>,
    direction: i64,
    index: int,
    exact: int,
    moves: nat,
)
    requires
        counted(cell.count, exact, moves),
        direction == ADD || direction == REMOVE,
    ensures
        counted(
            window::folded(cell, symbols, direction, index).count,
            exact + direction * members(symbols, index),
            moves + members(symbols, index),
        ),
    decreases symbols.len(),
{
    if symbols.len() > 0 {
        let rest = symbols.drop_last();
        lemma_folded_count(cell, rest, direction, index, exact, moves);
        let m = members(rest, index);
        assert(direction * (m + 1) == direction * m + direction) by (nonlinear_arith);
        if window::is_member(symbols.last(), index) {
            lemma_counted_step(
                window::folded(cell, rest, direction, index).count,
                exact + direction * m,
                moves + m,
                direction,
            );
        }
    } else {
        assert(direction * 0 == 0) by (nonlinear_arith);
    }
}

/// A byte string XORed in before a fold may as well be XORed in after it.
pub proof fn lemma_sum_with_swap(
    sum: Seq<u8>,
    sym: Seq<u8>,
    symbols: Seq<Seq<u8>>,
    index: int,
)
    ensures
        sum_with(symbol::xor_bytes(sum, sym), symbols, index) == symbol::xor_bytes(
            sum_with(sum, symbols, index),
            sym,
        ),
    decreases symbols.len(),
{
    if symbols.len() > 0 {
        let rest = symbols.drop_last();
        lemma_sum_with_swap(sum, sym, rest, index);
        lemma_xor_bytes_swap(sum_with(sum, rest, index), sym, symbols.last());
    }
}

/// A checksum XORed in before a fold may as well be XORed in after it.
pub proof fn lemma_checksum_with_swap(
    checksum: u64,
    other: u64,
    symbols: Seq<Seq<u8>>,
    index: int,
)
    ensures
        checksum_with(checksum ^ other, symbols, index) == checksum_with(checksum, symbols, index)
            ^ other,
    decreases symbols.len(),
{
    if symbols.len() > 0 {
        let rest = symbols.drop_last();
        lemma_checksum_with_swap(checksum, other, rest, index);
        lemma_xor_u64(
            checksum_with(checksum, rest, index),
            other,
            symbol::checksum_of(symbols.last()),
        );
    }
}

/// Whether `left` is what remains of `given` at `index` once `set` and `need`
/// are taken out of it and `have` is put back.
pub open spec fn accounts_for(
    set: Seq<Seq<u8>>,
    need: Seq<Seq<u8>>,
    have: Seq<Seq<u8>>,
    given: CellView,
    left: CellView,
    index: int,
) -> bool {
    &&& left.sum == sum_with(
        sum_with(sum_with(given.sum, set, index), need, index),
        have,
        index,
    )
    &&& left.checksum == checksum_with(
        checksum_with(checksum_with(given.checksum, set, index), need, index),
        have,
        index,
    )
    &&& counted(
        left.count,
        given.count - members(set, index) - members(need, index) + members(have, index),
        members(set, index) + members(need, index) + members(have, index),
    )
}

/// Whether a difference explains a cell: with `set` and `need` taken out of it
/// and `have` put back, nothing is left.
pub open spec fn explains(
    set: Seq<Seq<u8>>,
    need: Seq<Seq<u8>>,
    have: Seq<Seq<u8>>,
    given: CellView,
    index: int,
) -> bool {
    &&& sum_with(sum_with(sum_with(given.sum, set, index), need, index), have, index)
        == symbol::zero_cell(given.sum.len()).sum
    &&& checksum_with(
        checksum_with(checksum_with(given.checksum, set, index), need, index),
        have,
        index,
    ) == 0
    &&& given.count == members(set, index) + members(need, index) - members(have, index)
}

/// Fewer symbols are members than there are symbols.
pub proof fn lemma_members_bound(symbols: Seq<Seq<u8>>, index: int)
    ensures
        members(symbols, index) <= symbols.len(),
    decreases symbols.len(),
{
    if symbols.len() > 0 {
        lemma_members_bound(symbols.drop_last(), index);
    }
}

/// A cell of which nothing remains is explained.
pub proof fn lemma_empty_is_explained(
    set: Seq<Seq<u8>>,
    need: Seq<Seq<u8>>,
    have: Seq<Seq<u8>>,
    given: CellView,
    left: CellView,
    index: int,
)
    requires
        accounts_for(set, need, have, given, left, index),
        symbol::cell_is_empty(left),
        set.len() + need.len() + have.len() < i64::MAX,
    ensures
        explains(set, need, have, given, index),
{
    lemma_members_bound(set, index);
    lemma_members_bound(need, index);
    lemma_members_bound(have, index);
    lemma_sum_with_len(given.sum, set, index);
    lemma_sum_with_len(sum_with(given.sum, set, index), need, index);
    lemma_sum_with_len(sum_with(sum_with(given.sum, set, index), need, index), have, index);
    assert(left.sum =~= symbol::zero_cell(given.sum.len()).sum);
}

/// Subtracting the set and what was recovered leaves what remains.
pub proof fn lemma_residual_accounts(
    set: Seq<Seq<u8>>,
    need: Seq<Seq<u8>>,
    have: Seq<Seq<u8>>,
    given: CellView,
    index: int,
)
    ensures
        accounts_for(
            set,
            need,
            have,
            given,
            window::folded(
                window::folded(window::folded(given, set, REMOVE, index), need, REMOVE, index),
                have,
                ADD,
                index,
            ),
            index,
        ),
{
    let a = window::folded(given, set, REMOVE, index);
    let b = window::folded(a, need, REMOVE, index);
    lemma_folded_parts(given, set, REMOVE, index);
    lemma_folded_parts(a, need, REMOVE, index);
    lemma_folded_parts(b, have, ADD, index);
    let s = members(set, index);
    let n = members(need, index);
    lemma_folded_count(given, set, REMOVE, index, given.count as int, 0);
    assert(REMOVE * s == -s) by (nonlinear_arith)
        requires
            REMOVE == -1,
    ;
    lemma_folded_count(a, need, REMOVE, index, given.count - s, s);
    assert(REMOVE * n == -n) by (nonlinear_arith)
        requires
            REMOVE == -1,
    ;
    lemma_folded_count(b, have, ADD, index, given.count - s - n, s + n);
}

/// Recovering one more symbol and taking it out of the cells it is a member of
/// keeps every cell accounted for.
pub proof fn lemma_recovery_accounts(
    set: Seq<Seq<u8>>,
    need: Seq<Seq<u8>>,
    have: Seq<Seq<u8>>,
    given: CellView,
    left: CellView,
    index: int,
    sym: Seq<u8>,
    needed: bool,
)
    requires
        accounts_for(set, need, have, given, left, index),
    ensures
        accounts_for(
            set,
            if needed {
                need.push(sym)
            } else {
                need
            },
            if needed {
                have
            } else {
                have.push(sym)
            },
            given,
            if window::is_member(sym, index) {
                symbol::applied(
                    left,
                    sym,
                    if needed {
                        REMOVE
                    } else {
                        ADD
                    },
                )
            } else {
                left
            },
            index,
        ),
{
    let direction = if needed {
        REMOVE
    } else {
        ADD
    };
    let s = members(set, index);
    let n = members(need, index);
    let h = members(have, index);
    lemma_counted_step(left.count, given.count - s - n + h, s + n + h, direction);
    let a = sum_with(given.sum, set, index);
    let c = checksum_with(given.checksum, set, index);
    if needed {
        assert(need.push(sym).drop_last() =~= need);
        lemma_sum_with_swap(sum_with(a, need, index), sym, have, index);
        lemma_checksum_with_swap(
            checksum_with(c, need, index),
            symbol::checksum_of(sym),
            have,
            index,
        );
    } else {
        assert(have.push(sym).drop_last() =~= have);
    }
}

} // verus!
