//! The set of source symbols a stream position is being folded from.
//!
//! Both roles need the same thing: a collection of symbols, each with its own
//! index mapping, and a way to fold every symbol due at the current stream
//! position into one cell in one pass. A min-heap keyed by each symbol's next
//! index gives that in `O(log n)` per fold rather than a scan of the whole set
//! per coded symbol.
use crate::reconcile::engine::riblt::heap;
use crate::reconcile::engine::riblt::heap::MinHeap;
use crate::reconcile::engine::riblt::mapping;
use crate::reconcile::engine::riblt::mapping::RandomMapping;
use crate::reconcile::engine::riblt::symbol;
use crate::reconcile::engine::riblt::symbol::{CellView, CodedSymbol, HashedSymbol};
use vstd::prelude::*;

verus! {

/// Whether a symbol is a member of coded symbol `index`.
pub open spec fn is_member(symbol: Seq<u8>, index: int) -> bool {
    mapping::participates(symbol::checksum_of(symbol), index)
}

/// `cell` with every member of coded symbol `index` among `symbols` added or
/// removed, in order.
pub open spec fn folded(
    cell: CellView,
    symbols: Seq<Seq<u8>>,
    direction: i64,
    index: int,
) -> CellView
    decreases symbols.len(),
{
    if symbols.len() == 0 {
        cell
    } else {
        let prior = folded(cell, symbols.drop_last(), direction, index);
        if is_member(symbols.last(), index) {
            symbol::applied(prior, symbols.last(), direction)
        } else {
            prior
        }
    }
}

/// Symbols that are not members leave a fold unchanged.
proof fn lemma_fold_skips(
    cell: CellView,
    symbols: Seq<Seq<u8>>,
    direction: i64,
    index: int,
    from: int,
    to: int,
)
    requires
        0 <= from <= to <= symbols.len(),
        forall|j: int| from <= j < to ==> !is_member(#[trigger] symbols[j], index),
    ensures
        folded(cell, symbols.take(to), direction, index) == folded(
            cell,
            symbols.take(from),
            direction,
            index,
        ),
    decreases to - from,
{
    if from < to {
        lemma_fold_skips(cell, symbols, direction, index, from, to - 1);
        assert(symbols.take(to).drop_last() =~= symbols.take(to - 1));
        assert(symbols.take(to).last() == symbols[to - 1]);
    }
}

/// The heap entries of a run of mappings: where each stands, and whose it is.
spec fn schedule(mappings: Seq<RandomMapping>) -> Seq<(u64, usize)> {
    Seq::new(mappings.len(), |j: int| (mappings[j].last(), j as usize))
}

/// A heap holds exactly the scheduled entries.
proof fn lemma_schedule_contains(mappings: Seq<RandomMapping>, e: (u64, usize))
    requires
        mappings.len() <= usize::MAX,
    ensures
        schedule(mappings).to_multiset().contains(e) <==> {
            &&& e.1 < mappings.len()
            &&& e.0 == mappings[e.1 as int].last()
        },
{
    broadcast use vstd::seq_lib::group_to_multiset_ensures;

    let s = schedule(mappings);
    if s.to_multiset().contains(e) {
        assert(s.contains(e));
        let j = choose|j: int| 0 <= j < s.len() && s[j] == e;
        assert(e.1 == j);
    }
    if e.1 < mappings.len() && e.0 == mappings[e.1 as int].last() {
        assert(s[e.1 as int] == e);
        assert(s.contains(e));
    }
}

/// Source symbols and their positions in the coded-symbol stream.
pub struct CodingWindow {
    symbols: Vec<HashedSymbol>,
    mappings: Vec<RandomMapping>,
    queue: MinHeap,
    next_index: u64,
}

impl CodingWindow {
    /// The raw symbols held, in the order they were added.
    pub closed spec fn symbols(&self) -> Seq<Seq<u8>> {
        self.symbols@.map_values(|s: HashedSymbol| s@)
    }

    /// The stream position that is folded next.
    pub closed spec fn position(&self) -> u64 {
        self.next_index
    }

    /// Whether every symbol is scheduled at its first index at or above the
    /// current position.
    pub closed spec fn wf(&self) -> bool {
        &&& self.symbols@.len() == self.mappings@.len()
        &&& self.mappings@.len() <= usize::MAX
        &&& self.queue.wf()
        &&& self.queue@ == schedule(self.mappings@).to_multiset()
        &&& forall|j: int|
            0 <= j < self.mappings@.len() ==> mapping::tracks(
                (#[trigger] self.mappings@[j]).prng(),
                self.mappings@[j].last(),
                symbol::checksum_of(self.symbols()[j]),
                self.next_index as int,
            )
    }

    /// An empty window positioned at the start of the stream.
    pub fn new() -> (window: Self)
        ensures
            window.wf(),
            window.symbols() == Seq::<Seq<u8>>::empty(),
            window.position() == 0,
    {
        broadcast use vstd::seq_lib::group_to_multiset_ensures;

        let window = CodingWindow {
            symbols: Vec::new(),
            mappings: Vec::new(),
            queue: MinHeap::new(),
            next_index: 0,
        };
        assert(schedule(window.mappings@).to_multiset() =~= vstd::multiset::Multiset::empty());
        assert(window.symbols() =~= Seq::<Seq<u8>>::empty());
        window
    }

    /// Adds a symbol at the start of the stream.
    pub fn add(&mut self, symbol: HashedSymbol)
        requires
            old(self).wf(),
            old(self).position() == 0,
        ensures
            final(self).wf(),
            final(self).symbols() == old(self).symbols().push(symbol@),
            final(self).position() == 0,
    {
        let mapping = RandomMapping::new(symbol.hash());
        proof {
            mapping::lemma_tracks_from_start(symbol::checksum_of(symbol@));
        }
        self.add_with_mapping(symbol, mapping);
    }

    /// Adds a symbol whose mapping has already been advanced past the cells it
    /// was peeled out of, so it is only folded into cells that arrive later.
    pub fn add_with_mapping(&mut self, symbol: HashedSymbol, mapping: RandomMapping)
        requires
            old(self).wf(),
            mapping::tracks(
                mapping.prng(),
                mapping.last(),
                symbol::checksum_of(symbol@),
                old(self).position() as int,
            ),
        ensures
            final(self).wf(),
            final(self).symbols() == old(self).symbols().push(symbol@),
            final(self).position() == old(self).position(),
    {
        broadcast use vstd::seq_lib::group_to_multiset_ensures;

        let ghost mappings0 = self.mappings@;
        let ghost symbols0 = self.symbols();
        self.queue.push((mapping.index(), self.symbols.len()));
        self.symbols.push(symbol);
        self.mappings.push(mapping);
        proof {
            assert(self.mappings@.len() == self.mappings.len());
            assert(schedule(self.mappings@) =~= schedule(mappings0).push(
                (mapping.last(), mappings0.len() as usize),
            ));
            assert(self.symbols() =~= symbols0.push(symbol@));
            assert forall|j: int| 0 <= j < self.mappings@.len() implies mapping::tracks(
                (#[trigger] self.mappings@[j]).prng(),
                self.mappings@[j].last(),
                symbol::checksum_of(self.symbols()[j]),
                self.next_index as int,
            ) by {
                if j < mappings0.len() {
                    assert(self.mappings@[j] == mappings0[j]);
                    assert(self.symbols()[j] == symbols0[j]);
                }
            }
        }
    }

    /// Folds every symbol due at the current stream position into `cell` and
    /// advances one position.
    pub fn apply(&mut self, cell: &mut CodedSymbol, direction: i64)
        requires
            old(self).wf(),
            old(self).position() < u64::MAX,
        ensures
            final(self).wf(),
            final(self).symbols() == old(self).symbols(),
            final(self).position() == old(self).position() + 1,
            final(cell)@ == folded(
                old(cell)@,
                old(self).symbols(),
                direction,
                old(self).position() as int,
            ),
    {
        let ghost symbols = self.symbols();
        let ghost start = cell@;
        let ghost mut bound: int = 0;
        let position: u64 = self.next_index;
        assert(symbols.take(0) =~= Seq::empty());
        loop
            invariant
                self.next_index == position,
                position < u64::MAX,
                self.symbols@ == old(self).symbols@,
                symbols == self.symbols(),
                self.symbols@.len() == self.mappings@.len(),
                self.mappings@.len() <= usize::MAX,
                self.queue.wf(),
                self.queue@ == schedule(self.mappings@).to_multiset(),
                0 <= bound <= symbols.len(),
                cell@ == folded(start, symbols.take(bound), direction, position as int),
                forall|j: int|
                    0 <= j < self.mappings@.len() ==> mapping::tracks(
                        (#[trigger] self.mappings@[j]).prng(),
                        self.mappings@[j].last(),
                        symbol::checksum_of(symbols[j]),
                        if j < bound {
                            position + 1
                        } else {
                            position as int
                        },
                    ),
            ensures
                self.next_index == position,
                self.symbols@ == old(self).symbols@,
                self.symbols@.len() == self.mappings@.len(),
                self.mappings@.len() <= usize::MAX,
                self.queue.wf(),
                self.queue@ == schedule(self.mappings@).to_multiset(),
                cell@ == folded(start, symbols, direction, position as int),
                forall|j: int|
                    0 <= j < self.mappings@.len() ==> mapping::tracks(
                        (#[trigger] self.mappings@[j]).prng(),
                        self.mappings@[j].last(),
                        symbol::checksum_of(symbols[j]),
                        position + 1,
                    ),
            decreases symbols.len() - bound,
        {
            let top = self.queue.peek();
            let due = match top {
                Some(entry) => entry.0 == position,
                None => false,
            };
            if !due {
                proof {
                    self.lemma_none_due(symbols, top, bound, position);
                    lemma_fold_skips(
                        start,
                        symbols,
                        direction,
                        position as int,
                        bound,
                        symbols.len() as int,
                    );
                    assert(symbols.take(symbols.len() as int) =~= symbols);
                }
                break;
            }
            let source: usize = top.unwrap().1;
            let ghost mappings0 = self.mappings@;
            let ghost queue0 = self.queue@;
            proof {
                lemma_schedule_contains(mappings0, (position, source));
                assert forall|j: int| bound <= j < source implies !is_member(
                    #[trigger] symbols[j],
                    position as int,
                ) && mappings0[j].last() > position by {
                    lemma_schedule_contains(mappings0, (mappings0[j].last(), j as usize));
                    assert(mapping::tracks(
                        mappings0[j].prng(),
                        mappings0[j].last(),
                        symbol::checksum_of(symbols[j]),
                        position as int,
                    ));
                    mapping::lemma_tracks_waiting(
                        mappings0[j].prng(),
                        mappings0[j].last(),
                        symbol::checksum_of(symbols[j]),
                        position as int,
                    );
                }
                assert(source >= bound) by {
                    if source < bound {
                        assert(mapping::tracks(
                            mappings0[source as int].prng(),
                            mappings0[source as int].last(),
                            symbol::checksum_of(symbols[source as int]),
                            position + 1,
                        ));
                    }
                }
                lemma_fold_skips(
                    start,
                    symbols,
                    direction,
                    position as int,
                    bound,
                    source as int,
                );
                mapping::lemma_tracks_advanced(
                    mappings0[source as int].prng(),
                    mappings0[source as int].last(),
                    symbol::checksum_of(symbols[source as int]),
                    position as int,
                );
                assert(symbols.take(source + 1).drop_last() =~= symbols.take(source as int));
                assert(symbols.take(source + 1).last() == symbols[source as int]);
            }
            cell.apply(&self.symbols[source], direction);
            let next: u64 = self.mappings[source].next_index();
            self.queue.replace_top((next, source));
            proof {
                let least = choose|least: (u64, usize)|
                    {
                        &&& #[trigger] queue0.contains(least)
                        &&& forall|e: (u64, usize)| #[trigger]
                            queue0.contains(e) ==> heap::entry_le(least, e)
                        &&& self.queue@ == queue0.remove(least).insert((next, source))
                    };
                assert(queue0.contains((position, source)));
                assert(heap::entry_le(least, (position, source)));
                assert(heap::entry_le((position, source), least));
                assert(least == (position, source));
                vstd::seq_lib::to_multiset_update(schedule(mappings0), source as int, (next, source));
                assert(schedule(self.mappings@) =~= schedule(mappings0).update(
                    source as int,
                    (next, source),
                ));
                assert(schedule(mappings0)[source as int] == (position, source));
                assert(schedule(mappings0).to_multiset().insert((next, source)).remove(
                    (position, source),
                ) =~= queue0.remove((position, source)).insert((next, source)));
                assert forall|j: int| 0 <= j < self.mappings@.len() implies mapping::tracks(
                    (#[trigger] self.mappings@[j]).prng(),
                    self.mappings@[j].last(),
                    symbol::checksum_of(symbols[j]),
                    if j < source + 1 {
                        position + 1
                    } else {
                        position as int
                    },
                ) by {
                    if j != source {
                        assert(self.mappings@[j] == mappings0[j]);
                        assert(mapping::tracks(
                            mappings0[j].prng(),
                            mappings0[j].last(),
                            symbol::checksum_of(symbols[j]),
                            if j < bound {
                                position + 1
                            } else {
                                position as int
                            },
                        ));
                        if bound <= j < source {
                            assert(!is_member(symbols[j], position as int));
                            mapping::lemma_tracks_waiting(
                                mappings0[j].prng(),
                                mappings0[j].last(),
                                symbol::checksum_of(symbols[j]),
                                position as int,
                            );
                        }
                    }
                }
                bound = source + 1;
            }
        }
        self.next_index = self.next_index + 1;
        assert(self.symbols() =~= symbols);
    }

    /// When the least entry is not due, nothing is.
    proof fn lemma_none_due(
        &self,
        symbols: Seq<Seq<u8>>,
        top: Option<(u64, usize)>,
        bound: int,
        position: u64,
    )
        requires
            self.mappings@.len() == symbols.len(),
            self.mappings@.len() <= usize::MAX,
            self.queue@ == schedule(self.mappings@).to_multiset(),
            0 <= bound <= symbols.len(),
            top is None <==> self.queue@ == vstd::multiset::Multiset::<(u64, usize)>::empty(),
            top matches Some(least) ==> {
                &&& self.queue@.contains(least)
                &&& least.0 != position
                &&& forall|e: (u64, usize)| #[trigger]
                    self.queue@.contains(e) ==> heap::entry_le(least, e)
            },
            forall|j: int|
                0 <= j < self.mappings@.len() ==> mapping::tracks(
                    (#[trigger] self.mappings@[j]).prng(),
                    self.mappings@[j].last(),
                    symbol::checksum_of(symbols[j]),
                    if j < bound {
                        position + 1
                    } else {
                        position as int
                    },
                ),
        ensures
            forall|j: int|
                0 <= j < self.mappings@.len() ==> mapping::tracks(
                    (#[trigger] self.mappings@[j]).prng(),
                    self.mappings@[j].last(),
                    symbol::checksum_of(symbols[j]),
                    position + 1,
                ),
            forall|j: int|
                bound <= j < symbols.len() ==> !is_member(#[trigger] symbols[j], position as int),
    {
        assert forall|j: int| bound <= j < symbols.len() implies mapping::tracks(
            self.mappings@[j].prng(),
            self.mappings@[j].last(),
            symbol::checksum_of(symbols[j]),
            position + 1,
        ) && !is_member(#[trigger] symbols[j], position as int) by {
            let e = (self.mappings@[j].last(), j as usize);
            lemma_schedule_contains(self.mappings@, e);
            assert(self.queue@.contains(e));
            assert(top is Some);
            let least = top.unwrap();
            lemma_schedule_contains(self.mappings@, least);
            assert(heap::entry_le(least, e));
            assert(mapping::tracks(
                self.mappings@[least.1 as int].prng(),
                self.mappings@[least.1 as int].last(),
                symbol::checksum_of(symbols[least.1 as int]),
                if least.1 < bound {
                    position + 1
                } else {
                    position as int
                },
            ));
            mapping::lemma_tracks_waiting(
                self.mappings@[j].prng(),
                self.mappings@[j].last(),
                symbol::checksum_of(symbols[j]),
                position as int,
            );
        }
        assert forall|j: int| 0 <= j < self.mappings@.len() implies mapping::tracks(
            (#[trigger] self.mappings@[j]).prng(),
            self.mappings@[j].last(),
            symbol::checksum_of(symbols[j]),
            position + 1,
        ) by {
            if j >= bound {
                assert(!is_member(symbols[j], position as int));
            }
        }
    }

    /// The raw symbols held, in the order they were added.
    pub fn raw_symbols(&self) -> (raw: Vec<&[u8]>)
        ensures
            raw@.map_values(|s: &[u8]| s@) == self.symbols(),
    {
        let mut raw: Vec<&[u8]> = Vec::with_capacity(self.symbols.len());
        let mut i: usize = 0;
        while i < self.symbols.len()
            invariant
                i <= self.symbols@.len(),
                raw@.len() == i,
                forall|j: int| 0 <= j < i ==> (#[trigger] raw@[j])@ == self.symbols@[j]@,
            decreases self.symbols.len() - i,
        {
            raw.push(self.symbols[i].symbol());
            i = i + 1;
        }
        assert(raw@.map_values(|s: &[u8]| s@) =~= self.symbols());
        raw
    }
}

} // verus!
