//! Per-protocol application traffic counters for the P2P transports.
//!
//! A transport binding records every framed message it writes or reads against
//! the protocol that carried it. Control traffic (coordination messages) is
//! kept apart from payload traffic (block transfer) so a sync benchmark can
//! report discovery cost independently of the data it moved.
//!
//! What is counted is the message body and not the bytes the network moved: the
//! 4-byte length prefix, QUIC framing, ALPN negotiation, acknowledgements and
//! retransmissions are all outside these totals. Two nodes' counts are therefore
//! comparable with each other, but they are a floor on link utilisation, not a
//! measurement of it.
use crate::reconcile::bytes;
use vstd::prelude::*;
use vstd::utf8;

verus! {

/// Whether a protocol carries coordination messages or block payload.
#[derive(Clone, Copy, Debug, PartialEq, Eq, PartialOrd, Ord, Structural)]
pub enum TrafficClass {
    /// Coordination messages: requests, replies, gossip.
    Control,
    /// Block transfer.
    Payload,
}

/// Byte and message counts for a single protocol, split by direction.
#[derive(Clone, Copy, Debug, PartialEq, Eq, Structural)]
pub struct ProtocolCounts {
    /// What the protocol carries.
    pub class: TrafficClass,
    /// Bytes written.
    pub bytes_sent: u64,
    /// Bytes read.
    pub bytes_recv: u64,
    /// Messages written.
    pub msgs_sent: u64,
    /// Messages read.
    pub msgs_recv: u64,
}

impl ProtocolCounts {
    /// A protocol that has moved nothing.
    pub fn new(class: TrafficClass) -> (counts: Self)
        ensures
            counts == silent(class),
    {
        ProtocolCounts { class, bytes_sent: 0, bytes_recv: 0, msgs_sent: 0, msgs_recv: 0 }
    }
}

/// A protocol that has moved nothing.
pub open spec fn silent(class: TrafficClass) -> ProtocolCounts {
    ProtocolCounts { class, bytes_sent: 0, bytes_recv: 0, msgs_sent: 0, msgs_recv: 0 }
}

/// Counts after one more message written.
pub open spec fn after_sent(counts: ProtocolCounts, bytes: nat) -> ProtocolCounts {
    ProtocolCounts {
        bytes_sent: (counts.bytes_sent + bytes) as u64,
        msgs_sent: (counts.msgs_sent + 1) as u64,
        ..counts
    }
}

/// Counts after one more message read.
pub open spec fn after_recv(counts: ProtocolCounts, bytes: nat) -> ProtocolCounts {
    ProtocolCounts {
        bytes_recv: (counts.bytes_recv + bytes) as u64,
        msgs_recv: (counts.msgs_recv + 1) as u64,
        ..counts
    }
}

/// A table of counts: protocol identifiers and what each has moved.
pub type CountsView = Seq<(Seq<char>, ProtocolCounts)>;

/// Whether a table lists each protocol once, in the byte order of their
/// identifiers.
pub open spec fn ordered(table: CountsView) -> bool {
    forall|i: int, j: int|
        0 <= i < j < table.len() ==> bytes::lex_lt(
            utf8::encode_utf8((#[trigger] table[i]).0),
            utf8::encode_utf8((#[trigger] table[j]).0),
        )
}

/// What a table says of a protocol.
pub open spec fn counts_of(table: CountsView, protocol: Seq<char>) -> Option<ProtocolCounts>
    decreases table.len(),
{
    if table.len() == 0 {
        None
    } else if table.last().0 == protocol {
        Some(table.last().1)
    } else {
        counts_of(table.drop_last(), protocol)
    }
}

/// What a protocol has moved so far, nothing if it is new.
pub open spec fn so_far(
    table: CountsView,
    protocol: Seq<char>,
    class: TrafficClass,
) -> ProtocolCounts {
    match counts_of(table, protocol) {
        Some(counts) => counts,
        None => silent(class),
    }
}

/// Whether `after` differs from `before` in what it says of one protocol alone.
pub open spec fn changed_only(
    before: CountsView,
    after: CountsView,
    protocol: Seq<char>,
    counts: ProtocolCounts,
) -> bool {
    &&& ordered(after)
    &&& counts_of(after, protocol) == Some(counts)
    &&& forall|other: Seq<char>|
        other != protocol ==> #[trigger] counts_of(after, other) == counts_of(before, other)
}

/// An ordered table says of a protocol what its one entry for it says.
proof fn lemma_counts_at(table: CountsView, i: int)
    requires
        ordered(table),
        0 <= i < table.len(),
    ensures
        counts_of(table, table[i].0) == Some(table[i].1),
    decreases table.len(),
{
    if i < table.len() - 1 {
        let last = table.len() - 1;
        assert(bytes::lex_lt(
            utf8::encode_utf8(table[i].0),
            utf8::encode_utf8(table[last].0),
        ));
        bytes::lemma_lex_irreflexive(utf8::encode_utf8(table[i].0));
        let rest = table.drop_last();
        assert(ordered(rest)) by {
            assert forall|a: int, b: int| 0 <= a < b < rest.len() implies bytes::lex_lt(
                utf8::encode_utf8((#[trigger] rest[a]).0),
                utf8::encode_utf8((#[trigger] rest[b]).0),
            ) by {
                assert(rest[a] == table[a] && rest[b] == table[b]);
            }
        }
        lemma_counts_at(rest, i);
    }
}

/// A table says nothing of a protocol it does not list.
proof fn lemma_counts_missing(table: CountsView, protocol: Seq<char>)
    requires
        forall|i: int| 0 <= i < table.len() ==> (#[trigger] table[i]).0 != protocol,
    ensures
        counts_of(table, protocol) is None,
    decreases table.len(),
{
    if table.len() > 0 {
        let rest = table.drop_last();
        assert forall|i: int| 0 <= i < rest.len() implies (#[trigger] rest[i]).0 != protocol by {
            assert(rest[i] == table[i]);
        }
        assert(table[table.len() - 1].0 != protocol);
        lemma_counts_missing(rest, protocol);
    }
}

/// What a table says of a protocol comes from an entry for it.
proof fn lemma_counts_from(table: CountsView, protocol: Seq<char>) -> (i: int)
    ensures
        counts_of(table, protocol) matches Some(counts) ==> {
            &&& 0 <= i < table.len()
            &&& table[i] == (protocol, counts)
        },
        counts_of(table, protocol) is None ==> forall|k: int|
            0 <= k < table.len() ==> (#[trigger] table[k]).0 != protocol,
    decreases table.len(),
{
    if table.len() == 0 {
        0
    } else if table.last().0 == protocol {
        table.len() - 1
    } else {
        let i = lemma_counts_from(table.drop_last(), protocol);
        assert forall|k: int|
            counts_of(table, protocol) is None && 0 <= k < table.len() implies (
        #[trigger] table[k]).0 != protocol by {
            if k < table.len() - 1 {
                assert(table.drop_last()[k] == table[k]);
            }
        }
        i
    }
}

/// Replacing one entry changes what the table says of that protocol alone.
proof fn lemma_replaced(before: CountsView, i: int, counts: ProtocolCounts)
    requires
        ordered(before),
        0 <= i < before.len(),
    ensures
        changed_only(before, before.update(i, (before[i].0, counts)), before[i].0, counts),
{
    let protocol = before[i].0;
    let after = before.update(i, (protocol, counts));
    assert forall|a: int, b: int| 0 <= a < b < after.len() implies bytes::lex_lt(
        utf8::encode_utf8((#[trigger] after[a]).0),
        utf8::encode_utf8((#[trigger] after[b]).0),
    ) by {
        assert(after[a].0 == before[a].0 && after[b].0 == before[b].0);
    }
    lemma_counts_at(after, i);
    assert forall|other: Seq<char>| other != protocol implies #[trigger] counts_of(after, other)
        == counts_of(before, other) by {
        let k = lemma_counts_from(before, other);
        if counts_of(before, other) is Some {
            assert(after[k] == before[k]);
            lemma_counts_at(after, k);
        } else {
            assert forall|m: int| 0 <= m < after.len() implies (#[trigger] after[m]).0 != other by {
                assert(after[m].0 == before[m].0);
            }
            lemma_counts_missing(after, other);
        }
    }
}

/// Inserting an entry in its place changes what the table says of that protocol
/// alone.
proof fn lemma_inserted(
    before: CountsView,
    i: int,
    protocol: Seq<char>,
    counts: ProtocolCounts,
)
    requires
        ordered(before),
        0 <= i <= before.len(),
        forall|k: int|
            0 <= k < i ==> bytes::lex_lt(
                utf8::encode_utf8((#[trigger] before[k]).0),
                utf8::encode_utf8(protocol),
            ),
        forall|k: int|
            i <= k < before.len() ==> bytes::lex_lt(
                utf8::encode_utf8(protocol),
                utf8::encode_utf8((#[trigger] before[k]).0),
            ),
    ensures
        changed_only(before, before.insert(i, (protocol, counts)), protocol, counts),
        counts_of(before, protocol) is None,
{
    let after = before.insert(i, (protocol, counts));
    bytes::lemma_lex_irreflexive(utf8::encode_utf8(protocol));
    assert forall|k: int| 0 <= k < before.len() implies (#[trigger] before[k]).0 != protocol by {}
    lemma_counts_missing(before, protocol);
    assert forall|a: int, b: int| 0 <= a < b < after.len() implies bytes::lex_lt(
        utf8::encode_utf8((#[trigger] after[a]).0),
        utf8::encode_utf8((#[trigger] after[b]).0),
    ) by {
        let x = if a < i {
            a
        } else {
            a - 1
        };
        let y = if b < i {
            b
        } else {
            b - 1
        };
        if a != i {
            assert(after[a] == before[x]);
        }
        if b != i {
            assert(after[b] == before[y]);
        }
    }
    assert(after[i] == (protocol, counts));
    lemma_counts_at(after, i);
    assert forall|other: Seq<char>| other != protocol implies #[trigger] counts_of(after, other)
        == counts_of(before, other) by {
        let k = lemma_counts_from(before, other);
        if counts_of(before, other) is Some {
            let at = if k < i {
                k
            } else {
                k + 1
            };
            assert(after[at] == before[k]);
            lemma_counts_at(after, at);
        } else {
            assert forall|m: int| 0 <= m < after.len() implies (#[trigger] after[m]).0 != other by {
                if m < i {
                    assert(after[m] == before[m]);
                } else if m > i {
                    assert(after[m] == before[m - 1]);
                }
            }
            lemma_counts_missing(after, other);
        }
    }
}

/// Which count of a protocol is summed.
#[derive(Clone, Copy, Debug, PartialEq, Eq, Structural)]
pub enum Count {
    /// Bytes written.
    BytesSent,
    /// Bytes read.
    BytesRecv,
    /// Messages in both directions.
    Messages,
}

/// One count of a protocol.
pub open spec fn picked(counts: ProtocolCounts, count: Count) -> nat {
    match count {
        Count::BytesSent => counts.bytes_sent as nat,
        Count::BytesRecv => counts.bytes_recv as nat,
        Count::Messages => (counts.msgs_sent + counts.msgs_recv) as nat,
    }
}

/// What a protocol adds to a count of a class.
pub open spec fn share(counts: ProtocolCounts, class: TrafficClass, count: Count) -> nat {
    if counts.class == class {
        picked(counts, count)
    } else {
        0
    }
}

/// A count summed over the protocols of a class.
pub open spec fn total(table: CountsView, class: TrafficClass, count: Count) -> nat
    decreases table.len(),
{
    if table.len() == 0 {
        0
    } else {
        total(table.drop_last(), class, count) + share(table.last().1, class, count)
    }
}

/// A shorter table sums to no more.
proof fn lemma_total_grows(table: CountsView, class: TrafficClass, count: Count, n: int)
    requires
        0 <= n <= table.len(),
    ensures
        total(table.take(n), class, count) <= total(table, class, count),
    decreases table.len(),
{
    if n < table.len() {
        assert(table.drop_last().take(n) =~= table.take(n));
        lemma_total_grows(table.drop_last(), class, count, n);
    } else {
        assert(table.take(n) =~= table);
    }
}

/// Replacing an entry replaces its share of a sum.
proof fn lemma_total_replaced(
    table: CountsView,
    i: int,
    entry: (Seq<char>, ProtocolCounts),
    class: TrafficClass,
    count: Count,
)
    requires
        0 <= i < table.len(),
    ensures
        total(table.update(i, entry), class, count) + share(table[i].1, class, count) == total(
            table,
            class,
            count,
        ) + share(entry.1, class, count),
    decreases table.len(),
{
    if i == table.len() - 1 {
        assert(table.update(i, entry).drop_last() =~= table.drop_last());
    } else {
        lemma_total_replaced(table.drop_last(), i, entry, class, count);
        assert(table.update(i, entry).drop_last() =~= table.drop_last().update(i, entry));
    }
}

/// Inserting an entry adds its share to a sum.
proof fn lemma_total_inserted(
    table: CountsView,
    i: int,
    entry: (Seq<char>, ProtocolCounts),
    class: TrafficClass,
    count: Count,
)
    requires
        0 <= i <= table.len(),
    ensures
        total(table.insert(i, entry), class, count) == total(table, class, count) + share(
            entry.1,
            class,
            count,
        ),
    decreases table.len(),
{
    if i == table.len() {
        assert(table.insert(i, entry).drop_last() =~= table);
    } else {
        lemma_total_inserted(table.drop_last(), i, entry, class, count);
        assert(table.insert(i, entry).drop_last() =~= table.drop_last().insert(i, entry));
        assert(table.insert(i, entry).last() == table.last());
    }
}

/// What an ordered table says of a protocol is what its entry for it says, and
/// nothing if it has none; it has at most one.
pub proof fn lemma_counts_are_the_entries(table: CountsView, protocol: Seq<char>)
    requires
        ordered(table),
    ensures
        counts_of(table, protocol) matches Some(counts) ==> exists|i: int|
            0 <= i < table.len() && #[trigger] table[i] == (protocol, counts),
        counts_of(table, protocol) is None <==> forall|i: int|
            0 <= i < table.len() ==> (#[trigger] table[i]).0 != protocol,
        forall|i: int|
            0 <= i < table.len() && (#[trigger] table[i]).0 == protocol ==> counts_of(
                table,
                protocol,
            ) == Some(table[i].1),
        forall|i: int, j: int|
            0 <= i < j < table.len() ==> (#[trigger] table[i]).0 != (#[trigger] table[j]).0,
{
    let k = lemma_counts_from(table, protocol);
    assert forall|i: int| 0 <= i < table.len() && (#[trigger] table[i]).0 == protocol implies
        counts_of(table, protocol) == Some(table[i].1) by {
        lemma_counts_at(table, i);
    }
    assert forall|i: int, j: int| 0 <= i < j < table.len() implies (#[trigger] table[i]).0 != (
    #[trigger] table[j]).0 by {
        bytes::lemma_lex_irreflexive(utf8::encode_utf8(table[i].0));
    }
}

/// A count of a class is the sum, over the protocols booked under it alone, of what
/// each has moved.
pub proof fn lemma_total_is_the_sum(table: CountsView, class: TrafficClass)
    ensures
        total(table, class, Count::BytesSent) == table.fold_left(
            0nat,
            |sum: nat, entry: (Seq<char>, ProtocolCounts)|
                if entry.1.class == class {
                    sum + entry.1.bytes_sent as nat
                } else {
                    sum
                },
        ),
        total(table, class, Count::BytesRecv) == table.fold_left(
            0nat,
            |sum: nat, entry: (Seq<char>, ProtocolCounts)|
                if entry.1.class == class {
                    sum + entry.1.bytes_recv as nat
                } else {
                    sum
                },
        ),
        total(table, class, Count::Messages) == table.fold_left(
            0nat,
            |sum: nat, entry: (Seq<char>, ProtocolCounts)|
                if entry.1.class == class {
                    sum + entry.1.msgs_sent as nat + entry.1.msgs_recv as nat
                } else {
                    sum
                },
        ),
    decreases table.len(),
{
    if table.len() > 0 {
        lemma_total_is_the_sum(table.drop_last(), class);
    }
}

/// The first message written on a protocol the table does not list books the protocol
/// under the class it was recorded with, with that one message and its bytes.
pub proof fn lemma_first_message_sent(
    before: CountsView,
    after: CountsView,
    protocol: Seq<char>,
    class: TrafficClass,
    bytes: u64,
)
    requires
        changed_only(
            before,
            after,
            protocol,
            after_sent(so_far(before, protocol, class), bytes as nat),
        ),
        counts_of(before, protocol) is None,
    ensures
        counts_of(after, protocol) == Some(
            ProtocolCounts { class, bytes_sent: bytes, bytes_recv: 0, msgs_sent: 1, msgs_recv: 0 },
        ),
        forall|other: Seq<char>|
            other != protocol ==> #[trigger] counts_of(after, other) == counts_of(before, other),
{
}

/// The first message read on a protocol the table does not list books the protocol
/// under the class it was recorded with, with that one message and its bytes.
pub proof fn lemma_first_message_read(
    before: CountsView,
    after: CountsView,
    protocol: Seq<char>,
    class: TrafficClass,
    bytes: u64,
)
    requires
        changed_only(
            before,
            after,
            protocol,
            after_recv(so_far(before, protocol, class), bytes as nat),
        ),
        counts_of(before, protocol) is None,
    ensures
        counts_of(after, protocol) == Some(
            ProtocolCounts { class, bytes_sent: 0, bytes_recv: bytes, msgs_sent: 0, msgs_recv: 1 },
        ),
        forall|other: Seq<char>|
            other != protocol ==> #[trigger] counts_of(after, other) == counts_of(before, other),
{
}

/// A later message adds itself to what its protocol has moved in its direction, leaves
/// the other direction alone, and leaves the class the protocol was first booked
/// under, whichever it names.
pub proof fn lemma_later_message(
    before: CountsView,
    after: CountsView,
    protocol: Seq<char>,
    class: TrafficClass,
    bytes: nat,
    sent: bool,
    known: ProtocolCounts,
)
    requires
        changed_only(
            before,
            after,
            protocol,
            if sent {
                after_sent(so_far(before, protocol, class), bytes)
            } else {
                after_recv(so_far(before, protocol, class), bytes)
            },
        ),
        counts_of(before, protocol) == Some(known),
        sent ==> known.bytes_sent + bytes <= u64::MAX && known.msgs_sent < u64::MAX,
        !sent ==> known.bytes_recv + bytes <= u64::MAX && known.msgs_recv < u64::MAX,
    ensures
        counts_of(after, protocol) matches Some(counts) && {
            &&& counts.class == known.class
            &&& counts.bytes_sent == known.bytes_sent + if sent {
                bytes
            } else {
                0
            }
            &&& counts.msgs_sent == known.msgs_sent + if sent {
                1int
            } else {
                0
            }
            &&& counts.bytes_recv == known.bytes_recv + if sent {
                0
            } else {
                bytes
            }
            &&& counts.msgs_recv == known.msgs_recv + if sent {
                0int
            } else {
                1
            }
        },
{
}

/// A table of entries says what they say, one for one, in their order.
pub proof fn lemma_entries_one_for_one(entries: Seq<(String, ProtocolCounts)>)
    ensures
        table_view(entries).len() == entries.len(),
        forall|i: int|
            0 <= i < entries.len() ==> (#[trigger] table_view(entries)[i]).0 == entries[i].0@
                && table_view(entries)[i].1 == entries[i].1,
{
}

/// What a run of entries says.
pub open spec fn table_view(entries: Seq<(String, ProtocolCounts)>) -> CountsView {
    entries.map_values(|e: (String, ProtocolCounts)| (e.0@, e.1))
}

/// Where a protocol stands in a table, or would stand.
fn position(entries: &Vec<(String, ProtocolCounts)>, protocol: &str) -> (r: (usize, bool))
    requires
        ordered(table_view(entries@)),
    ensures
        ({
            let table = table_view(entries@);
            let (i, found) = r;
            &&& i <= entries@.len()
            &&& found ==> i < entries@.len() && table[i as int].0 == protocol@
            &&& !found ==> {
                &&& forall|k: int|
                    0 <= k < i ==> bytes::lex_lt(
                        utf8::encode_utf8((#[trigger] table[k]).0),
                        utf8::encode_utf8(protocol@),
                    )
                &&& forall|k: int|
                    i <= k < table.len() ==> bytes::lex_lt(
                        utf8::encode_utf8(protocol@),
                        utf8::encode_utf8((#[trigger] table[k]).0),
                    )
            }
        }),
{
    let ghost table = table_view(entries@);
    let wanted = protocol.as_bytes();
    let mut i: usize = 0;
    while i < entries.len()
        invariant
            i <= entries@.len(),
            table == table_view(entries@),
            ordered(table),
            wanted@ == utf8::encode_utf8(protocol@),
            forall|k: int|
                0 <= k < i ==> bytes::lex_lt(
                    utf8::encode_utf8((#[trigger] table[k]).0),
                    utf8::encode_utf8(protocol@),
                ),
        decreases entries.len() - i,
    {
        let name = entries[i].0.as_str().as_bytes();
        proof {
            assert(table[i as int].0 == entries@[i as int].0@);
            utf8::encode_utf8_decode_utf8(protocol@);
            utf8::encode_utf8_decode_utf8(table[i as int].0);
        }
        if bytes::bytes_eq(name, wanted) {
            return (i, true);
        }
        if !bytes::bytes_lt(name, wanted) {
            proof {
                bytes::lemma_lex_total(name@, wanted@);
                assert forall|k: int| i <= k < table.len() implies bytes::lex_lt(
                    utf8::encode_utf8(protocol@),
                    utf8::encode_utf8((#[trigger] table[k]).0),
                ) by {
                    if k > i {
                        bytes::lemma_lex_transitive(
                            wanted@,
                            name@,
                            utf8::encode_utf8(table[k].0),
                        );
                    }
                }
            }
            return (i, false);
        }
        i = i + 1;
    }
    (i, false)
}

/// Copies a table of counts.
fn copy_entries(entries: &Vec<(String, ProtocolCounts)>) -> (protocols: Vec<
    (String, ProtocolCounts),
>)
    ensures
        table_view(protocols@) == table_view(entries@),
{
    let mut protocols: Vec<(String, ProtocolCounts)> = Vec::with_capacity(
        entries.len(),
    );
    let mut i: usize = 0;
    while i < entries.len()
        invariant
            i <= entries@.len(),
            protocols@.len() == i,
            forall|j: int|
                0 <= j < i ==> (#[trigger] protocols@[j]).0@ == entries@[j].0@
                    && protocols@[j].1 == entries@[j].1,
        decreases entries.len() - i,
    {
        protocols.push((entries[i].0.clone(), entries[i].1));
        i = i + 1;
    }
    assert(table_view(protocols@) =~= table_view(entries@));
    protocols
}

/// Accumulates per-protocol application traffic for one node.
#[derive(Debug)]
pub struct TransportCounters {
    protocols: Vec<(String, ProtocolCounts)>,
}

impl View for TransportCounters {
    type V = CountsView;

    closed spec fn view(&self) -> CountsView {
        table_view(self.protocols@)
    }
}

impl Default for TransportCounters {
    fn default() -> (counters: Self)
        ensures
            counters@ == CountsView::empty(),
    {
        TransportCounters::new()
    }
}

impl TransportCounters {
    /// A new, empty counter set ready to hand to a transport.
    pub fn new() -> (counters: Self)
        ensures
            counters@ == CountsView::empty(),
    {
        let counters = TransportCounters { protocols: Vec::new() };
        assert(counters@ =~= CountsView::empty());
        counters
    }

    /// Record one outbound message of `bytes` framed payload. A protocol keeps the
    /// class it was first recorded with, and only the sums of that class move.
    pub fn record_sent(&mut self, protocol: &str, class: TrafficClass, bytes: usize)
        requires
            ordered(old(self)@),
            so_far(old(self)@, protocol@, class).bytes_sent + bytes <= u64::MAX,
            so_far(old(self)@, protocol@, class).msgs_sent < u64::MAX,
        ensures
            changed_only(
                old(self)@,
                final(self)@,
                protocol@,
                after_sent(so_far(old(self)@, protocol@, class), bytes as nat),
            ),
            counts_of(old(self)@, protocol@) is None ==> {
                &&& counts_of(final(self)@, protocol@) == Some(
                    ProtocolCounts {
                        class,
                        bytes_sent: bytes as u64,
                        bytes_recv: 0,
                        msgs_sent: 1,
                        msgs_recv: 0,
                    },
                )
                &&& total(final(self)@, class, Count::BytesSent) == total(
                    old(self)@,
                    class,
                    Count::BytesSent,
                ) + bytes
                &&& total(final(self)@, class, Count::Messages) == total(
                    old(self)@,
                    class,
                    Count::Messages,
                ) + 1
            },
            forall|summed: TrafficClass, count: Count|
                #![trigger total(final(self)@, summed, count)]
                total(final(self)@, summed, count) == total(old(self)@, summed, count) + if summed
                    == so_far(old(self)@, protocol@, class).class {
                    match count {
                        Count::BytesSent => bytes as nat,
                        Count::Messages => 1,
                        _ => 0,
                    }
                } else {
                    0
                },
    {
        let mut counts = self.current(protocol, class);
        counts.bytes_sent = counts.bytes_sent + bytes as u64;
        counts.msgs_sent = counts.msgs_sent + 1;
        self.put(protocol, counts);
    }

    /// Record one inbound message of `bytes` framed payload. A protocol keeps the
    /// class it was first recorded with, and only the sums of that class move.
    pub fn record_recv(&mut self, protocol: &str, class: TrafficClass, bytes: usize)
        requires
            ordered(old(self)@),
            so_far(old(self)@, protocol@, class).bytes_recv + bytes <= u64::MAX,
            so_far(old(self)@, protocol@, class).msgs_recv < u64::MAX,
        ensures
            changed_only(
                old(self)@,
                final(self)@,
                protocol@,
                after_recv(so_far(old(self)@, protocol@, class), bytes as nat),
            ),
            counts_of(old(self)@, protocol@) is None ==> {
                &&& counts_of(final(self)@, protocol@) == Some(
                    ProtocolCounts {
                        class,
                        bytes_sent: 0,
                        bytes_recv: bytes as u64,
                        msgs_sent: 0,
                        msgs_recv: 1,
                    },
                )
                &&& total(final(self)@, class, Count::BytesRecv) == total(
                    old(self)@,
                    class,
                    Count::BytesRecv,
                ) + bytes
                &&& total(final(self)@, class, Count::Messages) == total(
                    old(self)@,
                    class,
                    Count::Messages,
                ) + 1
            },
            forall|summed: TrafficClass, count: Count|
                #![trigger total(final(self)@, summed, count)]
                total(final(self)@, summed, count) == total(old(self)@, summed, count) + if summed
                    == so_far(old(self)@, protocol@, class).class {
                    match count {
                        Count::BytesRecv => bytes as nat,
                        Count::Messages => 1,
                        _ => 0,
                    }
                } else {
                    0
                },
    {
        let mut counts = self.current(protocol, class);
        counts.bytes_recv = counts.bytes_recv + bytes as u64;
        counts.msgs_recv = counts.msgs_recv + 1;
        self.put(protocol, counts);
    }

    /// What is recorded of a protocol.
    pub fn get(&self, protocol: &str) -> (r: Option<ProtocolCounts>)
        requires
            ordered(self@),
        ensures
            r == counts_of(self@, protocol@),
    {
        let (i, found) = position(&self.protocols, protocol);
        if found {
            proof {
                lemma_counts_at(self@, i as int);
            }
            Some(self.protocols[i].1)
        } else {
            proof {
                lemma_inserted(self@, i as int, protocol@, silent(TrafficClass::Control));
            }
            None
        }
    }

    /// What a protocol has moved so far, nothing if it is new.
    fn current(&self, protocol: &str, class: TrafficClass) -> (counts: ProtocolCounts)
        requires
            ordered(self@),
        ensures
            counts == so_far(self@, protocol@, class),
    {
        match self.get(protocol) {
            Some(counts) => counts,
            None => ProtocolCounts::new(class),
        }
    }

    /// Replaces what is recorded of a protocol.
    fn put(&mut self, protocol: &str, counts: ProtocolCounts)
        requires
            ordered(old(self)@),
        ensures
            changed_only(old(self)@, final(self)@, protocol@, counts),
            forall|class: TrafficClass, count: Count|
                #![trigger total(final(self)@, class, count)]
                total(final(self)@, class, count) + match counts_of(old(self)@, protocol@) {
                    Some(before) => share(before, class, count),
                    None => 0,
                } == total(old(self)@, class, count) + share(counts, class, count),
    {
        let (i, found) = position(&self.protocols, protocol);
        if found {
            proof {
                lemma_counts_at(self@, i as int);
                lemma_replaced(self@, i as int, counts);
                assert forall|class: TrafficClass, count: Count| #[trigger] total(
                    self@.update(i as int, (protocol@, counts)),
                    class,
                    count,
                ) + share(self@[i as int].1, class, count) == total(self@, class, count) + share(
                    counts,
                    class,
                    count,
                ) by {
                    lemma_total_replaced(self@, i as int, (protocol@, counts), class, count);
                }
            }
            let name = self.protocols[i].0.clone();
            self.protocols.set(i, (name, counts));
            assert(self@ =~= old(self)@.update(i as int, (protocol@, counts)));
        } else {
            proof {
                lemma_inserted(self@, i as int, protocol@, counts);
                assert forall|class: TrafficClass, count: Count| #[trigger] total(
                    self@.insert(i as int, (protocol@, counts)),
                    class,
                    count,
                ) == total(self@, class, count) + share(counts, class, count) by {
                    lemma_total_inserted(self@, i as int, (protocol@, counts), class, count);
                }
            }
            self.protocols.insert(i, (protocol.to_owned(), counts));
            assert(self@ =~= old(self)@.insert(i as int, (protocol@, counts)));
        }
    }

    /// Drop all accumulated counts, so a benchmark can exclude setup traffic.
    pub fn reset(&mut self)
        ensures
            final(self)@ == CountsView::empty(),
    {
        self.protocols.clear();
        assert(self@ =~= CountsView::empty());
    }

    /// An immutable view of the counts at this instant.
    pub fn snapshot(&self) -> (snapshot: CountersSnapshot)
        ensures
            snapshot@ == self@,
    {
        CountersSnapshot { protocols: copy_entries(&self.protocols) }
    }
}

/// An immutable view of a [`TransportCounters`] at a point in time.
#[derive(Debug, PartialEq, Eq)]
pub struct CountersSnapshot {
    /// Counts by protocol identifier, in deterministic order.
    pub protocols: Vec<(String, ProtocolCounts)>,
}

impl View for CountersSnapshot {
    type V = CountsView;

    open spec fn view(&self) -> CountsView {
        table_view(self.protocols@)
    }
}

/// A snapshot says what its entries say, one for one, in their order.
pub proof fn lemma_snapshot_is_its_entries(snapshot: CountersSnapshot)
    ensures
        snapshot@.len() == snapshot.protocols@.len(),
        forall|i: int|
            0 <= i < snapshot@.len() ==> (#[trigger] snapshot@[i]).0 == snapshot.protocols@[i].0@
                && snapshot@[i].1 == snapshot.protocols@[i].1,
{
}

impl Clone for CountersSnapshot {
    fn clone(&self) -> (copy: Self)
        ensures
            copy@ == self@,
    {
        CountersSnapshot { protocols: copy_entries(&self.protocols) }
    }
}

impl Default for CountersSnapshot {
    fn default() -> (snapshot: Self)
        ensures
            snapshot@ == CountsView::empty(),
    {
        let snapshot = CountersSnapshot { protocols: Vec::new() };
        assert(snapshot@ =~= CountsView::empty());
        snapshot
    }
}

impl CountersSnapshot {
    /// What the snapshot says of a protocol.
    pub fn get(&self, protocol: &str) -> (r: Option<ProtocolCounts>)
        ensures
            r == counts_of(self@, protocol@),
    {
        let ghost table = self@;
        let wanted = protocol.as_bytes();
        let mut i: usize = self.protocols.len();
        assert(table.take(table.len() as int) =~= table);
        while i > 0
            invariant
                i <= self.protocols@.len(),
                table == table_view(self.protocols@),
                wanted@ == utf8::encode_utf8(protocol@),
                counts_of(table, protocol@) == counts_of(table.take(i as int), protocol@),
            decreases i,
        {
            i = i - 1;
            let name = self.protocols[i].0.as_str().as_bytes();
            proof {
                assert(table.take(i + 1).last() == table[i as int]);
                assert(table.take(i + 1).drop_last() =~= table.take(i as int));
                utf8::encode_utf8_decode_utf8(protocol@);
                utf8::encode_utf8_decode_utf8(table[i as int].0);
            }
            if bytes::bytes_eq(name, wanted) {
                return Some(self.protocols[i].1);
            }
        }
        None
    }

    /// A count summed over the protocols of a class.
    fn sum(&self, class: TrafficClass, count: Count) -> (sum: u64)
        requires
            total(self@, class, count) <= u64::MAX,
        ensures
            sum == total(self@, class, count),
    {
        let ghost table = self@;
        let mut sum: u64 = 0;
        let mut i: usize = 0;
        assert(table.take(0) =~= Seq::empty());
        while i < self.protocols.len()
            invariant
                i <= self.protocols@.len(),
                table == table_view(self.protocols@),
                total(table, class, count) <= u64::MAX,
                sum == total(table.take(i as int), class, count),
            decreases self.protocols.len() - i,
        {
            let counts = self.protocols[i].1;
            proof {
                assert(table.take(i + 1).last() == table[i as int]);
                assert(table.take(i + 1).drop_last() =~= table.take(i as int));
                lemma_total_grows(table, class, count, i + 1);
            }
            if counts.class == class {
                let value: u64 = match count {
                    Count::BytesSent => counts.bytes_sent,
                    Count::BytesRecv => counts.bytes_recv,
                    Count::Messages => counts.msgs_sent + counts.msgs_recv,
                };
                sum = sum + value;
            }
            i = i + 1;
        }
        assert(table.take(i as int) =~= table);
        sum
    }

    /// Control bytes written.
    pub fn control_bytes_sent(&self) -> (sum: u64)
        requires
            total(self@, TrafficClass::Control, Count::BytesSent) <= u64::MAX,
        ensures
            sum == total(self@, TrafficClass::Control, Count::BytesSent),
    {
        self.sum(TrafficClass::Control, Count::BytesSent)
    }

    /// Control bytes read.
    pub fn control_bytes_recv(&self) -> (sum: u64)
        requires
            total(self@, TrafficClass::Control, Count::BytesRecv) <= u64::MAX,
        ensures
            sum == total(self@, TrafficClass::Control, Count::BytesRecv),
    {
        self.sum(TrafficClass::Control, Count::BytesRecv)
    }

    /// Control messages in both directions.
    pub fn control_msgs(&self) -> (sum: u64)
        requires
            total(self@, TrafficClass::Control, Count::Messages) <= u64::MAX,
        ensures
            sum == total(self@, TrafficClass::Control, Count::Messages),
    {
        self.sum(TrafficClass::Control, Count::Messages)
    }

    /// Payload bytes written.
    pub fn payload_bytes_sent(&self) -> (sum: u64)
        requires
            total(self@, TrafficClass::Payload, Count::BytesSent) <= u64::MAX,
        ensures
            sum == total(self@, TrafficClass::Payload, Count::BytesSent),
    {
        self.sum(TrafficClass::Payload, Count::BytesSent)
    }

    /// Payload bytes read.
    pub fn payload_bytes_recv(&self) -> (sum: u64)
        requires
            total(self@, TrafficClass::Payload, Count::BytesRecv) <= u64::MAX,
        ensures
            sum == total(self@, TrafficClass::Payload, Count::BytesRecv),
    {
        self.sum(TrafficClass::Payload, Count::BytesRecv)
    }
}

} // verus!
