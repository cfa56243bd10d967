//! How requests and coded symbols travel: the shape of a RIBLT message on the
//! wire.
//!
//! ```text
//! message = { "Request": { "symbols": u32, "width": u16 } }
//!         / { "Symbols": { "width": u16, "symbols": [ cell* ] } }
//! cell    = { "sum": bytes, "checksum": u64, "count": i64 }
//! ```
//!
//! A reader also takes the two fields of a message as the first items of an
//! array, in the order above.
use crate::reconcile::bytes;
use crate::reconcile::cbor;
use crate::reconcile::cbor::{CborView, Listed, Node, Part};
use crate::reconcile::codec::{MessageKind, WireMessage};
use crate::reconcile::engine::riblt::decoder;
use crate::reconcile::engine::riblt::message::{RibltMessage, RibltMessageView};
use crate::reconcile::engine::riblt::symbol::{CellView, CodedSymbol};
use ciborium::Value;
use vstd::prelude::*;
use vstd::utf8;

verus! {

/// The item a cell is written as.
pub open spec fn cell_written(cell: CellView) -> CborView {
    CborView::Table(
        seq![
            cbor::entry("sum"@, CborView::Bytes(cell.sum)),
            cbor::entry("checksum"@, CborView::Integer(cell.checksum as int)),
            cbor::entry("count"@, CborView::Integer(cell.count as int)),
        ],
    )
}

/// The cell an item is read as.
pub open spec fn cell_read(item: CborView) -> Option<CellView> {
    match cbor::record_of(item) {
        Some(entries) => match (
            cbor::field(entries, "sum"@),
            cbor::field(entries, "checksum"@),
            cbor::field(entries, "count"@),
        ) {
            (Some(sum), Some(checksum), Some(count)) => match (
                cbor::bytes_of(sum),
                cbor::integer_in(checksum, 0, u64::MAX as int),
                cbor::integer_in(count, i64::MIN as int, i64::MAX as int),
            ) {
                (Some(sum), Some(checksum), Some(count)) => Some(
                    CellView { sum, checksum: checksum as u64, count: count as i64 },
                ),
                _ => None,
            },
            _ => None,
        },
        None => None,
    }
}

/// A cell reads back as it was written.
proof fn lemma_cell_round_trip(cell: CellView)
    ensures
        cell_read(cell_written(cell)) == Some(cell),
        cbor::plain(cell_written(cell), 2),
{
    reveal_strlit("sum");
    reveal_strlit("checksum");
    reveal_strlit("count");
    assert("sum"@.len() == 3 && "checksum"@.len() == 8 && "count"@.len() == 5);
    cbor::lemma_record3(
        "sum"@,
        CborView::Bytes(cell.sum),
        "checksum"@,
        CborView::Integer(cell.checksum as int),
        "count"@,
        CborView::Integer(cell.count as int),
    );
    reveal_with_fuel(cbor::plain, 2);
}

/// Writes a cell.
fn write_cell(cell: &CodedSymbol) -> (item: Value)
    ensures
        cbor::content(item) == cell_written(cell@),
{
    cbor::build_record3(
        cbor::build_entry("sum", cbor::build(Part::Bytes(bytes::bytes_copy(cell.sum())))),
        cbor::build_entry("checksum", cbor::build(Part::Unsigned(cell.checksum()))),
        cbor::build_entry("count", cbor::build(Part::Signed(cell.count()))),
    )
}

/// Reads a cell.
fn read_cell(item: &Value) -> (r: Option<CodedSymbol>)
    ensures
        match r {
            Some(cell) => cell_read(cbor::content(*item)) == Some(cell@),
            None => cell_read(cbor::content(*item)) is None,
        },
{
    let entries = match cbor::read_record(item) {
        Some(entries) => entries,
        None => {
            return None;
        },
    };
    match (
        cbor::read_field(entries, "sum"),
        cbor::read_field(entries, "checksum"),
        cbor::read_field(entries, "count"),
    ) {
        (Some(sum), Some(checksum), Some(count)) => match (
            cbor::read_bytes(sum),
            cbor::read_integer(checksum, 0, u64::MAX as i128),
            cbor::read_integer(count, i64::MIN as i128, i64::MAX as i128),
        ) {
            (Some(sum), Some(checksum), Some(count)) => Some(
                CodedSymbol::new(sum, checksum as u64, count as i64),
            ),
            _ => None,
        },
        _ => None,
    }
}

/// The items a run of cells is written as.
pub open spec fn cells_written(cells: Seq<CellView>) -> Seq<CborView> {
    cells.map_values(|cell: CellView| cell_written(cell))
}

/// The cells a run of items is read as: each has to be a cell.
pub open spec fn cells_read(items: Seq<CborView>) -> Option<Seq<CellView>> {
    if forall|i: int| 0 <= i < items.len() ==> cell_read(#[trigger] items[i]) is Some {
        Some(items.map_values(|item: CborView| cell_read(item)->Some_0))
    } else {
        None
    }
}

/// Cells read back as they were written.
proof fn lemma_cells_round_trip(cells: Seq<CellView>)
    ensures
        cells_read(cells_written(cells)) == Some(cells),
        cbor::list_of(CborView::Array(cells_written(cells))) == Some(cells_written(cells)),
        cbor::plain(CborView::Array(cells_written(cells)), 3),
{
    let items = cells_written(cells);
    assert forall|i: int| 0 <= i < items.len() implies cell_read(#[trigger] items[i]) == Some(
        cells[i],
    ) && cbor::plain(items[i], 2) by {
        lemma_cell_round_trip(cells[i]);
    }
    assert(cells_read(items)->Some_0 =~= cells);
}

/// Writes a run of cells.
fn write_cells(cells: &Vec<CodedSymbol>) -> (items: Vec<Value>)
    ensures
        cbor::contents(items@) == cells_written(decoder::cell_views(cells@)),
{
    let mut items: Vec<Value> = Vec::with_capacity(cells.len());
    let mut i: usize = 0;
    while i < cells.len()
        invariant
            i <= cells@.len(),
            items@.len() == i,
            forall|j: int|
                0 <= j < i ==> cbor::content(#[trigger] items@[j]) == cell_written(cells@[j]@),
        decreases cells.len() - i,
    {
        items.push(write_cell(&cells[i]));
        i = i + 1;
    }
    assert(cbor::contents(items@) =~= cells_written(decoder::cell_views(cells@)));
    items
}

/// Reads a run of cells.
fn read_cells(list: Listed<'_>) -> (r: Option<Vec<CodedSymbol>>)
    ensures
        match r {
            Some(cells) => cells_read(cbor::listed_contents(list)) == Some(
                decoder::cell_views(cells@),
            ),
            None => cells_read(cbor::listed_contents(list)) is None,
        },
{
    let ghost views = cbor::listed_contents(list);
    let mut cells: Vec<CodedSymbol> = Vec::new();
    match list {
        Listed::Nothing => {},
        Listed::Items(items) => {
            let mut i: usize = 0;
            while i < items.len()
                invariant
                    i <= items@.len(),
                    views == cbor::contents(items@),
                    views == cbor::listed_contents(list),
                    cells@.len() == i,
                    forall|j: int|
                        0 <= j < i ==> cell_read(#[trigger] views[j]) == Some(cells@[j]@),
                decreases items.len() - i,
            {
                assert(views[i as int] == cbor::content(items@[i as int]));
                match read_cell(&items[i]) {
                    Some(cell) => {
                        cells.push(cell);
                    },
                    None => {
                        assert(cell_read(views[i as int]) is None);
                        return None;
                    },
                }
                i = i + 1;
            }
        },
    }
    assert(cells_read(views)->Some_0 =~= decoder::cell_views(cells@));
    Some(cells)
}

/// The two fields a variant carries: under their names in a record, or first in
/// an array.
pub open spec fn pair_of(carried: CborView, a: Seq<char>, b: Seq<char>) -> Option<
    (CborView, CborView),
> {
    match carried {
        CborView::Table(entries) => if cbor::all_named(entries) {
            match (cbor::field(entries, a), cbor::field(entries, b)) {
                (Some(x), Some(y)) => Some((x, y)),
                _ => None,
            }
        } else {
            None
        },
        CborView::Array(items) => if items.len() >= 2 {
            Some((items[0], items[1]))
        } else {
            None
        },
        _ => None,
    }
}

/// Reads the two fields a variant carries.
fn read_pair<'a>(carried: &'a Value, a: &str, b: &str) -> (r: Option<(&'a Value, &'a Value)>)
    ensures
        match r {
            Some((x, y)) => pair_of(cbor::content(*carried), a@, b@) == Some(
                (cbor::content(*x), cbor::content(*y)),
            ),
            None => pair_of(cbor::content(*carried), a@, b@) is None,
        },
{
    match cbor::open(carried) {
        Node::Table(entries) => {
            if !cbor::entries_named(entries) {
                return None;
            }
            match (cbor::read_field(entries, a), cbor::read_field(entries, b)) {
                (Some(x), Some(y)) => Some((x, y)),
                _ => None,
            }
        },
        Node::Array(items) => {
            if items.len() >= 2 {
                proof {
                    assert(cbor::contents(items@)[0] == cbor::content(items@[0]));
                    assert(cbor::contents(items@)[1] == cbor::content(items@[1]));
                }
                Some((&items[0], &items[1]))
            } else {
                None
            }
        },
        _ => None,
    }
}

/// The item a message is written as.
pub open spec fn message_written(message: RibltMessageView) -> CborView {
    match message {
        RibltMessageView::Request { symbols, width } => CborView::Table(
            seq![
                cbor::entry(
                    "Request"@,
                    CborView::Table(
                        seq![
                            cbor::entry("symbols"@, CborView::Integer(symbols as int)),
                            cbor::entry("width"@, CborView::Integer(width as int)),
                        ],
                    ),
                ),
            ],
        ),
        RibltMessageView::Symbols { width, symbols } => CborView::Table(
            seq![
                cbor::entry(
                    "Symbols"@,
                    CborView::Table(
                        seq![
                            cbor::entry("width"@, CborView::Integer(width as int)),
                            cbor::entry("symbols"@, CborView::Array(cells_written(symbols))),
                        ],
                    ),
                ),
            ],
        ),
    }
}

/// The message an item is read as.
pub open spec fn message_read(item: CborView) -> Option<RibltMessageView> {
    match cbor::variant_of(item) {
        Some((name, Some(carried))) => if name == utf8::encode_utf8("Request"@) {
            match pair_of(carried, "symbols"@, "width"@) {
                Some((symbols, width)) => match (
                    cbor::integer_in(symbols, 0, u32::MAX as int),
                    cbor::integer_in(width, 0, u16::MAX as int),
                ) {
                    (Some(symbols), Some(width)) => Some(
                        RibltMessageView::Request { symbols: symbols as u32, width: width as u16 },
                    ),
                    _ => None,
                },
                None => None,
            }
        } else if name == utf8::encode_utf8("Symbols"@) {
            match pair_of(carried, "width"@, "symbols"@) {
                Some((width, symbols)) => match (
                    cbor::integer_in(width, 0, u16::MAX as int),
                    cbor::list_of(symbols),
                ) {
                    (Some(width), Some(items)) => match cells_read(items) {
                        Some(cells) => Some(
                            RibltMessageView::Symbols { width: width as u16, symbols: cells },
                        ),
                        None => None,
                    },
                    _ => None,
                },
                None => None,
            }
        } else {
            None
        },
        _ => None,
    }
}

/// Requests and batches survive the wire: a message reads back as it was
/// written.
pub proof fn lemma_message_round_trip(message: RibltMessageView)
    ensures
        message_read(message_written(message)) == Some(message),
        cbor::plain(message_written(message), cbor::MAX_DEPTH as nat),
{
    reveal_strlit("Request");
    reveal_strlit("Symbols");
    reveal_strlit("symbols");
    reveal_strlit("width");
    assert("Request"@.len() == 7 && "Symbols"@.len() == 7);
    assert("symbols"@.len() == 7 && "width"@.len() == 5);
    assert("Request"@[0] != "Symbols"@[0]);
    cbor::lemma_names_differ("Request"@, "Symbols"@);
    match message {
        RibltMessageView::Request { symbols, width } => {
            let x = CborView::Integer(symbols as int);
            let y = CborView::Integer(width as int);
            let fields = seq![cbor::entry("symbols"@, x), cbor::entry("width"@, y)];
            cbor::lemma_record2("symbols"@, x, "width"@, y);
            cbor::lemma_record1("Request"@, CborView::Table(fields));
            reveal_with_fuel(cbor::plain, 3);
            assert(cbor::plain(CborView::Table(fields), 15));
            lemma_plain_entry("Request"@, CborView::Table(fields));
        },
        RibltMessageView::Symbols { width, symbols } => {
            let x = CborView::Integer(width as int);
            let y = CborView::Array(cells_written(symbols));
            let fields = seq![cbor::entry("width"@, x), cbor::entry("symbols"@, y)];
            cbor::lemma_record2("width"@, x, "symbols"@, y);
            cbor::lemma_record1("Symbols"@, CborView::Table(fields));
            lemma_cells_round_trip(symbols);
            cbor::lemma_plain_deeper(y, 3, 14);
            assert(cbor::plain(x, 14));
            assert forall|i: int| 0 <= i < fields.len() implies {
                &&& cbor::plain((#[trigger] fields[i]).0, 14)
                &&& cbor::plain(fields[i].1, 14)
            } by {}
            assert(cbor::plain(CborView::Table(fields), 15));
            lemma_plain_entry("Symbols"@, CborView::Table(fields));
        },
    }
}

/// A record of one plain field is plain.
proof fn lemma_plain_entry(name: Seq<char>, value: CborView)
    requires
        cbor::plain(value, 15),
    ensures
        cbor::plain(CborView::Table(seq![cbor::entry(name, value)]), 16),
{
    let entries = seq![cbor::entry(name, value)];
    assert forall|i: int| 0 <= i < entries.len() implies {
        &&& cbor::plain((#[trigger] entries[i]).0, 15)
        &&& cbor::plain(entries[i].1, 15)
    } by {}
}

/// What an item is read as a cell is what its three fields say.
pub proof fn lemma_cell_is_what_its_fields_say(item: CborView, cell: CellView)
    ensures
        cell_read(item) == Some(cell) <==> {
            &&& cbor::record_of(item) matches Some(entries)
            &&& cbor::field(entries, "sum"@) matches Some(sum)
            &&& cbor::field(entries, "checksum"@) matches Some(checksum)
            &&& cbor::field(entries, "count"@) matches Some(count)
            &&& cbor::bytes_of(sum) == Some(cell.sum)
            &&& cbor::integer_of(checksum) == Some(cell.checksum as int)
            &&& cbor::integer_of(count) == Some(cell.count as int)
        },
{
}

/// Two fields that travel together are found under their names, or as the first two of
/// an array.
pub proof fn lemma_pairs_are_found(
    entries: Seq<(CborView, CborView)>,
    items: Seq<CborView>,
    a: Seq<char>,
    b: Seq<char>,
    x: CborView,
    y: CborView,
)
    ensures
        pair_of(CborView::Array(items), a, b) == Some((x, y)) <==> items.len() >= 2 && items[0]
            == x && items[1] == y,
        pair_of(CborView::Table(entries), a, b) == Some((x, y)) <==> {
            &&& forall|i: int|
                0 <= i < entries.len() ==> cbor::name_of((#[trigger] entries[i]).0) is Some
            &&& cbor::field(entries, a) == Some(x)
            &&& cbor::field(entries, b) == Some(y)
        },
{
}

/// An item is a request exactly if it is the variant of that name with a number of cells
/// and a width, and a batch exactly if it is the variant of that name with a width and a
/// list each item of which is a cell.
pub proof fn lemma_message_is_what_it_carries(
    item: CborView,
    wanted: u32,
    width: u16,
    cells: Seq<CellView>,
)
    ensures
        <RibltMessage as WireMessage>::read(item) == Some(
            RibltMessageView::Request { symbols: wanted, width },
        ) <==> {
            &&& cbor::variant_of(item) matches Some((name, Some(carried)))
            &&& name == utf8::encode_utf8("Request"@)
            &&& pair_of(carried, "symbols"@, "width"@) matches Some((x, y))
            &&& cbor::integer_of(x) == Some(wanted as int)
            &&& cbor::integer_of(y) == Some(width as int)
        },
        <RibltMessage as WireMessage>::read(item) == Some(
            RibltMessageView::Symbols { width, symbols: cells },
        ) <==> {
            &&& cbor::variant_of(item) matches Some((name, Some(carried)))
            &&& name == utf8::encode_utf8("Symbols"@)
            &&& pair_of(carried, "width"@, "symbols"@) matches Some((x, y))
            &&& cbor::integer_of(x) == Some(width as int)
            &&& cbor::list_of(y) matches Some(items)
            &&& items.len() == cells.len()
            &&& forall|i: int|
                0 <= i < items.len() ==> cell_read(#[trigger] items[i]) == Some(cells[i])
        },
{
    reveal_strlit("Request");
    reveal_strlit("Symbols");
    assert("Request"@[0] != "Symbols"@[0]);
    cbor::lemma_names_differ("Request"@, "Symbols"@);
    if let Some((name, Some(carried))) = cbor::variant_of(item) {
        if let Some((x, y)) = pair_of(carried, "width"@, "symbols"@) {
            if let Some(items) = cbor::list_of(y) {
                lemma_cells_are_read_one_for_one(items, cells);
            }
        }
    }
}

/// A run of items is read as cells exactly if each is read as its own.
proof fn lemma_cells_are_read_one_for_one(items: Seq<CborView>, cells: Seq<CellView>)
    ensures
        cells_read(items) == Some(cells) <==> items.len() == cells.len() && forall|i: int|
            0 <= i < items.len() ==> cell_read(#[trigger] items[i]) == Some(cells[i]),
{
    if items.len() == cells.len() && forall|i: int|
        0 <= i < items.len() ==> cell_read(#[trigger] items[i]) == Some(cells[i]) {
        assert(cells_read(items)->Some_0 =~= cells);
    }
}

/// A message is a map of one entry. A request carries the number of cells wanted and
/// the width; a batch carries the width and the cells, each a map of its sum, its
/// checksum and its count.
pub proof fn lemma_message_layout(wanted: u32, width: u16, cells: Seq<CellView>)
    ensures
        <RibltMessage as WireMessage>::wire_kind() is RibltSymbols,
        <RibltMessage as WireMessage>::written(RibltMessageView::Request { symbols: wanted, width })
            == CborView::Table(
            seq![
                (
                    CborView::Text("Request"@),
                    CborView::Table(
                        seq![
                            (CborView::Text("symbols"@), CborView::Integer(wanted as int)),
                            (CborView::Text("width"@), CborView::Integer(width as int)),
                        ],
                    ),
                ),
            ],
        ),
        <RibltMessage as WireMessage>::written(RibltMessageView::Symbols { width, symbols: cells })
            == CborView::Table(
            seq![
                (
                    CborView::Text("Symbols"@),
                    CborView::Table(
                        seq![
                            (CborView::Text("width"@), CborView::Integer(width as int)),
                            (
                                CborView::Text("symbols"@),
                                CborView::Array(
                                    Seq::new(
                                        cells.len(),
                                        |i: int|
                                            CborView::Table(
                                                seq![
                                                    (
                                                        CborView::Text("sum"@),
                                                        CborView::Bytes(cells[i].sum),
                                                    ),
                                                    (
                                                        CborView::Text("checksum"@),
                                                        CborView::Integer(cells[i].checksum as int),
                                                    ),
                                                    (
                                                        CborView::Text("count"@),
                                                        CborView::Integer(cells[i].count as int),
                                                    ),
                                                ],
                                            ),
                                    ),
                                ),
                            ),
                        ],
                    ),
                ),
            ],
        ),
{
    let items = Seq::new(
        cells.len(),
        |i: int|
            CborView::Table(
                seq![
                    (CborView::Text("sum"@), CborView::Bytes(cells[i].sum)),
                    (CborView::Text("checksum"@), CborView::Integer(cells[i].checksum as int)),
                    (CborView::Text("count"@), CborView::Integer(cells[i].count as int)),
                ],
            ),
    );
    assert(cells_written(cells) =~= items);
}

impl WireMessage for RibltMessage {
    open spec fn wire_kind() -> MessageKind {
        MessageKind::RibltSymbols
    }

    open spec fn written(message: RibltMessageView) -> CborView {
        message_written(message)
    }

    open spec fn read(item: CborView) -> Option<RibltMessageView> {
        message_read(item)
    }

    fn kind() -> (kind: MessageKind) {
        MessageKind::RibltSymbols
    }

    fn to_item(&self) -> (item: Value) {
        proof {
            lemma_message_round_trip(self@);
        }
        match self {
            RibltMessage::Request { symbols, width } => cbor::build_record1(
                cbor::build_entry(
                    "Request",
                    cbor::build_record2(
                        cbor::build_entry(
                            "symbols",
                            cbor::build(Part::Unsigned(*symbols as u64)),
                        ),
                        cbor::build_entry("width", cbor::build(Part::Unsigned(*width as u64))),
                    ),
                ),
            ),
            RibltMessage::Symbols { width, symbols } => cbor::build_record1(
                cbor::build_entry(
                    "Symbols",
                    cbor::build_record2(
                        cbor::build_entry("width", cbor::build(Part::Unsigned(*width as u64))),
                        cbor::build_entry(
                            "symbols",
                            cbor::build(Part::Array(write_cells(symbols))),
                        ),
                    ),
                ),
            ),
        }
    }

    fn from_item(item: &Value) -> (r: Option<Self>) {
        let (name, carried) = match cbor::read_variant(item) {
            Some((name, Some(carried))) => (name, carried),
            _ => {
                return None;
            },
        };
        if bytes::bytes_eq(name, "Request".as_bytes()) {
            match read_pair(carried, "symbols", "width") {
                Some((symbols, width)) => match (
                    cbor::read_integer(symbols, 0, u32::MAX as i128),
                    cbor::read_integer(width, 0, u16::MAX as i128),
                ) {
                    (Some(symbols), Some(width)) => Some(
                        RibltMessage::Request { symbols: symbols as u32, width: width as u16 },
                    ),
                    _ => None,
                },
                None => None,
            }
        } else if bytes::bytes_eq(name, "Symbols".as_bytes()) {
            match read_pair(carried, "width", "symbols") {
                Some((width, symbols)) => match (
                    cbor::read_integer(width, 0, u16::MAX as i128),
                    cbor::read_list(symbols),
                ) {
                    (Some(width), Some(list)) => match read_cells(list) {
                        Some(cells) => Some(
                            RibltMessage::Symbols { width: width as u16, symbols: cells },
                        ),
                        None => None,
                    },
                    _ => None,
                },
                None => None,
            }
        } else {
            None
        }
    }
}

} // verus!
