//! What a rateless engine says always fits a frame.
use crate::reconcile::cbor;
use crate::reconcile::cbor::CborView;
use crate::reconcile::codec::{FRAME_OVERHEAD, MAX_FRAME_BYTES};
use crate::reconcile::engine::riblt::caps;
use crate::reconcile::engine::riblt::encoder;
use crate::reconcile::engine::riblt::engine as riblt_engine;
use crate::reconcile::engine::riblt::engine::{RibltView, RoleView};
use crate::reconcile::engine::riblt::message::RibltMessageView;
use crate::reconcile::engine::riblt::sketch;
use crate::reconcile::engine::riblt::symbol;
use crate::reconcile::engine::riblt::symbol::{CellView, ADD};
use crate::reconcile::engine::riblt::wire;
use vstd::prelude::*;

verus! {

/// Whether a message holds no more cells, and none wider, than a frame may carry.
pub open spec fn modest(message: RibltMessageView) -> bool {
    match message {
        RibltMessageView::Request { .. } => true,
        RibltMessageView::Symbols { symbols, .. } => {
            &&& symbols.len() <= caps::MAX_SYMBOL_BATCH
            &&& forall|i: int|
                0 <= i < symbols.len() ==> (#[trigger] symbols[i]).sum.len()
                    <= caps::MAX_SYMBOL_BYTES
        },
    }
}

/// Whether an engine reconciles within the width cap and says only what a frame
/// may carry.
pub open spec fn soft_spoken(v: RibltView) -> bool {
    &&& v.width <= caps::MAX_SYMBOL_BYTES
    &&& v.pending matches Some(message) ==> modest(message)
}

/// Whether a message is sure to encode.
pub open spec fn fits(message: RibltMessageView) -> bool {
    cbor::bulk(wire::message_written(message)) + FRAME_OVERHEAD <= MAX_FRAME_BYTES
}

/// Most bytes a cell takes besides its sum.
pub const CELL_OVERHEAD: usize = 47;

/// A cell takes little more than its sum.
proof fn lemma_cell_bulk(cell: CellView)
    ensures
        cbor::bulk(wire::cell_written(cell)) <= CELL_OVERHEAD + cell.sum.len(),
{
    reveal_strlit("sum");
    reveal_strlit("checksum");
    reveal_strlit("count");
    assert(cbor::short("sum"@) && cbor::short("checksum"@) && cbor::short("count"@));
    let sum = CborView::Bytes(cell.sum);
    let checksum = CborView::Integer(cell.checksum as int);
    let count = CborView::Integer(cell.count as int);
    let one = seq![cbor::entry("sum"@, sum)];
    let two = one.push(cbor::entry("checksum"@, checksum));
    cbor::lemma_bulk1("sum"@, sum);
    cbor::lemma_bulk_push(one, "checksum"@, checksum);
    cbor::lemma_bulk_push(two, "count"@, count);
    assert(two.push(cbor::entry("count"@, count)) =~= seq![
        cbor::entry("sum"@, sum),
        cbor::entry("checksum"@, checksum),
        cbor::entry("count"@, count),
    ]);
}

/// What a variant that carries two fields takes.
proof fn lemma_variant_bulk(
    variant: Seq<char>,
    first: Seq<char>,
    x: CborView,
    second: Seq<char>,
    y: CborView,
)
    requires
        cbor::short(variant),
        cbor::short(first),
        cbor::short(second),
    ensures
        cbor::bulk(
            CborView::Table(
                seq![
                    cbor::entry(
                        variant,
                        CborView::Table(seq![cbor::entry(first, x), cbor::entry(second, y)]),
                    ),
                ],
            ),
        ) == 5 + variant.len() + first.len() + second.len() + cbor::bulk(x) + cbor::bulk(y),
{
    let one = seq![cbor::entry(first, x)];
    let fields = seq![cbor::entry(first, x), cbor::entry(second, y)];
    cbor::lemma_bulk1(first, x);
    cbor::lemma_bulk_push(one, second, y);
    assert(one.push(cbor::entry(second, y)) =~= fields);
    cbor::lemma_bulk1(variant, CborView::Table(fields));
}

/// A modest message is sure to encode.
pub proof fn lemma_modest_fits(message: RibltMessageView)
    requires
        modest(message),
    ensures
        fits(message),
{
    reveal_strlit("Request");
    reveal_strlit("Symbols");
    reveal_strlit("symbols");
    reveal_strlit("width");
    assert(cbor::short("Request"@) && cbor::short("Symbols"@));
    assert(cbor::short("symbols"@) && cbor::short("width"@));
    match message {
        RibltMessageView::Request { symbols, width } => {
            lemma_variant_bulk(
                "Request"@,
                "symbols"@,
                CborView::Integer(symbols as int),
                "width"@,
                CborView::Integer(width as int),
            );
        },
        RibltMessageView::Symbols { width, symbols } => {
            let items = wire::cells_written(symbols);
            let each = (CELL_OVERHEAD + caps::MAX_SYMBOL_BYTES) as nat;
            assert forall|i: int| 0 <= i < items.len() implies cbor::bulk(#[trigger] items[i])
                <= each by {
                lemma_cell_bulk(symbols[i]);
            }
            cbor::lemma_bulk_items(items, each);
            assert(each * items.len() <= each * caps::MAX_SYMBOL_BATCH as nat) by (nonlinear_arith)
                requires
                    items.len() <= caps::MAX_SYMBOL_BATCH,
            ;
            lemma_variant_bulk(
                "Symbols"@,
                "width"@,
                CborView::Integer(width as int),
                "symbols"@,
                CborView::Array(items),
            );
        },
    }
}

/// The cells of a stream have its width.
proof fn lemma_stream_width(width: nat, symbols: Seq<Seq<u8>>, index: int)
    ensures
        encoder::stream_cell(width, symbols, index).sum.len() == width,
{
    sketch::lemma_folded_parts(symbol::zero_cell(width), symbols, ADD, index);
    sketch::lemma_sum_with_len(symbol::zero_cell(width).sum, symbols, index);
}

/// An engine that says only what a frame may carry goes on doing so, whatever it
/// is told; and so every message it has to say encodes.
pub proof fn lemma_own_messages_encode(v: RibltView, message: RibltMessageView)
    requires
        soft_spoken(v),
    ensures
        soft_spoken(riblt_engine::answered(v, message).0),
        riblt_engine::answered(v, message).0.pending matches Some(said) ==> fits(said),
{
    let w = riblt_engine::answered(v, message).0;
    match (v.role, message) {
        (RoleView::Encoder { .. }, RibltMessageView::Request { symbols, width }) => {
            if let Ok(opened) = riblt_engine::adopted(v, width) {
                if let RoleView::Encoder { symbols: set, position, produced } = opened.role {
                    assert forall|k: int| encoder::stream_cell(
                        opened.width,
                        set,
                        #[trigger] (position + k),
                    ).sum.len() == opened.width by {
                        lemma_stream_width(opened.width, set, position + k);
                    }
                }
            }
        },
        _ => {},
    }
    if let Some(said) = w.pending {
        assert(modest(said));
        lemma_modest_fits(said);
    }
}

} // verus!
