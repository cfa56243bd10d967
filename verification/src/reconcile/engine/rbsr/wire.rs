//! How range tilings travel: the shape of an RBSR message on the wire.
//!
//! ```text
//! message = { "ranges": [ range* ] }
//! range   = { "upper_bound": bound, "mode": mode }
//! bound   = "Min" / { "Key": bytes } / "Max"
//! mode    = "Skip" / { "Fingerprint": bytes } / { "IdList": [ bytes* ] }
//! ```
use crate::reconcile::bytes;
use crate::reconcile::cbor;
use crate::reconcile::cbor::{CborView, Listed, Part};
use crate::reconcile::codec::{MessageKind, WireMessage};
use crate::reconcile::engine;
use crate::reconcile::engine::rbsr::fingerprint::{Fingerprint, FINGERPRINT_LEN};
use crate::reconcile::engine::rbsr::message;
use crate::reconcile::engine::rbsr::message::{Mode, ModeView, Range, RangeView, RbsrMessage};
use crate::reconcile::source::{Bound, BoundView, ItemId, SortKey};
use ciborium::Value;
use vstd::prelude::*;
use vstd::utf8;

verus! {

/// The item a bound is written as.
pub open spec fn bound_written(bound: BoundView) -> CborView {
    match bound {
        BoundView::Min => CborView::Text("Min"@),
        BoundView::Key(key) => CborView::Table(seq![cbor::entry("Key"@, CborView::Bytes(key))]),
        BoundView::Max => CborView::Text("Max"@),
    }
}

/// The bound an item is read as.
pub open spec fn bound_read(item: CborView) -> Option<BoundView> {
    match cbor::variant_of(item) {
        Some((name, None)) => if name == utf8::encode_utf8("Min"@) {
            Some(BoundView::Min)
        } else if name == utf8::encode_utf8("Max"@) {
            Some(BoundView::Max)
        } else {
            None
        },
        Some((name, Some(carried))) => if name == utf8::encode_utf8("Key"@) {
            match cbor::bytes_of(carried) {
                Some(key) => Some(BoundView::Key(key)),
                None => None,
            }
        } else {
            None
        },
        None => None,
    }
}

/// A bound reads back as it was written.
proof fn lemma_bound_round_trip(bound: BoundView)
    ensures
        bound_read(bound_written(bound)) == Some(bound),
        cbor::plain(bound_written(bound), 4),
{
    reveal_strlit("Min");
    reveal_strlit("Max");
    reveal_strlit("Key");
    assert("Min"@.len() == 3 && "Max"@.len() == 3 && "Key"@.len() == 3);
    assert("Min"@[1] != "Max"@[1]);
    cbor::lemma_names_differ("Min"@, "Max"@);
    reveal_with_fuel(cbor::plain, 2);
    match bound {
        BoundView::Min => cbor::lemma_bare_variant("Min"@),
        BoundView::Max => cbor::lemma_bare_variant("Max"@),
        BoundView::Key(key) => cbor::lemma_record1("Key"@, CborView::Bytes(key)),
    }
}

/// Writes a bound.
fn write_bound(bound: &Bound) -> (item: Value)
    ensures
        cbor::content(item) == bound_written(bound@),
{
    match bound {
        Bound::Min => cbor::build(Part::Text("Min".to_owned())),
        Bound::Max => cbor::build(Part::Text("Max".to_owned())),
        Bound::Key(key) => cbor::build_record1(
            cbor::build_entry("Key", cbor::build(Part::Bytes(bytes::bytes_copy(key.as_bytes())))),
        ),
    }
}

/// Reads a bound.
fn read_bound(item: &Value) -> (r: Option<Bound>)
    ensures
        match r {
            Some(bound) => bound_read(cbor::content(*item)) == Some(bound@),
            None => bound_read(cbor::content(*item)) is None,
        },
{
    match cbor::read_variant(item) {
        Some((name, None)) => if bytes::bytes_eq(name, "Min".as_bytes()) {
            Some(Bound::Min)
        } else if bytes::bytes_eq(name, "Max".as_bytes()) {
            Some(Bound::Max)
        } else {
            None
        },
        Some((name, Some(carried))) => if bytes::bytes_eq(name, "Key".as_bytes()) {
            match cbor::read_bytes(carried) {
                Some(key) => Some(Bound::Key(SortKey::from_bytes(key))),
                None => None,
            }
        } else {
            None
        },
        None => None,
    }
}

/// The items a run of identities is written as.
pub open spec fn ids_written(ids: Seq<Seq<u8>>) -> Seq<CborView> {
    ids.map_values(|id: Seq<u8>| CborView::Bytes(id))
}

/// The identities a run of items is read as: each has to denote bytes.
pub open spec fn ids_read(items: Seq<CborView>) -> Option<Seq<Seq<u8>>> {
    if forall|i: int| 0 <= i < items.len() ==> cbor::bytes_of(#[trigger] items[i]) is Some {
        Some(items.map_values(|item: CborView| cbor::bytes_of(item)->Some_0))
    } else {
        None
    }
}

/// Identities read back as they were written.
proof fn lemma_ids_round_trip(ids: Seq<Seq<u8>>)
    ensures
        ids_read(ids_written(ids)) == Some(ids),
        cbor::list_of(CborView::Array(ids_written(ids))) == Some(ids_written(ids)),
        cbor::plain(CborView::Array(ids_written(ids)), 2),
{
    reveal_with_fuel(cbor::plain, 2);
    let items = ids_written(ids);
    assert forall|i: int| 0 <= i < items.len() implies cbor::bytes_of(
        #[trigger] items[i],
    ) == Some(ids[i]) by {}
    assert(ids_read(items)->Some_0 =~= ids);
}

/// Writes a run of identities.
fn write_ids(ids: &Vec<ItemId>) -> (items: Vec<Value>)
    ensures
        cbor::contents(items@) == ids_written(engine::id_views(ids@)),
{
    let mut items: Vec<Value> = Vec::with_capacity(ids.len());
    let mut i: usize = 0;
    while i < ids.len()
        invariant
            i <= ids@.len(),
            items@.len() == i,
            forall|j: int|
                0 <= j < i ==> cbor::content(#[trigger] items@[j]) == CborView::Bytes(ids@[j]@),
        decreases ids.len() - i,
    {
        items.push(cbor::build(Part::Bytes(bytes::bytes_copy(ids[i].as_bytes()))));
        i = i + 1;
    }
    assert(cbor::contents(items@) =~= ids_written(engine::id_views(ids@)));
    items
}

/// Reads a run of identities.
fn read_ids(list: Listed<'_>) -> (r: Option<Vec<ItemId>>)
    ensures
        match r {
            Some(ids) => ids_read(cbor::listed_contents(list)) == Some(engine::id_views(ids@)),
            None => ids_read(cbor::listed_contents(list)) is None,
        },
{
    let ghost views = cbor::listed_contents(list);
    let mut ids: Vec<ItemId> = Vec::new();
    match list {
        Listed::Nothing => {},
        Listed::Items(items) => {
            let mut i: usize = 0;
            while i < items.len()
                invariant
                    i <= items@.len(),
                    views == cbor::contents(items@),
                    views == cbor::listed_contents(list),
                    ids@.len() == i,
                    forall|j: int|
                        0 <= j < i ==> cbor::bytes_of(#[trigger] views[j]) == Some(ids@[j]@),
                decreases items.len() - i,
            {
                assert(views[i as int] == cbor::content(items@[i as int]));
                match cbor::read_bytes(&items[i]) {
                    Some(b) => {
                        ids.push(ItemId::new(b));
                    },
                    None => {
                        assert(cbor::bytes_of(views[i as int]) is None);
                        return None;
                    },
                }
                i = i + 1;
            }
        },
    }
    assert(ids_read(views)->Some_0 =~= engine::id_views(ids@));
    Some(ids)
}

/// The item a mode is written as.
pub open spec fn mode_written(mode: ModeView) -> CborView {
    match mode {
        ModeView::Skip => CborView::Text("Skip"@),
        ModeView::Fingerprint(digest) => CborView::Table(
            seq![cbor::entry("Fingerprint"@, CborView::Bytes(digest))],
        ),
        ModeView::IdList(ids) => CborView::Table(
            seq![cbor::entry("IdList"@, CborView::Array(ids_written(ids)))],
        ),
    }
}

/// The mode an item is read as. A fingerprint has exactly its sixteen bytes.
pub open spec fn mode_read(item: CborView) -> Option<ModeView> {
    match cbor::variant_of(item) {
        Some((name, None)) => if name == utf8::encode_utf8("Skip"@) {
            Some(ModeView::Skip)
        } else {
            None
        },
        Some((name, Some(carried))) => if name == utf8::encode_utf8("Fingerprint"@) {
            match cbor::bytes_of(carried) {
                Some(digest) => if digest.len() == FINGERPRINT_LEN {
                    Some(ModeView::Fingerprint(digest))
                } else {
                    None
                },
                None => None,
            }
        } else if name == utf8::encode_utf8("IdList"@) {
            match cbor::list_of(carried) {
                Some(items) => match ids_read(items) {
                    Some(ids) => Some(ModeView::IdList(ids)),
                    None => None,
                },
                None => None,
            }
        } else {
            None
        },
        None => None,
    }
}

/// Whether a mode is one a [`Mode`] can denote.
pub open spec fn mode_sound(mode: ModeView) -> bool {
    mode matches ModeView::Fingerprint(digest) ==> digest.len() == FINGERPRINT_LEN
}

/// A mode reads back as it was written.
proof fn lemma_mode_round_trip(mode: ModeView)
    requires
        mode_sound(mode),
    ensures
        mode_read(mode_written(mode)) == Some(mode),
        cbor::plain(mode_written(mode), 4),
{
    reveal_strlit("Skip");
    reveal_strlit("Fingerprint");
    reveal_strlit("IdList");
    assert("Skip"@.len() == 4 && "Fingerprint"@.len() == 11 && "IdList"@.len() == 6);
    cbor::lemma_names_differ("IdList"@, "Fingerprint"@);
    reveal_with_fuel(cbor::plain, 4);
    match mode {
        ModeView::Skip => cbor::lemma_bare_variant("Skip"@),
        ModeView::Fingerprint(digest) => cbor::lemma_record1(
            "Fingerprint"@,
            CborView::Bytes(digest),
        ),
        ModeView::IdList(ids) => {
            cbor::lemma_record1("IdList"@, CborView::Array(ids_written(ids)));
            lemma_ids_round_trip(ids);
        },
    }
}

/// Writes a mode.
fn write_mode(mode: &Mode) -> (item: Value)
    ensures
        cbor::content(item) == mode_written(mode@),
        mode_sound(mode@),
{
    match mode {
        Mode::Skip => cbor::build(Part::Text("Skip".to_owned())),
        Mode::Fingerprint(fingerprint) => {
            let digest = bytes::bytes_copy(fingerprint.as_bytes().as_slice());
            cbor::build_record1(
                cbor::build_entry("Fingerprint", cbor::build(Part::Bytes(digest))),
            )
        },
        Mode::IdList(ids) => cbor::build_record1(
            cbor::build_entry("IdList", cbor::build(Part::Array(write_ids(ids)))),
        ),
    }
}

/// Reads a mode.
fn read_mode(item: &Value) -> (r: Option<Mode>)
    ensures
        match r {
            Some(mode) => mode_read(cbor::content(*item)) == Some(mode@),
            None => mode_read(cbor::content(*item)) is None,
        },
{
    match cbor::read_variant(item) {
        Some((name, None)) => if bytes::bytes_eq(name, "Skip".as_bytes()) {
            Some(Mode::Skip)
        } else {
            None
        },
        Some((name, Some(carried))) => if bytes::bytes_eq(name, "Fingerprint".as_bytes()) {
            match cbor::read_bytes(carried) {
                Some(digest) => match Fingerprint::from_bytes(digest.as_slice()) {
                    Some(fingerprint) => Some(Mode::Fingerprint(fingerprint)),
                    None => None,
                },
                None => None,
            }
        } else if bytes::bytes_eq(name, "IdList".as_bytes()) {
            match cbor::read_list(carried) {
                Some(list) => match read_ids(list) {
                    Some(ids) => Some(Mode::IdList(ids)),
                    None => None,
                },
                None => None,
            }
        } else {
            None
        },
        None => None,
    }
}

/// The item a range is written as.
pub open spec fn range_written(range: RangeView) -> CborView {
    CborView::Table(
        seq![
            cbor::entry("upper_bound"@, bound_written(range.upper)),
            cbor::entry("mode"@, mode_written(range.mode)),
        ],
    )
}

/// The range an item is read as.
pub open spec fn range_read(item: CborView) -> Option<RangeView> {
    match cbor::record_of(item) {
        Some(entries) => match (
            cbor::field(entries, "upper_bound"@),
            cbor::field(entries, "mode"@),
        ) {
            (Some(upper), Some(mode)) => match (bound_read(upper), mode_read(mode)) {
                (Some(upper), Some(mode)) => Some(RangeView { upper, mode }),
                _ => None,
            },
            _ => None,
        },
        None => None,
    }
}

/// A range reads back as it was written.
proof fn lemma_range_round_trip(range: RangeView)
    requires
        mode_sound(range.mode),
    ensures
        range_read(range_written(range)) == Some(range),
        cbor::plain(range_written(range), 5),
{
    reveal_strlit("upper_bound");
    reveal_strlit("mode");
    assert("upper_bound"@.len() == 11 && "mode"@.len() == 4);
    cbor::lemma_record2(
        "upper_bound"@,
        bound_written(range.upper),
        "mode"@,
        mode_written(range.mode),
    );
    lemma_bound_round_trip(range.upper);
    lemma_mode_round_trip(range.mode);
    let entries = seq![
        cbor::entry("upper_bound"@, bound_written(range.upper)),
        cbor::entry("mode"@, mode_written(range.mode)),
    ];
    assert forall|i: int| 0 <= i < entries.len() implies {
        &&& cbor::plain((#[trigger] entries[i]).0, 4)
        &&& cbor::plain(entries[i].1, 4)
    } by {}
}

/// Writes a range.
fn write_range(range: &Range) -> (item: Value)
    ensures
        cbor::content(item) == range_written(range@),
        mode_sound(range@.mode),
{
    cbor::build_record2(
        cbor::build_entry("upper_bound", write_bound(&range.upper_bound)),
        cbor::build_entry("mode", write_mode(&range.mode)),
    )
}

/// Reads a range.
fn read_range(item: &Value) -> (r: Option<Range>)
    ensures
        match r {
            Some(range) => range_read(cbor::content(*item)) == Some(range@),
            None => range_read(cbor::content(*item)) is None,
        },
{
    let entries = match cbor::read_record(item) {
        Some(entries) => entries,
        None => {
            return None;
        },
    };
    match (cbor::read_field(entries, "upper_bound"), cbor::read_field(entries, "mode")) {
        (Some(upper), Some(mode)) => match (read_bound(upper), read_mode(mode)) {
            (Some(upper_bound), Some(mode)) => Some(Range { upper_bound, mode }),
            _ => None,
        },
        _ => None,
    }
}

/// The items a tiling is written as.
pub open spec fn ranges_written(ranges: Seq<RangeView>) -> Seq<CborView> {
    ranges.map_values(|range: RangeView| range_written(range))
}

/// The tiling a run of items is read as: each has to be a range.
pub open spec fn ranges_read(items: Seq<CborView>) -> Option<Seq<RangeView>> {
    if forall|i: int| 0 <= i < items.len() ==> range_read(#[trigger] items[i]) is Some {
        Some(items.map_values(|item: CborView| range_read(item)->Some_0))
    } else {
        None
    }
}

/// The item a message is written as.
pub open spec fn message_written(ranges: Seq<RangeView>) -> CborView {
    CborView::Table(seq![cbor::entry("ranges"@, CborView::Array(ranges_written(ranges)))])
}

/// The message an item is read as.
pub open spec fn message_read(item: CborView) -> Option<Seq<RangeView>> {
    match cbor::record_of(item) {
        Some(entries) => match cbor::field(entries, "ranges"@) {
            Some(list) => match cbor::list_of(list) {
                Some(items) => ranges_read(items),
                None => None,
            },
            None => None,
        },
        None => None,
    }
}

/// Every range mode and every bound survives the wire: a message reads back as
/// it was written.
pub proof fn lemma_message_round_trip(ranges: Seq<RangeView>)
    requires
        forall|i: int| 0 <= i < ranges.len() ==> mode_sound((#[trigger] ranges[i]).mode),
    ensures
        message_read(message_written(ranges)) == Some(ranges),
        cbor::plain(message_written(ranges), cbor::MAX_DEPTH as nat),
{
    reveal_strlit("ranges");
    assert("ranges"@.len() == 6);
    let items = ranges_written(ranges);
    cbor::lemma_record1("ranges"@, CborView::Array(items));
    assert forall|i: int| 0 <= i < items.len() implies range_read(#[trigger] items[i]) == Some(
        ranges[i],
    ) && cbor::plain(items[i], 14) by {
        lemma_range_round_trip(ranges[i]);
        cbor::lemma_plain_deeper(items[i], 5, 14);
    }
    assert(ranges_read(items)->Some_0 =~= ranges);
    assert(cbor::plain(CborView::Array(items), 15));
    let entries = seq![cbor::entry("ranges"@, CborView::Array(items))];
    assert forall|i: int| 0 <= i < entries.len() implies {
        &&& cbor::plain((#[trigger] entries[i]).0, 15)
        &&& cbor::plain(entries[i].1, 15)
    } by {}
}

/// A message is a map of its ranges, one for one and in their order.
pub proof fn lemma_message_layout(ranges: Seq<RangeView>)
    ensures
        <RbsrMessage as WireMessage>::wire_kind() is RbsrRanges,
        <RbsrMessage as WireMessage>::written(ranges) == CborView::Table(
            seq![
                (
                    CborView::Text("ranges"@),
                    CborView::Array(
                        Seq::new(ranges.len(), |i: int| range_written(ranges[i])),
                    ),
                ),
            ],
        ),
{
    assert(ranges_written(ranges) =~= Seq::new(ranges.len(), |i: int| range_written(ranges[i])));
}

/// A range is a map of its upper bound and its mode: the ends of the keyspace and an
/// agreed range by name alone, and a key, a fingerprint and a list under theirs.
pub proof fn lemma_range_layout(range: RangeView)
    ensures
        range_written(range) matches CborView::Table(entries) && {
            &&& entries.len() == 2
            &&& entries[0].0 == CborView::Text("upper_bound"@)
            &&& entries[1].0 == CborView::Text("mode"@)
            &&& match range.upper {
                BoundView::Min => entries[0].1 == CborView::Text("Min"@),
                BoundView::Max => entries[0].1 == CborView::Text("Max"@),
                BoundView::Key(key) => entries[0].1 == CborView::Table(
                    seq![(CborView::Text("Key"@), CborView::Bytes(key))],
                ),
            }
            &&& match range.mode {
                ModeView::Skip => entries[1].1 == CborView::Text("Skip"@),
                ModeView::Fingerprint(digest) => entries[1].1 == CborView::Table(
                    seq![(CborView::Text("Fingerprint"@), CborView::Bytes(digest))],
                ),
                ModeView::IdList(ids) => entries[1].1 == CborView::Table(
                    seq![
                        (
                            CborView::Text("IdList"@),
                            CborView::Array(Seq::new(ids.len(), |k: int| CborView::Bytes(ids[k]))),
                        ),
                    ],
                ),
            }
        },
{
    if let ModeView::IdList(ids) = range.mode {
        assert(ids_written(ids) =~= Seq::new(ids.len(), |k: int| CborView::Bytes(ids[k])));
    }
}

/// A bound and a mode are read where they are written as such, and a fingerprint only
/// where it has its sixteen bytes.
pub proof fn lemma_ranges_read_back(bound: BoundView, mode: ModeView)
    ensures
        bound_read(bound_written(bound)) == Some(bound),
        match mode {
            ModeView::Fingerprint(digest) => mode_read(mode_written(mode)) == if digest.len() == 16 {
                Some(mode)
            } else {
                None
            },
            _ => mode_read(mode_written(mode)) == Some(mode),
        },
{
    lemma_bound_round_trip(bound);
    if mode_sound(mode) {
        lemma_mode_round_trip(mode);
    } else {
        reveal_strlit("Fingerprint");
        cbor::lemma_record1("Fingerprint"@, CborView::Bytes(mode->Fingerprint_0));
    }
}

/// What an item is read as a bound, a mode or a range is what it names and carries, and
/// nothing else is one.
pub proof fn lemma_range_is_what_its_fields_say(item: CborView, range: RangeView, key: Seq<u8>)
    ensures
        range_read(item) == Some(range) <==> {
            &&& cbor::record_of(item) matches Some(entries)
            &&& cbor::field(entries, "upper_bound"@) matches Some(upper)
            &&& cbor::field(entries, "mode"@) matches Some(mode)
            &&& bound_read(upper) == Some(range.upper)
            &&& mode_read(mode) == Some(range.mode)
        },
        bound_read(item) == Some(BoundView::Min) <==> cbor::variant_of(item) == Some(
            (utf8::encode_utf8("Min"@), None::<CborView>),
        ),
        bound_read(item) == Some(BoundView::Max) <==> cbor::variant_of(item) == Some(
            (utf8::encode_utf8("Max"@), None::<CborView>),
        ),
        bound_read(item) == Some(BoundView::Key(key)) <==> {
            &&& cbor::variant_of(item) matches Some((name, Some(carried)))
            &&& name == utf8::encode_utf8("Key"@)
            &&& cbor::bytes_of(carried) == Some(key)
        },
{
    reveal_strlit("Min");
    reveal_strlit("Max");
    assert("Min"@[1] != "Max"@[1]);
    cbor::lemma_names_differ("Min"@, "Max"@);
}

/// What an item is read as a mode is what it names and carries: nothing, the sixteen
/// bytes of a fingerprint, or a list each item of which denotes the bytes of an
/// identity.
pub proof fn lemma_mode_is_what_it_carries(item: CborView, digest: Seq<u8>, ids: Seq<Seq<u8>>)
    ensures
        mode_read(item) == Some(ModeView::Skip) <==> cbor::variant_of(item) == Some(
            (utf8::encode_utf8("Skip"@), None::<CborView>),
        ),
        mode_read(item) == Some(ModeView::Fingerprint(digest)) <==> {
            &&& cbor::variant_of(item) matches Some((name, Some(carried)))
            &&& name == utf8::encode_utf8("Fingerprint"@)
            &&& cbor::bytes_of(carried) == Some(digest)
            &&& digest.len() == 16
        },
        mode_read(item) == Some(ModeView::IdList(ids)) <==> {
            &&& cbor::variant_of(item) matches Some((name, Some(carried)))
            &&& name == utf8::encode_utf8("IdList"@)
            &&& cbor::list_of(carried) matches Some(items)
            &&& items.len() == ids.len()
            &&& forall|i: int|
                0 <= i < items.len() ==> cbor::bytes_of(#[trigger] items[i]) == Some(ids[i])
        },
{
    reveal_strlit("Fingerprint");
    reveal_strlit("IdList");
    assert("Fingerprint"@[0] != "IdList"@[0]);
    cbor::lemma_names_differ("Fingerprint"@, "IdList"@);
    if let Some((name, Some(carried))) = cbor::variant_of(item) {
        if let Some(items) = cbor::list_of(carried) {
            if items.len() == ids.len() && forall|i: int|
                0 <= i < items.len() ==> cbor::bytes_of(#[trigger] items[i]) == Some(ids[i]) {
                assert(ids_read(items)->Some_0 =~= ids);
            }
        }
    }
}

/// An item is a message exactly if it is a record with a list of ranges, each read as
/// its own.
pub proof fn lemma_message_is_its_ranges(item: CborView, ranges: Seq<RangeView>)
    ensures
        <RbsrMessage as WireMessage>::read(item) == Some(ranges) <==> {
            &&& cbor::record_of(item) matches Some(entries)
            &&& cbor::field(entries, "ranges"@) matches Some(list)
            &&& cbor::list_of(list) matches Some(items)
            &&& items.len() == ranges.len()
            &&& forall|i: int|
                0 <= i < items.len() ==> range_read(#[trigger] items[i]) == Some(ranges[i])
        },
{
    if let Some(entries) = cbor::record_of(item) {
        if let Some(list) = cbor::field(entries, "ranges"@) {
            if let Some(items) = cbor::list_of(list) {
                if items.len() == ranges.len() && forall|i: int|
                    0 <= i < items.len() ==> range_read(#[trigger] items[i]) == Some(ranges[i]) {
                    assert(ranges_read(items)->Some_0 =~= ranges);
                }
            }
        }
    }
}

impl WireMessage for RbsrMessage {
    open spec fn wire_kind() -> MessageKind {
        MessageKind::RbsrRanges
    }

    open spec fn written(message: Seq<RangeView>) -> CborView {
        message_written(message)
    }

    open spec fn read(item: CborView) -> Option<Seq<RangeView>> {
        message_read(item)
    }

    fn kind() -> (kind: MessageKind) {
        MessageKind::RbsrRanges
    }

    fn to_item(&self) -> (item: Value) {
        let ranges = self.ranges();
        let ghost views = self@;
        let mut items: Vec<Value> = Vec::with_capacity(ranges.len());
        let mut i: usize = 0;
        while i < ranges.len()
            invariant
                i <= ranges@.len(),
                views == message::range_views(ranges@),
                items@.len() == i,
                forall|j: int|
                    0 <= j < i ==> cbor::content(#[trigger] items@[j]) == range_written(views[j]),
                forall|j: int| 0 <= j < i ==> mode_sound((#[trigger] views[j]).mode),
            decreases ranges.len() - i,
        {
            assert(views[i as int] == ranges@[i as int]@);
            items.push(write_range(&ranges[i]));
            i = i + 1;
        }
        proof {
            assert(cbor::contents(items@) =~= ranges_written(views));
            lemma_message_round_trip(views);
        }
        cbor::build_record1(cbor::build_entry("ranges", cbor::build(Part::Array(items))))
    }

    fn from_item(item: &Value) -> (r: Option<Self>) {
        let entries = match cbor::read_record(item) {
            Some(entries) => entries,
            None => {
                return None;
            },
        };
        let field = match cbor::read_field(entries, "ranges") {
            Some(field) => field,
            None => {
                return None;
            },
        };
        let list = match cbor::read_list(field) {
            Some(list) => list,
            None => {
                return None;
            },
        };
        match read_ranges(list) {
            Some(ranges) => Some(RbsrMessage::new(ranges)),
            None => None,
        }
    }
}

/// Reads a run of ranges.
fn read_ranges(list: Listed<'_>) -> (r: Option<Vec<Range>>)
    ensures
        match r {
            Some(ranges) => ranges_read(cbor::listed_contents(list)) == Some(
                message::range_views(ranges@),
            ),
            None => ranges_read(cbor::listed_contents(list)) is None,
        },
{
    let ghost views = cbor::listed_contents(list);
    let mut ranges: Vec<Range> = Vec::new();
    match list {
        Listed::Nothing => {},
        Listed::Items(items) => {
            let mut i: usize = 0;
            while i < items.len()
                invariant
                    i <= items@.len(),
                    views == cbor::contents(items@),
                    views == cbor::listed_contents(list),
                    ranges@.len() == i,
                    forall|j: int|
                        0 <= j < i ==> range_read(#[trigger] views[j]) == Some(ranges@[j]@),
                decreases items.len() - i,
            {
                assert(views[i as int] == cbor::content(items@[i as int]));
                match read_range(&items[i]) {
                    Some(range) => {
                        ranges.push(range);
                    },
                    None => {
                        assert(range_read(views[i as int]) is None);
                        return None;
                    },
                }
                i = i + 1;
            }
        },
    }
    assert(ranges_read(views)->Some_0 =~= message::range_views(ranges@));
    Some(ranges)
}

} // verus!
