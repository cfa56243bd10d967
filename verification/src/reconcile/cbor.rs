//! CBOR items: what they hold, how they are read, and how they are written.
//!
//! The bytes themselves are [`ciborium`]'s business. Here an item is opened one
//! level at a time and read field by field; which shapes are read as what is the
//! grammar of the wire messages.
use crate::reconcile::bytes;
use ciborium::Value;
use vstd::prelude::*;
use vstd::utf8;

verus! {

/// What a CBOR item holds.
#[verifier::ext_equal]
pub enum CborView {
    /// An integer.
    Integer(int),
    /// A byte string.
    Bytes(Seq<u8>),
    /// A text string.
    Text(Seq<char>),
    /// An array of items.
    Array(Seq<CborView>),
    /// A map, as its entries in order.
    Table(Seq<(CborView, CborView)>),
    /// A tagged item.
    Tag(u64, Box<CborView>),
    /// Anything else: a boolean, a null, a float.
    Other,
}

/// A parsed CBOR item.
#[verifier::external_type_specification]
#[verifier::external_body]
pub struct ExValue(ciborium::Value);

/// What a parsed item holds.
pub uninterp spec fn content(item: ciborium::Value) -> CborView;

/// What a run of parsed items holds.
pub open spec fn contents(items: Seq<Value>) -> Seq<CborView> {
    items.map_values(|item: Value| content(item))
}

/// What a run of parsed entries holds.
pub open spec fn entry_contents(entries: Seq<(Value, Value)>) -> Seq<(CborView, CborView)> {
    entries.map_values(|entry: (Value, Value)| (content(entry.0), content(entry.1)))
}

/// One level of a parsed item.
pub enum Node<'a> {
    /// An integer.
    Integer(i128),
    /// A byte string.
    Bytes(&'a Vec<u8>),
    /// A text string.
    Text(&'a String),
    /// An array of items.
    Array(&'a Vec<Value>),
    /// A map, as its entries in order.
    Table(&'a Vec<(Value, Value)>),
    /// A tagged item.
    Tag(u64, &'a Value),
    /// Anything else.
    Other,
}

/// What one level of an item says it holds.
pub open spec fn node_content(node: Node<'_>) -> CborView {
    match node {
        Node::Integer(n) => CborView::Integer(n as int),
        Node::Bytes(b) => CborView::Bytes(b@),
        Node::Text(t) => CborView::Text(t@),
        Node::Array(items) => CborView::Array(contents(items@)),
        Node::Table(entries) => CborView::Table(entry_contents(entries@)),
        Node::Tag(tag, inner) => CborView::Tag(tag, Box::new(content(*inner))),
        Node::Other => CborView::Other,
    }
}

/// Opens one level of a `ciborium::Value`, variant by variant.
///
/// Taken on trust: the variant says what the item holds.
#[verifier::external_body]
pub(crate) fn open<'a>(item: &'a Value) -> (node: Node<'a>)
    ensures
        node_content(node) == content(*item),
{
    match item {
        Value::Integer(n) => Node::Integer(i128::from(*n)),
        Value::Bytes(b) => Node::Bytes(b),
        Value::Text(t) => Node::Text(t),
        Value::Array(items) => Node::Array(items),
        Value::Map(entries) => Node::Table(entries),
        Value::Tag(tag, inner) => Node::Tag(*tag, inner),
        _ => Node::Other,
    }
}

/// What an item is built from.
pub enum Part {
    /// An unsigned integer.
    Unsigned(u64),
    /// A signed integer.
    Signed(i64),
    /// A byte string.
    Bytes(Vec<u8>),
    /// A text string.
    Text(String),
    /// An array of items.
    Array(Vec<Value>),
    /// A map, as its entries in order.
    Table(Vec<(Value, Value)>),
}

/// What an item built from a part holds.
pub open spec fn part_content(part: Part) -> CborView {
    match part {
        Part::Unsigned(n) => CborView::Integer(n as int),
        Part::Signed(n) => CborView::Integer(n as int),
        Part::Bytes(b) => CborView::Bytes(b@),
        Part::Text(t) => CborView::Text(t@),
        Part::Array(items) => CborView::Array(contents(items@)),
        Part::Table(entries) => CborView::Table(entry_contents(entries@)),
    }
}

/// Builds a `ciborium::Value`, variant by variant.
///
/// Taken on trust: the item holds what it was built from.
#[verifier::external_body]
pub(crate) fn build(part: Part) -> (item: Value)
    ensures
        content(item) == part_content(part),
{
    match part {
        Part::Unsigned(n) => Value::from(n),
        Part::Signed(n) => Value::from(n),
        Part::Bytes(b) => Value::Bytes(b),
        Part::Text(t) => Value::Text(t),
        Part::Array(items) => Value::Array(items),
        Part::Table(entries) => Value::Map(entries),
    }
}

/// The item a byte string starts with, if it starts with a well-formed one.
pub uninterp spec fn cbor_parse(data: Seq<u8>) -> Option<CborView>;

/// The bytes of an item.
pub uninterp spec fn cbor_render(item: CborView) -> Seq<u8>;

/// Whether an item is made of integers of at most 64 bits, byte strings, text
/// strings, arrays and maps alone, nested at most `depth` levels deep.
pub open spec fn plain(item: CborView, depth: nat) -> bool
    decreases depth,
{
    match item {
        CborView::Integer(n) => -0x1_0000_0000_0000_0000 <= n < 0x1_0000_0000_0000_0000,
        CborView::Bytes(_) => true,
        CborView::Text(_) => true,
        CborView::Array(items) => depth > 0 && forall|i: int|
            0 <= i < items.len() ==> plain(#[trigger] items[i], (depth - 1) as nat),
        CborView::Table(entries) => depth > 0 && forall|i: int|
            0 <= i < entries.len() ==> {
                &&& plain((#[trigger] entries[i]).0, (depth - 1) as nat)
                &&& plain(entries[i].1, (depth - 1) as nat)
            },
        _ => false,
    }
}

/// An item that is plain within a depth is plain within a greater one.
pub proof fn lemma_plain_deeper(item: CborView, shallow: nat, deep: nat)
    requires
        plain(item, shallow),
        shallow <= deep,
    ensures
        plain(item, deep),
    decreases shallow,
{
    match item {
        CborView::Array(items) => {
            assert forall|i: int| 0 <= i < items.len() implies plain(
                #[trigger] items[i],
                (deep - 1) as nat,
            ) by {
                lemma_plain_deeper(items[i], (shallow - 1) as nat, (deep - 1) as nat);
            }
        },
        CborView::Table(entries) => {
            assert forall|i: int| 0 <= i < entries.len() implies {
                &&& plain((#[trigger] entries[i]).0, (deep - 1) as nat)
                &&& plain(entries[i].1, (deep - 1) as nat)
            } by {
                lemma_plain_deeper(entries[i].0, (shallow - 1) as nat, (deep - 1) as nat);
                lemma_plain_deeper(entries[i].1, (shallow - 1) as nat, (deep - 1) as nat);
            }
        },
        _ => {},
    }
}

/// Most bytes the head of an item takes.
pub const MAX_HEAD_BYTES: usize = 9;

/// The bytes the head of an item takes, which states a number: the integer
/// itself, or a length.
pub open spec fn head(n: int) -> nat {
    if n <= 23 {
        1
    } else if n <= 0xff {
        2
    } else if n <= 0xffff {
        3
    } else if n <= 0xffff_ffff {
        5
    } else {
        MAX_HEAD_BYTES as nat
    }
}

/// The bytes a plain item takes: a head each, and what a string carries.
pub open spec fn bulk(item: CborView) -> nat
    decreases item,
{
    match item {
        CborView::Integer(n) => head(
            if n >= 0 {
                n
            } else {
                -1 - n
            },
        ),
        CborView::Bytes(b) => head(b.len() as int) + b.len(),
        CborView::Text(t) => head(utf8::encode_utf8(t).len() as int) + utf8::encode_utf8(t).len(),
        CborView::Array(items) => head(items.len() as int) + bulk_items(items),
        CborView::Table(entries) => head(entries.len() as int) + bulk_entries(entries),
        _ => 0,
    }
}

/// The bytes a run of plain items takes.
pub open spec fn bulk_items(items: Seq<CborView>) -> nat
    decreases items,
{
    if items.len() == 0 {
        0
    } else {
        bulk_items(items.drop_last()) + bulk(items[items.len() - 1])
    }
}

/// The bytes a run of plain entries takes.
pub open spec fn bulk_entries(entries: Seq<(CborView, CborView)>) -> nat
    decreases entries,
{
    if entries.len() == 0 {
        0
    } else {
        bulk_entries(entries.drop_last()) + bulk(entries[entries.len() - 1].0) + bulk(
            entries[entries.len() - 1].1,
        )
    }
}

/// Whether a name is short enough, and plain enough, to take a byte more than it
/// has characters.
pub open spec fn short(name: Seq<char>) -> bool {
    name.len() <= 23 && utf8::is_ascii_chars(name)
}

/// What a short name takes.
pub proof fn lemma_bulk_name(name: Seq<char>)
    requires
        short(name),
    ensures
        bulk(CborView::Text(name)) == 1 + name.len(),
{
    utf8::is_ascii_chars_encode_utf8(name);
}

/// What a record of one field takes.
pub proof fn lemma_bulk1(name: Seq<char>, value: CborView)
    requires
        short(name),
    ensures
        bulk(CborView::Table(seq![entry(name, value)])) == 2 + name.len() + bulk(value),
{
    let entries = seq![entry(name, value)];
    assert(entries.drop_last() =~= Seq::<(CborView, CborView)>::empty());
    reveal_with_fuel(bulk_entries, 2);
    reveal_with_fuel(bulk, 2);
    lemma_bulk_name(name);
}

/// What a record with one field more takes.
pub proof fn lemma_bulk_push(entries: Seq<(CborView, CborView)>, name: Seq<char>, value: CborView)
    requires
        short(name),
        entries.len() < 23,
    ensures
        bulk(CborView::Table(entries.push(entry(name, value)))) == bulk(CborView::Table(entries))
            + 1 + name.len() + bulk(value),
{
    let more = entries.push(entry(name, value));
    assert(more.drop_last() =~= entries);
    reveal_with_fuel(bulk_entries, 2);
    reveal_with_fuel(bulk, 2);
    lemma_bulk_name(name);
}

/// A bound on a run of items none of which takes more than `each`.
pub proof fn lemma_bulk_items(items: Seq<CborView>, each: nat)
    requires
        forall|i: int| 0 <= i < items.len() ==> bulk(#[trigger] items[i]) <= each,
    ensures
        bulk_items(items) <= each * items.len(),
    decreases items.len(),
{
    if items.len() > 0 {
        let rest = items.drop_last();
        assert forall|i: int| 0 <= i < rest.len() implies bulk(#[trigger] rest[i]) <= each by {
            assert(rest[i] == items[i]);
        }
        lemma_bulk_items(rest, each);
        assert(bulk(items[items.len() - 1]) <= each);
        assert(each * items.len() == each * rest.len() + each) by (nonlinear_arith)
            requires
                items.len() == rest.len() + 1,
        ;
    } else {
        assert(each * items.len() == 0) by (nonlinear_arith)
            requires
                items.len() == 0,
        ;
    }
}

/// How deep the items this crate writes may nest.
pub const MAX_DEPTH: usize = 16;

/// Parses the item a byte string starts with, with `ciborium::from_reader`.
///
/// Taken on trust: whether the bytes parse, and what the item holds, is a
/// function of the bytes alone. The wording of the error is left unsaid.
#[verifier::external_body]
pub(crate) fn parse_item(data: &[u8]) -> (r: Result<Value, String>)
    ensures
        match r {
            Ok(item) => cbor_parse(data@) == Some(content(item)),
            Err(_) => cbor_parse(data@) is None,
        },
{
    ciborium::from_reader::<Value, &[u8]>(data).map_err(|error| error.to_string())
}

/// Renders an item as bytes, with `ciborium::into_writer`.
///
/// Taken on trust, of items that are plain: rendering succeeds, the bytes are a
/// function of what the item holds, they are the shortest head for each item in it
/// and what its strings carry, they parse back to it, and cut short anywhere they
/// do not parse, because every length goes ahead of what it counts.
#[verifier::external_body]
pub(crate) fn render_item(item: &Value) -> (r: Result<Vec<u8>, String>)
    ensures
        plain(content(*item), MAX_DEPTH as nat) ==> {
            &&& r is Ok
            &&& r->Ok_0@ == cbor_render(content(*item))
            &&& r->Ok_0@.len() == bulk(content(*item))
            &&& cbor_parse(r->Ok_0@) == Some(content(*item))
            &&& forall|n: int|
                0 <= n < r->Ok_0@.len() ==> cbor_parse(#[trigger] r->Ok_0@.take(n)) is None
        },
{
    let mut out = Vec::new();
    ciborium::into_writer(item, &mut out).map_err(|error| error.to_string()).map(|()| out)
}

/// The item under any tags.
pub open spec fn untagged(item: CborView) -> CborView
    decreases item,
{
    match item {
        CborView::Tag(_, inner) => untagged(*inner),
        _ => item,
    }
}

/// The item under any tags.
pub fn untag<'a>(item: &'a Value) -> (inner: &'a Value)
    ensures
        content(*inner) == untagged(content(*item)),
    decreases content(*item),
{
    match open(item) {
        Node::Tag(_, inner) => untag(inner),
        _ => item,
    }
}

/// The integer an item denotes: an integer, or a byte string tagged as a
/// positive or negative big integer. Other tags are looked through.
pub open spec fn integer_of(item: CborView) -> Option<int>
    decreases item,
{
    match item {
        CborView::Integer(n) => Some(n),
        CborView::Tag(tag, inner) => if tag == 2 || tag == 3 {
            match *inner {
                CborView::Bytes(b) => Some(
                    if tag == 2 {
                        bytes::be_value(b) as int
                    } else {
                        -1 - bytes::be_value(b)
                    },
                ),
                _ => None,
            }
        } else {
            integer_of(*inner)
        },
        _ => None,
    }
}

/// The integer an item denotes, if it lies in `[lo, hi]`.
pub open spec fn integer_in(item: CborView, lo: int, hi: int) -> Option<int> {
    match integer_of(item) {
        Some(n) => if lo <= n <= hi {
            Some(n)
        } else {
            None
        },
        None => None,
    }
}

/// Leading zeros do not change what a byte string spells, and without them a
/// string of more than eight bytes spells more than a `u64` holds.
proof fn lemma_leading_byte(b: Seq<u8>)
    requires
        b.len() > 0,
    ensures
        b[0] == 0 ==> bytes::be_value(b) == bytes::be_value(b.skip(1)),
        b[0] != 0 ==> bytes::be_value(b) >= bytes::pow256((b.len() - 1) as nat),
    decreases b.len(),
{
    if b.len() > 1 {
        let rest = b.drop_last();
        lemma_leading_byte(rest);
        assert(b.skip(1).drop_last() =~= rest.skip(1));
        assert(b.skip(1).last() == b.last());
    } else {
        assert(b.drop_last() =~= Seq::<u8>::empty());
        assert(b.skip(1) =~= Seq::<u8>::empty());
        assert(bytes::be_value(b.drop_last()) == 0);
    }
}

/// The integer a byte string of any length spells, if a `u64` holds it.
fn big_integer(b: &Vec<u8>) -> (r: Option<u64>)
    ensures
        match r {
            Some(n) => n == bytes::be_value(b@),
            None => bytes::be_value(b@) > u64::MAX,
        },
{
    let mut start: usize = 0;
    assert(b@.skip(0) =~= b@);
    while start < b.len() && b[start] == 0
        invariant
            start <= b@.len(),
            bytes::be_value(b@) == bytes::be_value(b@.skip(start as int)),
        decreases b.len() - start,
    {
        proof {
            lemma_leading_byte(b@.skip(start as int));
            assert(b@.skip(start as int).skip(1) =~= b@.skip(start + 1));
        }
        start = start + 1;
    }
    let ghost rest = b@.skip(start as int);
    if b.len() - start > 8 {
        proof {
            lemma_leading_byte(rest);
            bytes::lemma_pow256_monotonic(8, (rest.len() - 1) as nat);
            reveal_with_fuel(bytes::pow256, 9);
        }
        return None;
    }
    let digits = vstd::slice::slice_subrange(b.as_slice(), start, b.len());
    assert(digits@ =~= rest);
    Some(bytes::read_be(digits))
}

/// Reads the integer an item denotes, if it lies in `[lo, hi]`.
pub fn read_integer(item: &Value, lo: i128, hi: i128) -> (r: Option<i128>)
    requires
        -0x1_0000_0000_0000_0000 <= lo,
        hi < 0x1_0000_0000_0000_0000,
    ensures
        match r {
            Some(n) => integer_in(content(*item), lo as int, hi as int) == Some(n as int),
            None => integer_in(content(*item), lo as int, hi as int) is None,
        },
    decreases content(*item),
{
    let n: i128 = match open(item) {
        Node::Integer(n) => n,
        Node::Tag(tag, inner) => {
            if tag != 2 && tag != 3 {
                return read_integer(inner, lo, hi);
            }
            match open(inner) {
                Node::Bytes(b) => match big_integer(b) {
                    Some(magnitude) => if tag == 2 {
                        magnitude as i128
                    } else {
                        -1 - magnitude as i128
                    },
                    None => {
                        return None;
                    },
                },
                _ => {
                    return None;
                },
            }
        },
        _ => {
            return None;
        },
    };
    if lo <= n && n <= hi {
        Some(n)
    } else {
        None
    }
}

/// Whether every item of an array denotes a byte.
pub open spec fn all_bytes(items: Seq<CborView>) -> bool {
    forall|i: int| 0 <= i < items.len() ==> integer_in(#[trigger] items[i], 0, 255) is Some
}

/// The bytes an item denotes: a byte string, or an array of bytes.
pub open spec fn bytes_of(item: CborView) -> Option<Seq<u8>> {
    match untagged(item) {
        CborView::Bytes(b) => Some(b),
        CborView::Array(items) => if all_bytes(items) {
            Some(
                Seq::new(items.len(), |i: int| integer_in(items[i], 0, 255)->Some_0 as u8),
            )
        } else {
            None
        },
        _ => None,
    }
}

/// Reads the bytes an item denotes.
pub fn read_bytes(item: &Value) -> (r: Option<Vec<u8>>)
    ensures
        match r {
            Some(b) => bytes_of(content(*item)) == Some(b@),
            None => bytes_of(content(*item)) is None,
        },
{
    let inner = untag(item);
    match open(inner) {
        Node::Bytes(b) => Some(bytes::bytes_copy(b.as_slice())),
        Node::Array(items) => {
            let ghost views = contents(items@);
            let mut out: Vec<u8> = Vec::with_capacity(items.len());
            let mut i: usize = 0;
            while i < items.len()
                invariant
                    i <= items@.len(),
                    views == contents(items@),
                    untagged(content(*item)) == CborView::Array(views),
                    out@.len() == i,
                    forall|j: int|
                        0 <= j < i ==> integer_in(#[trigger] views[j], 0, 255) == Some(
                            out@[j] as int,
                        ),
                decreases items.len() - i,
            {
                assert(views[i as int] == content(items@[i as int]));
                match read_integer(&items[i], 0, 255) {
                    Some(n) => {
                        out.push(n as u8);
                    },
                    None => {
                        assert(!all_bytes(views));
                        return None;
                    },
                }
                i = i + 1;
            }
            proof {
                assert(all_bytes(views));
                assert(out@ =~= bytes_of(content(*item))->Some_0);
            }
            Some(out)
        },
        _ => None,
    }
}

/// The items a list is made of: those of an array, or none of an empty byte
/// string.
pub open spec fn list_of(item: CborView) -> Option<Seq<CborView>> {
    match untagged(item) {
        CborView::Array(items) => Some(items),
        CborView::Bytes(b) => if b.len() == 0 {
            Some(Seq::empty())
        } else {
            None
        },
        _ => None,
    }
}

/// A list as it is stored: the items of an array, or none.
pub enum Listed<'a> {
    /// The items of an array.
    Items(&'a Vec<Value>),
    /// No items.
    Nothing,
}

/// What a stored list holds.
pub open spec fn listed_contents(list: Listed<'_>) -> Seq<CborView> {
    match list {
        Listed::Items(items) => contents(items@),
        Listed::Nothing => Seq::empty(),
    }
}

/// Reads a list.
pub fn read_list<'a>(item: &'a Value) -> (r: Option<Listed<'a>>)
    ensures
        match r {
            Some(list) => list_of(content(*item)) == Some(listed_contents(list)),
            None => list_of(content(*item)) is None,
        },
{
    match open(untag(item)) {
        Node::Array(items) => Some(Listed::Items(items)),
        Node::Bytes(b) => if b.len() == 0 {
            Some(Listed::Nothing)
        } else {
            None
        },
        _ => None,
    }
}

/// Longest name a field or a variant may go by, in bytes.
pub const MAX_NAME_BYTES: usize = 4096;

/// The name an item spells: a text string or a byte string, not too long.
pub open spec fn name_of(item: CborView) -> Option<Seq<u8>> {
    let name = match untagged(item) {
        CborView::Text(t) => Some(utf8::encode_utf8(t)),
        CborView::Bytes(b) => Some(b),
        _ => None,
    };
    match name {
        Some(b) => if b.len() <= MAX_NAME_BYTES {
            Some(b)
        } else {
            None
        },
        None => None,
    }
}

/// Reads the name an item spells.
pub fn read_name<'a>(item: &'a Value) -> (r: Option<&'a [u8]>)
    ensures
        match r {
            Some(b) => name_of(content(*item)) == Some(b@),
            None => name_of(content(*item)) is None,
        },
{
    let name = match open(untag(item)) {
        Node::Text(t) => t.as_str().as_bytes(),
        Node::Bytes(b) => b.as_slice(),
        _ => {
            return None;
        },
    };
    if name.len() <= MAX_NAME_BYTES {
        Some(name)
    } else {
        None
    }
}

/// The values of the entries that go by a name.
pub open spec fn values_named(entries: Seq<(CborView, CborView)>, name: Seq<char>) -> Seq<CborView>
    decreases entries.len(),
{
    if entries.len() == 0 {
        Seq::empty()
    } else {
        let prior = values_named(entries.drop_last(), name);
        if name_of(entries.last().0) == Some(utf8::encode_utf8(name)) {
            prior.push(entries.last().1)
        } else {
            prior
        }
    }
}

/// Whether every entry of a map goes by a name.
pub open spec fn all_named(entries: Seq<(CborView, CborView)>) -> bool {
    forall|i: int| 0 <= i < entries.len() ==> name_of((#[trigger] entries[i]).0) is Some
}

/// The entries of a record: a map all of whose keys are names.
pub open spec fn record_of(item: CborView) -> Option<Seq<(CborView, CborView)>> {
    match untagged(item) {
        CborView::Table(entries) => if all_named(entries) {
            Some(entries)
        } else {
            None
        },
        _ => None,
    }
}

/// The field of a record that goes by a name: it has to be there, and once.
pub open spec fn field(entries: Seq<(CborView, CborView)>, name: Seq<char>) -> Option<CborView> {
    let values = values_named(entries, name);
    if values.len() == 1 {
        Some(values[0])
    } else {
        None
    }
}

/// Whether every entry of a map goes by a name.
pub fn entries_named(entries: &Vec<(Value, Value)>) -> (r: bool)
    ensures
        r == all_named(entry_contents(entries@)),
{
    let ghost views = entry_contents(entries@);
    let mut i: usize = 0;
    while i < entries.len()
        invariant
            i <= entries@.len(),
            views == entry_contents(entries@),
            forall|j: int| 0 <= j < i ==> name_of((#[trigger] views[j]).0) is Some,
        decreases entries.len() - i,
    {
        assert(views[i as int].0 == content(entries@[i as int].0));
        if read_name(&entries[i].0).is_none() {
            return false;
        }
        i = i + 1;
    }
    true
}

/// Reads the entries of a record.
pub fn read_record<'a>(item: &'a Value) -> (r: Option<&'a Vec<(Value, Value)>>)
    ensures
        match r {
            Some(entries) => record_of(content(*item)) == Some(entry_contents(entries@)),
            None => record_of(content(*item)) is None,
        },
{
    match open(untag(item)) {
        Node::Table(entries) => if entries_named(entries) {
            Some(entries)
        } else {
            None
        },
        _ => None,
    }
}

/// What looking a name up in a record found.
pub enum Found<'a> {
    /// No field of that name.
    Missing,
    /// The one field of that name.
    One(&'a Value),
    /// More than one field of that name.
    Many,
}

/// Looks a name up in a record.
pub fn find<'a>(entries: &'a Vec<(Value, Value)>, name: &str) -> (r: Found<'a>)
    ensures
        ({
            let values = values_named(entry_contents(entries@), name@);
            match r {
                Found::Missing => values.len() == 0,
                Found::One(item) => values == seq![content(*item)],
                Found::Many => values.len() > 1,
            }
        }),
{
    let ghost views = entry_contents(entries@);
    let wanted = name.as_bytes();
    let mut found: Found<'a> = Found::Missing;
    let mut i: usize = 0;
    assert(views.take(0) =~= Seq::empty());
    while i < entries.len()
        invariant
            i <= entries@.len(),
            views == entry_contents(entries@),
            wanted@ == utf8::encode_utf8(name@),
            ({
                let values = values_named(views.take(i as int), name@);
                match found {
                    Found::Missing => values.len() == 0,
                    Found::One(item) => values == seq![content(*item)],
                    Found::Many => values.len() > 1,
                }
            }),
        decreases entries.len() - i,
    {
        proof {
            assert(views.take(i + 1).drop_last() =~= views.take(i as int));
            assert(views.take(i + 1).last() == views[i as int]);
            assert(views[i as int].0 == content(entries@[i as int].0));
            assert(views[i as int].1 == content(entries@[i as int].1));
        }
        let ghost prior = values_named(views.take(i as int), name@);
        let matching = match read_name(&entries[i].0) {
            Some(b) => bytes::bytes_eq(b, wanted),
            None => false,
        };
        if matching {
            found = match found {
                Found::Missing => {
                    assert(prior.push(content(entries@[i as int].1)) =~= seq![
                        content(entries@[i as int].1),
                    ]);
                    Found::One(&entries[i].1)
                },
                _ => Found::Many,
            };
        }
        i = i + 1;
    }
    assert(views.take(i as int) =~= views);
    found
}

/// Reads the field of a record that goes by a name.
pub fn read_field<'a>(entries: &'a Vec<(Value, Value)>, name: &str) -> (r: Option<&'a Value>)
    ensures
        match r {
            Some(item) => field(entry_contents(entries@), name@) == Some(content(*item)),
            None => field(entry_contents(entries@), name@) is None,
        },
{
    match find(entries, name) {
        Found::One(item) => Some(item),
        _ => None,
    }
}

/// The variant of an enumeration an item names, and what it carries: a bare name
/// carries nothing, and a map of one entry carries its value.
pub open spec fn variant_of(item: CborView) -> Option<(Seq<u8>, Option<CborView>)> {
    match untagged(item) {
        CborView::Text(t) => match name_of(untagged(item)) {
            Some(name) => Some((name, None)),
            None => None,
        },
        CborView::Table(entries) => if entries.len() == 1 {
            match name_of(entries[0].0) {
                Some(name) => Some((name, Some(entries[0].1))),
                None => None,
            }
        } else {
            None
        },
        _ => None,
    }
}

/// Looking through tags twice is looking through them once.
pub proof fn lemma_untagged_once(item: CborView)
    ensures
        untagged(untagged(item)) == untagged(item),
    decreases item,
{
    match item {
        CborView::Tag(_, inner) => lemma_untagged_once(*inner),
        _ => {},
    }
}

/// Reads the variant an item names, and what it carries.
pub fn read_variant<'a>(item: &'a Value) -> (r: Option<(&'a [u8], Option<&'a Value>)>)
    ensures
        match r {
            Some((name, None)) => variant_of(content(*item)) == Some((name@, None::<CborView>)),
            Some((name, Some(carried))) => variant_of(content(*item)) == Some(
                (name@, Some(content(*carried))),
            ),
            None => variant_of(content(*item)) is None,
        },
{
    let inner = untag(item);
    proof {
        lemma_untagged_once(content(*item));
    }
    match open(inner) {
        Node::Text(_) => match read_name(inner) {
            Some(name) => Some((name, None)),
            None => None,
        },
        Node::Table(entries) => {
            if entries.len() != 1 {
                return None;
            }
            assert(entry_contents(entries@)[0] == (content(entries@[0].0), content(entries@[0].1)));
            match read_name(&entries[0].0) {
                Some(name) => Some((name, Some(&entries[0].1))),
                None => None,
            }
        },
        _ => None,
    }
}

/// The text an item denotes.
pub open spec fn text_of(item: CborView) -> Option<Seq<char>> {
    match untagged(item) {
        CborView::Text(t) => Some(t),
        _ => None,
    }
}

/// Reads the text an item denotes.
pub fn read_text(item: &Value) -> (r: Option<String>)
    ensures
        match r {
            Some(t) => text_of(content(*item)) == Some(t@),
            None => text_of(content(*item)) is None,
        },
{
    match open(untag(item)) {
        Node::Text(t) => Some(t.clone()),
        _ => None,
    }
}

/// Different names have different bytes.
pub proof fn lemma_names_differ(a: Seq<char>, b: Seq<char>)
    ensures
        utf8::encode_utf8(a) == utf8::encode_utf8(b) <==> a == b,
{
    utf8::encode_utf8_decode_utf8(a);
    utf8::encode_utf8_decode_utf8(b);
}

/// A name of few characters has few bytes.
pub proof fn lemma_name_len(name: Seq<char>)
    ensures
        utf8::encode_utf8(name).len() <= 4 * name.len(),
    decreases name.len(),
{
    if name.len() > 0 {
        lemma_name_len(name.drop_first());
    }
}

/// What a record of two entries holds under each of their names.
pub proof fn lemma_record2(a: Seq<char>, x: CborView, b: Seq<char>, y: CborView)
    requires
        a != b,
        a.len() <= 1000,
        b.len() <= 1000,
    ensures
        ({
            let entries = seq![entry(a, x), entry(b, y)];
            &&& all_named(entries)
            &&& record_of(CborView::Table(entries)) == Some(entries)
            &&& values_named(entries, a) == seq![x]
            &&& values_named(entries, b) == seq![y]
            &&& field(entries, a) == Some(x)
            &&& field(entries, b) == Some(y)
            &&& forall|c: Seq<char>|
                c != a && c != b ==> #[trigger] values_named(entries, c).len() == 0
        }),
{
    let entries = seq![entry(a, x), entry(b, y)];
    lemma_name_len(a);
    lemma_name_len(b);
    lemma_names_differ(a, b);
    reveal_with_fuel(values_named, 3);
    assert(entries.drop_last() =~= seq![entry(a, x)]);
    assert(entries.drop_last().drop_last() =~= Seq::<(CborView, CborView)>::empty());
    assert(name_of(entry(a, x).0) == Some(utf8::encode_utf8(a)));
    assert(name_of(entry(b, y).0) == Some(utf8::encode_utf8(b)));
    assert(values_named(entries, a) =~= seq![x]);
    assert(values_named(entries, b) =~= seq![y]);
    assert forall|c: Seq<char>| c != a && c != b implies #[trigger] values_named(
        entries,
        c,
    ).len() == 0 by {
        lemma_names_differ(a, c);
        lemma_names_differ(b, c);
    }
}

/// What a record of three entries holds under each of their names.
pub proof fn lemma_record3(
    a: Seq<char>,
    x: CborView,
    b: Seq<char>,
    y: CborView,
    c: Seq<char>,
    z: CborView,
)
    requires
        a != b,
        b != c,
        a != c,
        a.len() <= 1000,
        b.len() <= 1000,
        c.len() <= 1000,
    ensures
        ({
            let entries = seq![entry(a, x), entry(b, y), entry(c, z)];
            &&& all_named(entries)
            &&& record_of(CborView::Table(entries)) == Some(entries)
            &&& field(entries, a) == Some(x)
            &&& field(entries, b) == Some(y)
            &&& field(entries, c) == Some(z)
        }),
{
    let entries = seq![entry(a, x), entry(b, y), entry(c, z)];
    lemma_record2(a, x, b, y);
    lemma_name_len(c);
    lemma_names_differ(a, c);
    lemma_names_differ(b, c);
    assert(entries.drop_last() =~= seq![entry(a, x), entry(b, y)]);
    assert(name_of(entry(c, z).0) == Some(utf8::encode_utf8(c)));
    assert(entries.last() == entry(c, z));
    assert(values_named(seq![entry(a, x), entry(b, y)], c).len() == 0);
    assert(values_named(entries, c) =~= seq![z]);
    assert forall|i: int| 0 <= i < entries.len() implies name_of((
    #[trigger] entries[i]).0) is Some by {
        if i < 2 {
            assert(entries[i] == seq![entry(a, x), entry(b, y)][i]);
        }
    }
}

/// What a record of one entry holds under its name.
pub proof fn lemma_record1(a: Seq<char>, x: CborView)
    requires
        a.len() <= 1000,
    ensures
        ({
            let entries = seq![entry(a, x)];
            &&& all_named(entries)
            &&& record_of(CborView::Table(entries)) == Some(entries)
            &&& field(entries, a) == Some(x)
            &&& variant_of(CborView::Table(entries)) == Some((utf8::encode_utf8(a), Some(x)))
            &&& forall|c: Seq<char>| c != a ==> #[trigger] values_named(entries, c).len() == 0
        }),
{
    let entries = seq![entry(a, x)];
    lemma_name_len(a);
    reveal_with_fuel(values_named, 2);
    assert(entries.drop_last() =~= Seq::<(CborView, CborView)>::empty());
    assert(name_of(entry(a, x).0) == Some(utf8::encode_utf8(a)));
    assert(values_named(entries, a) =~= seq![x]);
    assert forall|c: Seq<char>| c != a implies #[trigger] values_named(entries, c).len() == 0 by {
        lemma_names_differ(a, c);
    }
}

/// A bare name is a variant that carries nothing.
pub proof fn lemma_bare_variant(a: Seq<char>)
    requires
        a.len() <= 1000,
    ensures
        variant_of(CborView::Text(a)) == Some((utf8::encode_utf8(a), None::<CborView>)),
{
    lemma_name_len(a);
}

/// What plain items are read as: themselves. Tags around them are looked through.
pub proof fn lemma_items_read_as_themselves(
    n: int,
    b: Seq<u8>,
    t: Seq<char>,
    items: Seq<CborView>,
    tag: u64,
    item: CborView,
)
    ensures
        integer_of(CborView::Integer(n)) == Some(n),
        bytes_of(CborView::Bytes(b)) == Some(b),
        text_of(CborView::Text(t)) == Some(t),
        list_of(CborView::Array(items)) == Some(items),
        utf8::encode_utf8(t).len() <= 4096 <==> name_of(CborView::Text(t)) is Some,
        name_of(CborView::Text(t)) matches Some(name) ==> name == utf8::encode_utf8(t),
        text_of(CborView::Tag(tag, Box::new(item))) == text_of(item),
        bytes_of(CborView::Tag(tag, Box::new(item))) == bytes_of(item),
        list_of(CborView::Tag(tag, Box::new(item))) == list_of(item),
        name_of(CborView::Tag(tag, Box::new(item))) == name_of(item),
        record_of(CborView::Tag(tag, Box::new(item))) == record_of(item),
        tag != 2 && tag != 3 ==> integer_of(CborView::Tag(tag, Box::new(item))) == integer_of(item),
        integer_of(CborView::Tag(2, Box::new(CborView::Bytes(b)))) == Some(
            bytes::be_value(b) as int,
        ),
        integer_of(CborView::Tag(3, Box::new(CborView::Bytes(b)))) == Some(
            -1 - bytes::be_value(b),
        ),
{
}

/// What is of another kind is not read: text is no integer, bytes are no text, only a map
/// all of whose keys are names is a record, and only a byte string with nothing in it
/// passes for a list.
pub proof fn lemma_other_items_are_refused(
    n: int,
    b: Seq<u8>,
    t: Seq<char>,
    items: Seq<CborView>,
    entries: Seq<(CborView, CborView)>,
)
    ensures
        integer_of(CborView::Text(t)) is None,
        integer_of(CborView::Bytes(b)) is None,
        integer_of(CborView::Array(items)) is None,
        integer_of(CborView::Table(entries)) is None,
        bytes_of(CborView::Text(t)) is None,
        bytes_of(CborView::Integer(n)) is None,
        bytes_of(CborView::Table(entries)) is None,
        text_of(CborView::Bytes(b)) is None,
        text_of(CborView::Integer(n)) is None,
        text_of(CborView::Array(items)) is None,
        text_of(CborView::Table(entries)) is None,
        list_of(CborView::Text(t)) is None,
        list_of(CborView::Integer(n)) is None,
        list_of(CborView::Table(entries)) is None,
        list_of(CborView::Bytes(b)) == if b.len() == 0 {
            Some(Seq::<CborView>::empty())
        } else {
            None
        },
        record_of(CborView::Text(t)) is None,
        record_of(CborView::Integer(n)) is None,
        record_of(CborView::Bytes(b)) is None,
        record_of(CborView::Array(items)) is None,
        record_of(CborView::Table(entries)) == if exists|i: int|
            0 <= i < entries.len() && name_of((#[trigger] entries[i]).0) is None {
            None
        } else {
            Some(entries)
        },
        name_of(CborView::Integer(n)) is None,
        name_of(CborView::Array(items)) is None,
        name_of(CborView::Table(entries)) is None,
        name_of(CborView::Bytes(b)) == if b.len() > 4096 {
            None
        } else {
            Some(b)
        },
{
    if !(exists|i: int| 0 <= i < entries.len() && name_of((#[trigger] entries[i]).0) is None) {
        assert(all_named(entries));
    }
}

/// A variant is a bare name, or a map of one entry under a name, whatever tags stand
/// around it.
pub proof fn lemma_variants_are_named(
    item: CborView,
    tag: u64,
    t: Seq<char>,
    entries: Seq<(CborView, CborView)>,
    name: Seq<u8>,
    carried: CborView,
)
    ensures
        variant_of(CborView::Tag(tag, Box::new(item))) == variant_of(item),
        variant_of(CborView::Text(t)) == if utf8::encode_utf8(t).len() > 4096 {
            None::<(Seq<u8>, Option<CborView>)>
        } else {
            Some((utf8::encode_utf8(t), None))
        },
        variant_of(CborView::Table(entries)) == Some((name, Some(carried))) <==> entries.len() == 1
            && name_of(entries[0].0) == Some(name) && entries[0].1 == carried,
        !(untagged(item) is Text) && !(untagged(item) is Table) ==> variant_of(item) is None,
{
}

/// An integer is read where it lies within the bounds asked for, and nowhere else.
pub proof fn lemma_integers_are_bounded(n: int, lo: int, hi: int)
    ensures
        integer_in(CborView::Integer(n), lo, hi) == if n < lo || n > hi {
            None::<int>
        } else {
            Some(n)
        },
{
}

/// An array of integers is read as bytes exactly if each is one, and then as those.
pub proof fn lemma_arrays_of_bytes(numbers: Seq<int>)
    ensures
        ({
            let item = CborView::Array(numbers.map_values(|n: int| CborView::Integer(n)));
            match bytes_of(item) {
                Some(b) => {
                    &&& b.len() == numbers.len()
                    &&& forall|i: int| 0 <= i < numbers.len() ==> #[trigger] b[i] == numbers[i]
                },
                None => exists|i: int|
                    0 <= i < numbers.len() && !(0 <= #[trigger] numbers[i] <= 255),
            }
        }),
{
    let items = numbers.map_values(|n: int| CborView::Integer(n));
    if all_bytes(items) {
        let b = bytes_of(CborView::Array(items))->Some_0;
        assert forall|i: int| 0 <= i < numbers.len() implies #[trigger] b[i] == numbers[i] by {
            assert(integer_in(items[i], 0, 255) is Some);
        }
    } else {
        let i = choose|i: int|
            0 <= i < items.len() && !(integer_in(#[trigger] items[i], 0, 255) is Some);
        assert(!(0 <= numbers[i] <= 255));
    }
}

/// A field is found exactly if one entry goes by its name, wherever it stands and
/// whatever stands beside it; an entry goes by a name that is the same bytes.
pub proof fn lemma_field_is_the_one_entry(
    entries: Seq<(CborView, CborView)>,
    name: Seq<char>,
    i: int,
    j: int,
)
    requires
        0 <= i <= j < entries.len(),
    ensures
        (forall|k: int|
            0 <= k < entries.len() ==> ((k == i) <==> name_of((#[trigger] entries[k]).0) == Some(
                utf8::encode_utf8(name),
            ))) ==> field(entries, name) == Some(entries[i].1),
        i < j && name_of(entries[i].0) == Some(utf8::encode_utf8(name)) && name_of(entries[j].0)
            == Some(utf8::encode_utf8(name)) ==> field(entries, name) is None,
        (forall|k: int|
            0 <= k < entries.len() ==> name_of((#[trigger] entries[k]).0) != Some(
                utf8::encode_utf8(name),
            )) ==> field(entries, name) is None,
{
    let key = Some(utf8::encode_utf8(name));
    if i < j {
        lemma_values_named(entries, name, i, j);
    }
    if forall|k: int| 0 <= k < entries.len() ==> name_of((#[trigger] entries[k]).0) != key {
        lemma_values_unnamed(entries, name);
    }
    if forall|k: int|
        0 <= k < entries.len() ==> ((k == i) <==> name_of((#[trigger] entries[k]).0) == key) {
        lemma_values_named_once(entries, name, i);
    }
}

/// Two entries that go by a name give two values at least.
proof fn lemma_values_named(
    entries: Seq<(CborView, CborView)>,
    name: Seq<char>,
    i: int,
    j: int,
)
    requires
        0 <= i < j < entries.len(),
    ensures
        name_of(entries[i].0) == Some(utf8::encode_utf8(name)) && name_of(entries[j].0) == Some(
            utf8::encode_utf8(name),
        ) ==> values_named(entries, name).len() >= 2,
    decreases entries.len(),
{
    let rest = entries.drop_last();
    if j < rest.len() {
        lemma_values_named(rest, name, i, j);
    } else {
        lemma_values_named_some(rest, name, i);
    }
}

/// An entry that goes by a name gives a value.
proof fn lemma_values_named_some(entries: Seq<(CborView, CborView)>, name: Seq<char>, i: int)
    requires
        0 <= i < entries.len(),
    ensures
        name_of(entries[i].0) == Some(utf8::encode_utf8(name)) ==> values_named(
            entries,
            name,
        ).len() >= 1,
    decreases entries.len(),
{
    if i < entries.len() - 1 {
        lemma_values_named_some(entries.drop_last(), name, i);
    }
}

/// No entry that goes by a name gives no value.
proof fn lemma_values_unnamed(entries: Seq<(CborView, CborView)>, name: Seq<char>)
    requires
        forall|k: int|
            0 <= k < entries.len() ==> name_of((#[trigger] entries[k]).0) != Some(
                utf8::encode_utf8(name),
            ),
    ensures
        values_named(entries, name).len() == 0,
    decreases entries.len(),
{
    if entries.len() > 0 {
        let rest = entries.drop_last();
        assert forall|k: int| 0 <= k < rest.len() implies name_of((#[trigger] rest[k]).0) != Some(
            utf8::encode_utf8(name),
        ) by {
            assert(rest[k] == entries[k]);
        }
        assert(name_of(entries[entries.len() - 1].0) != Some(utf8::encode_utf8(name)));
        lemma_values_unnamed(rest, name);
    }
}

/// One entry that goes by a name gives its value.
proof fn lemma_values_named_once(entries: Seq<(CborView, CborView)>, name: Seq<char>, i: int)
    requires
        0 <= i < entries.len(),
        forall|k: int|
            0 <= k < entries.len() ==> ((k == i) <==> name_of((#[trigger] entries[k]).0) == Some(
                utf8::encode_utf8(name),
            )),
    ensures
        values_named(entries, name) =~= seq![entries[i].1],
    decreases entries.len(),
{
    let rest = entries.drop_last();
    let last = entries.len() - 1;
    assert(i == last <==> name_of(entries[last].0) == Some(utf8::encode_utf8(name)));
    if i < last {
        assert forall|k: int| 0 <= k < rest.len() implies ((k == i) <==> name_of(
            (#[trigger] rest[k]).0,
        ) == Some(utf8::encode_utf8(name))) by {
            assert(rest[k] == entries[k]);
        }
        lemma_values_named_once(rest, name, i);
    } else {
        assert forall|k: int| 0 <= k < rest.len() implies name_of((#[trigger] rest[k]).0) != Some(
            utf8::encode_utf8(name),
        ) by {
            assert(rest[k] == entries[k]);
        }
        lemma_values_unnamed(rest, name);
    }
}

/// A record entry: a name and what goes by it.
pub open spec fn entry(name: Seq<char>, value: CborView) -> (CborView, CborView) {
    (CborView::Text(name), value)
}

/// Builds a record entry.
pub fn build_entry(name: &str, value: Value) -> (e: (Value, Value))
    ensures
        (content(e.0), content(e.1)) == entry(name@, content(value)),
{
    (build(Part::Text(name.to_owned())), value)
}

/// Builds a record of one entry.
pub fn build_record1(a: (Value, Value)) -> (item: Value)
    ensures
        content(item) == CborView::Table(seq![(content(a.0), content(a.1))]),
{
    let mut entries: Vec<(Value, Value)> = Vec::new();
    entries.push(a);
    assert(entry_contents(entries@) =~= seq![(content(a.0), content(a.1))]);
    build(Part::Table(entries))
}

/// Builds a record of two entries.
pub fn build_record2(a: (Value, Value), b: (Value, Value)) -> (item: Value)
    ensures
        content(item) == CborView::Table(
            seq![(content(a.0), content(a.1)), (content(b.0), content(b.1))],
        ),
{
    let mut entries: Vec<(Value, Value)> = Vec::new();
    entries.push(a);
    entries.push(b);
    assert(entry_contents(entries@) =~= seq![
        (content(a.0), content(a.1)),
        (content(b.0), content(b.1)),
    ]);
    build(Part::Table(entries))
}

/// Builds a record of three entries.
pub fn build_record3(a: (Value, Value), b: (Value, Value), c: (Value, Value)) -> (item: Value)
    ensures
        content(item) == CborView::Table(
            seq![
                (content(a.0), content(a.1)),
                (content(b.0), content(b.1)),
                (content(c.0), content(c.1)),
            ],
        ),
{
    let mut entries: Vec<(Value, Value)> = Vec::new();
    entries.push(a);
    entries.push(b);
    entries.push(c);
    assert(entry_contents(entries@) =~= seq![
        (content(a.0), content(a.1)),
        (content(b.0), content(b.1)),
        (content(c.0), content(c.1)),
    ]);
    build(Part::Table(entries))
}

} // verus!
