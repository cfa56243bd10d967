//! The ordered `(key, id)` view a reconciliation engine reads its local set from.
//!
//! [`ItemSource`] is the only seam between the protocol engines and where the
//! items actually live; [`MemorySource`] is the in-memory one.
use crate::reconcile::bytes;
use crate::reconcile::error::ReconcileError;
use vstd::prelude::*;

verus! {

/// Length of the big-endian height prefix of a [`SortKey`].
pub const HEIGHT_PREFIX_LEN: usize = 8;

/// Raw bytes identifying one reconcilable item, opaque to the protocol.
#[derive(Debug, PartialEq, Eq, Hash, PartialOrd, Ord)]
pub struct ItemId(Vec<u8>);

impl View for ItemId {
    type V = Seq<u8>;

    closed spec fn view(&self) -> Seq<u8> {
        self.0@
    }
}

impl Clone for ItemId {
    fn clone(&self) -> (copy: Self)
        ensures
            copy@ == self@,
    {
        ItemId(bytes::bytes_copy(self.0.as_slice()))
    }
}

impl ItemId {
    /// Wraps raw identity bytes.
    pub fn new(bytes: Vec<u8>) -> (id: Self)
        ensures
            id@ == bytes@,
    {
        ItemId(bytes)
    }

    /// Borrows the raw identity bytes.
    pub fn as_bytes(&self) -> (bytes: &[u8])
        ensures
            bytes@ == self@,
    {
        self.0.as_slice()
    }

    /// Whether two identities are the same bytes.
    pub fn same(&self, other: &ItemId) -> (r: bool)
        ensures
            r == (self@ == other@),
    {
        bytes::bytes_eq(self.as_bytes(), other.as_bytes())
    }
}

/// The sort key bytes of an item: its height in eight big-endian bytes, then
/// its identity.
pub open spec fn sort_key(height: nat, id: Seq<u8>) -> Seq<u8> {
    bytes::be_bytes(height, HEIGHT_PREFIX_LEN as nat) + id
}

/// The total order the keyspace is tiled along: an 8-byte big-endian block
/// height followed by the item's identity bytes.
///
/// Ordering by height groups items into causal layers while the identity bytes
/// break ties into a strict total order. Because those bytes are a content hash
/// in production, the keyspace within a layer is hash-ordered, which is what
/// makes the responder's even index splits land on evenly sized sub-ranges.
/// Callers with no meaningful height pass `0`, yielding plain identity order.
#[derive(Debug, PartialEq, Eq, Hash, PartialOrd, Ord)]
pub struct SortKey(Vec<u8>);

impl View for SortKey {
    type V = Seq<u8>;

    closed spec fn view(&self) -> Seq<u8> {
        self.0@
    }
}

impl Clone for SortKey {
    fn clone(&self) -> (copy: Self)
        ensures
            copy@ == self@,
    {
        SortKey(bytes::bytes_copy(self.0.as_slice()))
    }
}

impl SortKey {
    /// Builds the sort key for an item at the given block height.
    pub fn new(height: u64, id: &ItemId) -> (key: Self)
        ensures
            key@ == sort_key(height as nat, id@),
    {
        let mut key: Vec<u8> = Vec::new();
        bytes::push_be(&mut key, height, HEIGHT_PREFIX_LEN);
        key.extend_from_slice(id.as_bytes());
        assert(key@ =~= sort_key(height as nat, id@));
        SortKey(key)
    }

    /// Wraps raw key bytes, as they arrive from a peer.
    pub fn from_bytes(bytes: Vec<u8>) -> (key: Self)
        ensures
            key@ == bytes@,
    {
        SortKey(bytes)
    }

    /// Borrows the raw key bytes.
    pub fn as_bytes(&self) -> (bytes: &[u8])
        ensures
            bytes@ == self@,
    {
        self.0.as_slice()
    }
}

/// Sort keys order items by height first and by identity second.
pub proof fn lemma_sort_key_order(h1: u64, id1: Seq<u8>, h2: u64, id2: Seq<u8>)
    ensures
        bytes::lex_lt(sort_key(h1 as nat, id1), sort_key(h2 as nat, id2)) <==> (h1 < h2 || (h1 == h2
            && bytes::lex_lt(id1, id2))),
{
    let p = bytes::be_bytes(h1 as nat, 8);
    let q = bytes::be_bytes(h2 as nat, 8);
    bytes::lemma_be_bytes_len(h1 as nat, 8);
    bytes::lemma_be_bytes_len(h2 as nat, 8);
    reveal_with_fuel(bytes::pow256, 9);
    if h1 < h2 {
        bytes::lemma_be_bytes_ordered(h1 as nat, h2 as nat, 8);
        bytes::lemma_lex_ordered_prefix(p, q, id1, id2);
    } else if h2 < h1 {
        bytes::lemma_be_bytes_ordered(h2 as nat, h1 as nat, 8);
        bytes::lemma_lex_ordered_prefix(q, p, id2, id1);
        if bytes::lex_lt(p + id1, q + id2) {
            bytes::lemma_lex_transitive(p + id1, q + id2, p + id1);
            bytes::lemma_lex_irreflexive(p + id1);
        }
    } else {
        bytes::lemma_lex_common_prefix(p, id1, id2);
    }
}

/// A sort key is eight bytes that spell the height, and behind them the identity.
pub proof fn lemma_sort_key_parts(height: u64, id: Seq<u8>)
    ensures
        ({
            let key = sort_key(height as nat, id);
            &&& key.len() == 8 + id.len()
            &&& key.skip(8) == id
            &&& height == key[7] + 0x100 * key[6] + 0x1_0000 * key[5] + 0x100_0000 * key[4]
                + 0x1_0000_0000 * key[3] + 0x100_0000_0000 * key[2] + 0x1_0000_0000_0000 * key[1]
                + 0x100_0000_0000_0000 * key[0]
        }),
{
    let key = sort_key(height as nat, id);
    let prefix = bytes::be_bytes(height as nat, 8);
    bytes::lemma_be_bytes_len(height as nat, 8);
    reveal_with_fuel(bytes::pow256, 9);
    bytes::lemma_be_round_trip(height as nat, 8);
    bytes::lemma_eight_bytes_spell(prefix);
    assert(key.skip(8) =~= id);
}

/// Two items share a sort key exactly when they agree on height and identity.
pub proof fn lemma_sort_key_injective(h1: u64, id1: Seq<u8>, h2: u64, id2: Seq<u8>)
    ensures
        sort_key(h1 as nat, id1) == sort_key(h2 as nat, id2) <==> h1 == h2 && id1 == id2,
{
    if sort_key(h1 as nat, id1) == sort_key(h2 as nat, id2) {
        lemma_sort_key_order(h1, id1, h2, id2);
        lemma_sort_key_order(h2, id2, h1, id1);
        bytes::lemma_lex_irreflexive(sort_key(h1 as nat, id1));
        bytes::lemma_lex_total(id1, id2);
    }
}

/// What a [`Bound`] denotes.
#[verifier::ext_equal]
pub enum BoundView {
    /// Below every key.
    Min,
    /// A key.
    Key(Seq<u8>),
    /// Above every key.
    Max,
}

/// A range boundary in the reconciled keyspace.
///
/// The ordering is exactly the protocol's: `Min` precedes every real key and
/// `Max` follows every real key. Variants rather than sentinel byte strings, so
/// the two ends survive any wire encoding unambiguously.
#[derive(Debug, PartialEq, Eq, Hash, PartialOrd, Ord)]
pub enum Bound {
    /// The inclusive low end of the keyspace.
    Min,
    /// A real sort key.
    Key(SortKey),
    /// The exclusive "+infinity" high end of the keyspace.
    Max,
}

impl View for Bound {
    type V = BoundView;

    open spec fn view(&self) -> BoundView {
        match self {
            Bound::Min => BoundView::Min,
            Bound::Key(key) => BoundView::Key(key@),
            Bound::Max => BoundView::Max,
        }
    }
}

impl Clone for Bound {
    fn clone(&self) -> (copy: Self)
        ensures
            copy@ == self@,
    {
        match self {
            Bound::Min => Bound::Min,
            Bound::Key(key) => Bound::Key(key.clone()),
            Bound::Max => Bound::Max,
        }
    }
}

/// The order of the keyspace, its two ends included.
pub open spec fn bound_lt(a: BoundView, b: BoundView) -> bool {
    match (a, b) {
        (BoundView::Min, BoundView::Min) => false,
        (BoundView::Min, _) => true,
        (BoundView::Key(_), BoundView::Min) => false,
        (BoundView::Key(x), BoundView::Key(y)) => bytes::lex_lt(x, y),
        (BoundView::Key(_), BoundView::Max) => true,
        (BoundView::Max, _) => false,
    }
}

/// The keyspace is totally ordered.
pub proof fn lemma_bound_order(a: BoundView, b: BoundView, c: BoundView)
    ensures
        !bound_lt(a, a),
        bound_lt(a, b) || bound_lt(b, a) || a == b,
        bound_lt(a, b) && bound_lt(b, c) ==> bound_lt(a, c),
{
    match a {
        BoundView::Key(x) => {
            bytes::lemma_lex_irreflexive(x);
            match b {
                BoundView::Key(y) => {
                    bytes::lemma_lex_total(x, y);
                    match c {
                        BoundView::Key(z) => {
                            if bytes::lex_lt(x, y) && bytes::lex_lt(y, z) {
                                bytes::lemma_lex_transitive(x, y, z);
                            }
                        },
                        _ => {},
                    }
                },
                _ => {},
            }
        },
        _ => {},
    }
}

/// The low end of the keyspace precedes everything else in it, the high end follows
/// everything else, and keys between them are ordered as byte strings.
pub proof fn lemma_bound_ends(bound: BoundView, x: Seq<u8>, y: Seq<u8>)
    ensures
        bound_lt(BoundView::Min, bound) <==> bound != BoundView::Min,
        bound_lt(bound, BoundView::Max) <==> bound != BoundView::Max,
        !bound_lt(bound, BoundView::Min),
        !bound_lt(BoundView::Max, bound),
        bound_lt(BoundView::Key(x), BoundView::Key(y)) <==> bytes::lex_lt(x, y),
{
}

impl Bound {
    /// Whether this boundary precedes `other`.
    pub fn precedes(&self, other: &Bound) -> (r: bool)
        ensures
            r == bound_lt(self@, other@),
    {
        match (self, other) {
            (Bound::Min, Bound::Min) => false,
            (Bound::Min, _) => true,
            (Bound::Key(_), Bound::Min) => false,
            (Bound::Key(x), Bound::Key(y)) => bytes::bytes_lt(x.as_bytes(), y.as_bytes()),
            (Bound::Key(_), Bound::Max) => true,
            (Bound::Max, _) => false,
        }
    }
}

/// What an [`Item`] denotes: where it sorts, and what it is.
#[verifier::ext_equal]
pub struct ItemView {
    /// The item's sort key.
    pub key: Seq<u8>,
    /// The item's identity.
    pub id: Seq<u8>,
}

/// One element of a reconcilable set.
#[derive(Debug, PartialEq, Eq, PartialOrd, Ord)]
pub struct Item {
    key: SortKey,
    id: ItemId,
}

impl View for Item {
    type V = ItemView;

    closed spec fn view(&self) -> ItemView {
        ItemView { key: self.key@, id: self.id@ }
    }
}

impl Clone for Item {
    fn clone(&self) -> (copy: Self)
        ensures
            copy@ == self@,
    {
        Item { key: self.key.clone(), id: self.id.clone() }
    }
}

impl Item {
    /// Builds an item at the given block height.
    pub fn new(height: u64, id: ItemId) -> (item: Self)
        ensures
            item@ == (ItemView { key: sort_key(height as nat, id@), id: id@ }),
    {
        Item { key: SortKey::new(height, &id), id }
    }

    /// The item's position in the reconciled keyspace.
    pub fn key(&self) -> (key: &SortKey)
        ensures
            key@ == self@.key,
    {
        &self.key
    }

    /// The item's identity.
    pub fn id(&self) -> (id: &ItemId)
        ensures
            id@ == self@.id,
    {
        &self.id
    }
}

/// Whether keys appear in strictly ascending order, and so without duplicates.
pub open spec fn ascending(keys: Seq<Seq<u8>>) -> bool {
    forall|i: int, j: int| 0 <= i < j < keys.len() ==> bytes::lex_lt(#[trigger] keys[i], #[trigger] keys[j])
}

/// The smallest index at or above `from` whose key is at or above `bound`, and
/// the number of keys where there is none.
pub open spec fn seek_from(keys: Seq<Seq<u8>>, bound: BoundView, from: nat) -> nat
    decreases keys.len() - from,
{
    if from >= keys.len() {
        keys.len()
    } else if !bound_lt(BoundView::Key(keys[from as int]), bound) {
        from
    } else {
        seek_from(keys, bound, from + 1)
    }
}

/// The smallest index whose key is at or above `bound`: the lower-bound
/// insertion point.
pub open spec fn seek_index(keys: Seq<Seq<u8>>, bound: BoundView) -> nat {
    seek_from(keys, bound, 0)
}

/// A search started later finds an index whose key is at or above the bound,
/// with only smaller keys in between.
proof fn lemma_seek_from(keys: Seq<Seq<u8>>, bound: BoundView, from: nat)
    requires
        from <= keys.len(),
    ensures
        from <= seek_from(keys, bound, from) <= keys.len(),
        forall|i: int|
            from <= i < seek_from(keys, bound, from) ==> bound_lt(
                BoundView::Key(#[trigger] keys[i]),
                bound,
            ),
        seek_from(keys, bound, from) < keys.len() ==> !bound_lt(
            BoundView::Key(keys[seek_from(keys, bound, from) as int]),
            bound,
        ),
    decreases keys.len() - from,
{
    if from < keys.len() && bound_lt(BoundView::Key(keys[from as int]), bound) {
        lemma_seek_from(keys, bound, from + 1);
    }
}

/// Seeking splits ascending keys in two: those below the bound come first, and
/// those at or above it follow.
pub proof fn lemma_seek_splits(keys: Seq<Seq<u8>>, bound: BoundView)
    requires
        ascending(keys),
    ensures
        seek_index(keys, bound) <= keys.len(),
        forall|i: int|
            0 <= i < keys.len() ==> (i < seek_index(keys, bound) <==> bound_lt(
                BoundView::Key(#[trigger] keys[i]),
                bound,
            )),
{
    lemma_seek_from(keys, bound, 0);
    let r = seek_index(keys, bound) as int;
    assert forall|i: int| r <= i < keys.len() implies !bound_lt(
        BoundView::Key(#[trigger] keys[i]),
        bound,
    ) by {
        if i > r {
            lemma_bound_order(BoundView::Key(keys[r]), BoundView::Key(keys[i]), bound);
        }
    }
}

/// The index that splits keys around a bound is the one seeking finds.
pub proof fn lemma_seek_unique(keys: Seq<Seq<u8>>, bound: BoundView, r: nat)
    requires
        r <= keys.len(),
        forall|i: int| 0 <= i < r ==> bound_lt(BoundView::Key(#[trigger] keys[i]), bound),
        r < keys.len() ==> !bound_lt(BoundView::Key(keys[r as int]), bound),
    ensures
        seek_index(keys, bound) == r,
{
    lemma_seek_from(keys, bound, 0);
    let s = seek_index(keys, bound);
    if r < s {
        assert(bound_lt(BoundView::Key(keys[r as int]), bound));
    }
    if s < r {
        assert(bound_lt(BoundView::Key(keys[s as int]), bound));
    }
}

/// A later bound never seeks to an earlier index.
pub proof fn lemma_seek_monotonic(keys: Seq<Seq<u8>>, a: BoundView, b: BoundView)
    requires
        ascending(keys),
        !bound_lt(b, a),
    ensures
        seek_index(keys, a) <= seek_index(keys, b),
{
    lemma_seek_splits(keys, a);
    lemma_seek_splits(keys, b);
    let s = seek_index(keys, b) as int;
    if s < seek_index(keys, a) {
        lemma_bound_order(BoundView::Key(keys[s]), a, b);
        lemma_bound_order(a, b, a);
    }
}

/// The low end seeks to the first index, and the high end past the last.
pub proof fn lemma_seek_ends(keys: Seq<Seq<u8>>)
    ensures
        seek_index(keys, BoundView::Min) == 0,
        seek_index(keys, BoundView::Max) == keys.len(),
{
    lemma_seek_unique(keys, BoundView::Min, 0);
    lemma_seek_unique(keys, BoundView::Max, keys.len());
}

/// Whether keys and identities pair up, in strictly ascending key order.
pub open spec fn sealed(keys: Seq<Seq<u8>>, ids: Seq<Seq<u8>>) -> bool {
    ascending(keys) && keys.len() == ids.len()
}

/// A sealed, ordered, duplicate-free view of a local set.
///
/// Implementations present items in strictly ascending [`SortKey`] order and do
/// not change for the lifetime of a session: both peers derive index windows
/// from the same bounds, so a source that shifted mid-session would
/// desynchronize the tiling.
pub trait ItemSource {
    /// The sort keys, in index order.
    spec fn keys(&self) -> Seq<Seq<u8>>;

    /// The identities, in index order.
    spec fn ids(&self) -> Seq<Seq<u8>>;

    /// Number of items in the source.
    fn len(&self) -> (n: usize)
        ensures
            n == self.keys().len(),
            sealed(self.keys(), self.ids()),
    ;

    /// The sort key of the item at `index`, which must be less than [`Self::len`].
    fn key(&self, index: usize) -> (key: &SortKey)
        requires
            index < self.keys().len(),
        ensures
            key@ == self.keys()[index as int],
    ;

    /// The identity of the item at `index`, which must be less than [`Self::len`].
    fn id(&self, index: usize) -> (id: &ItemId)
        requires
            index < self.keys().len(),
        ensures
            id@ == self.ids()[index as int],
    ;

    /// Whether the source holds no items.
    fn is_empty(&self) -> (r: bool)
        ensures
            r == (self.keys().len() == 0),
    {
        self.len() == 0
    }

    /// The smallest index whose key is at or above `bound`: the lower-bound
    /// insertion point. [`Bound::Min`] maps to `0` and [`Bound::Max`] to
    /// [`Self::len`].
    fn seek(&self, bound: &Bound) -> (index: usize)
        ensures
            index == seek_index(self.keys(), bound@),
            index <= self.keys().len(),
    {
        let len: usize = self.len();
        proof {
            lemma_seek_ends(self.keys());
        }
        let target = match bound {
            Bound::Min => {
                return 0;
            },
            Bound::Max => {
                return len;
            },
            Bound::Key(key) => key,
        };
        let mut lo: usize = 0;
        let mut hi: usize = len;
        while lo < hi
            invariant
                lo <= hi <= self.keys().len(),
                ascending(self.keys()),
                bound@ == BoundView::Key(target@),
                forall|i: int|
                    0 <= i < lo ==> bound_lt(BoundView::Key(#[trigger] self.keys()[i]), bound@),
                forall|i: int|
                    hi <= i < self.keys().len() ==> !bound_lt(
                        BoundView::Key(#[trigger] self.keys()[i]),
                        bound@,
                    ),
            decreases hi - lo,
        {
            let mid: usize = lo + (hi - lo) / 2;
            let ghost pivot = BoundView::Key(self.keys()[mid as int]);
            if bytes::bytes_lt(self.key(mid).as_bytes(), target.as_bytes()) {
                proof {
                    assert forall|i: int| 0 <= i < mid + 1 implies bound_lt(
                        BoundView::Key(#[trigger] self.keys()[i]),
                        bound@,
                    ) by {
                        if i < mid {
                            lemma_bound_order(BoundView::Key(self.keys()[i]), pivot, bound@);
                        }
                    }
                }
                lo = mid + 1;
            } else {
                proof {
                    assert forall|i: int| mid <= i < self.keys().len() implies !bound_lt(
                        BoundView::Key(#[trigger] self.keys()[i]),
                        bound@,
                    ) by {
                        if mid < i {
                            lemma_bound_order(pivot, BoundView::Key(self.keys()[i]), bound@);
                        }
                    }
                }
                hi = mid;
            }
        }
        proof {
            lemma_seek_unique(self.keys(), bound@, lo as nat);
        }
        lo
    }
}

/// The sort keys of a run of items.
pub open spec fn item_keys(items: Seq<Item>) -> Seq<Seq<u8>> {
    items.map_values(|item: Item| item@.key)
}

/// The identities of a run of items.
pub open spec fn item_ids(items: Seq<Item>) -> Seq<Seq<u8>> {
    items.map_values(|item: Item| item@.id)
}

/// Whether two of the items share a sort key.
pub open spec fn has_duplicate(items: Seq<Item>) -> bool {
    exists|i: int, j: int| 0 <= i < j < items.len() && (#[trigger] items[i])@.key == (#[trigger] items[j])@.key
}

/// The keys and identities of a run of items are theirs, one for one.
pub proof fn lemma_items_one_for_one(items: Seq<Item>)
    ensures
        item_keys(items).len() == items.len(),
        item_ids(items).len() == items.len(),
        forall|i: int| 0 <= i < items.len() ==> #[trigger] item_keys(items)[i] == items[i]@.key,
        forall|i: int| 0 <= i < items.len() ==> #[trigger] item_ids(items)[i] == items[i]@.id,
{
}

/// Items are refused as duplicates exactly if some two of them share a sort key: those
/// whose sort keys are pairwise distinct never are.
pub proof fn lemma_distinct_keys_are_no_duplicates(items: Seq<Item>)
    ensures
        has_duplicate(items) <==> !(forall|i: int, j: int|
            0 <= i < j < items.len() ==> (#[trigger] items[i])@.key != (#[trigger] items[j])@.key),
        has_duplicate(items) <==> !items.map_values(|item: Item| item@.key).no_duplicates(),
{
    let keys = items.map_values(|item: Item| item@.key);
    if has_duplicate(items) {
        let (i, j) = choose|i: int, j: int|
            0 <= i < j < items.len() && (#[trigger] items[i])@.key == (#[trigger] items[j])@.key;
        assert(keys[i] == keys[j]);
    }
    if !keys.no_duplicates() {
        let (i, j) = choose|i: int, j: int|
            0 <= i < keys.len() && 0 <= j < keys.len() && i != j && keys[i] == keys[j];
        assert(items[i]@.key == keys[i] && items[j]@.key == keys[j]);
        if i < j {
            assert(items[i]@.key == items[j]@.key);
        } else {
            assert(items[j]@.key == items[i]@.key);
        }
    }
}

/// Items at distinct heights, or with distinct identities, never share a sort key, so
/// a set of them always seals.
pub proof fn lemma_distinct_items_seal(items: Seq<Item>, heights: Seq<u64>, ids: Seq<Seq<u8>>)
    requires
        heights.len() == items.len(),
        ids.len() == items.len(),
        forall|i: int|
            0 <= i < items.len() ==> (#[trigger] items[i])@.key == sort_key(
                heights[i] as nat,
                ids[i],
            ),
        forall|i: int, j: int|
            0 <= i < j < items.len() ==> (#[trigger] heights[i]) != (#[trigger] heights[j]) || ids[i]
                != ids[j],
    ensures
        !has_duplicate(items),
{
    lemma_distinct_keys_are_no_duplicates(items);
    assert forall|i: int, j: int| 0 <= i < j < items.len() implies (#[trigger] items[i])@.key != (
    #[trigger] items[j])@.key by {
        assert(heights[i] != heights[j] || ids[i] != ids[j]);
        lemma_sort_key_injective(heights[i], ids[i], heights[j], ids[j]);
    }
}

/// Whether keys appear in ascending order, duplicates allowed.
spec fn sorted(items: Seq<Item>) -> bool {
    forall|i: int, j: int|
        0 <= i < j < items.len() ==> !bytes::lex_lt((#[trigger] items[j])@.key, (#[trigger] items[i])@.key)
}

/// Merges two sorted runs by repeatedly taking the larger last item.
fn merge(left: Vec<Item>, right: Vec<Item>) -> (out: Vec<Item>)
    requires
        sorted(left@),
        sorted(right@),
    ensures
        sorted(out@),
        out@.to_multiset() == left@.to_multiset().add(right@.to_multiset()),
{
    let ghost all = left@.to_multiset().add(right@.to_multiset());
    let mut left = left;
    let mut right = right;
    let mut tail: Vec<Item> = Vec::new();
    proof {
        broadcast use vstd::seq_lib::group_to_multiset_ensures;
        assert(tail@.to_multiset() =~= vstd::multiset::Multiset::empty());
    }
    while left.len() > 0 || right.len() > 0
        invariant
            sorted(left@),
            sorted(right@),
            sorted(tail@.reverse()),
            forall|i: int, j: int|
                0 <= i < left@.len() && 0 <= j < tail@.len() ==> !bytes::lex_lt(
                    (#[trigger] tail@[j])@.key,
                    (#[trigger] left@[i])@.key,
                ),
            forall|i: int, j: int|
                0 <= i < right@.len() && 0 <= j < tail@.len() ==> !bytes::lex_lt(
                    (#[trigger] tail@[j])@.key,
                    (#[trigger] right@[i])@.key,
                ),
            all == left@.to_multiset().add(right@.to_multiset()).add(tail@.to_multiset()),
        decreases left.len() + right.len(),
    {
        let take_left = right.len() == 0 || (left.len() > 0 && bytes::bytes_lt(
            right[right.len() - 1].key().as_bytes(),
            left[left.len() - 1].key().as_bytes(),
        ));
        let ghost left0 = left@;
        let ghost right0 = right@;
        let ghost tail0 = tail@;
        let next = if take_left {
            left.pop().unwrap()
        } else {
            right.pop().unwrap()
        };
        tail.push(next);
        proof {
            broadcast use vstd::seq_lib::group_to_multiset_ensures;
            if take_left {
                assert(left0 =~= left@.push(next));
            } else {
                assert(right0 =~= right@.push(next));
            }
            assert(all =~= left@.to_multiset().add(right@.to_multiset()).add(tail@.to_multiset()));
            assert forall|i: int| 0 <= i < left0.len() implies !bytes::lex_lt(
                next@.key,
                (#[trigger] left0[i])@.key,
            ) by {
                lemma_not_above(left0, right0, next, take_left, i);
            }
            assert forall|i: int| 0 <= i < right0.len() implies !bytes::lex_lt(
                next@.key,
                (#[trigger] right0[i])@.key,
            ) by {
                lemma_not_above_right(left0, right0, next, take_left, i);
            }
            assert(tail@.reverse() =~= seq![next] + tail0.reverse());
            assert forall|i: int, j: int| 0 <= i < j < tail@.len() implies !bytes::lex_lt(
                (#[trigger] tail@.reverse()[j])@.key,
                (#[trigger] tail@.reverse()[i])@.key,
            ) by {
                if i == 0 {
                    let k = tail0.len() - j;
                    assert(tail@.reverse()[j] == tail0[k]);
                    if take_left {
                        assert(next == left0[left0.len() - 1]);
                    } else {
                        assert(next == right0[right0.len() - 1]);
                    }
                } else {
                    assert(tail@.reverse()[i] == tail0.reverse()[i - 1]);
                    assert(tail@.reverse()[j] == tail0.reverse()[j - 1]);
                }
            }
        }
    }
    proof {
        assert(left@ =~= Seq::<Item>::empty());
        assert(right@ =~= Seq::<Item>::empty());
        broadcast use vstd::seq_lib::group_to_multiset_ensures;
        assert(tail@.to_multiset() =~= all);
    }
    reverse(tail)
}

/// No left item is above the item a merge takes next.
proof fn lemma_not_above(left: Seq<Item>, right: Seq<Item>, next: Item, take_left: bool, i: int)
    requires
        sorted(left),
        sorted(right),
        0 <= i < left.len(),
        take_left ==> left.len() > 0 && next == left.last(),
        !take_left ==> right.len() > 0 && next == right.last() && !(left.len() > 0
            && bytes::lex_lt(right.last()@.key, left.last()@.key)),
    ensures
        !bytes::lex_lt(next@.key, left[i]@.key),
{
    bytes::lemma_lex_irreflexive(next@.key);
    bytes::lemma_lex_irreflexive(left[i]@.key);
    let last = left.last()@.key;
    assert(i < left.len() - 1 ==> !bytes::lex_lt(left[left.len() - 1]@.key, left[i]@.key));
    if !take_left && bytes::lex_lt(next@.key, left[i]@.key) {
        bytes::lemma_lex_total(left[i]@.key, last);
        if bytes::lex_lt(left[i]@.key, last) {
            bytes::lemma_lex_transitive(next@.key, left[i]@.key, last);
        }
    }
}

/// No right item is above the item a merge takes next.
proof fn lemma_not_above_right(
    left: Seq<Item>,
    right: Seq<Item>,
    next: Item,
    take_left: bool,
    i: int,
)
    requires
        sorted(left),
        sorted(right),
        0 <= i < right.len(),
        take_left ==> left.len() > 0 && next == left.last() && (right.len() == 0 || bytes::lex_lt(
            right.last()@.key,
            left.last()@.key,
        )),
        !take_left ==> right.len() > 0 && next == right.last(),
    ensures
        !bytes::lex_lt(next@.key, right[i]@.key),
{
    bytes::lemma_lex_irreflexive(next@.key);
    bytes::lemma_lex_irreflexive(right[i]@.key);
    let last = right.last()@.key;
    assert(i < right.len() - 1 ==> !bytes::lex_lt(right[right.len() - 1]@.key, right[i]@.key));
    if take_left && bytes::lex_lt(next@.key, right[i]@.key) {
        bytes::lemma_lex_transitive(last, next@.key, right[i]@.key);
    }
}

/// Turns a run of items around.
fn reverse(items: Vec<Item>) -> (out: Vec<Item>)
    ensures
        out@ == items@.reverse(),
        out@.to_multiset() == items@.to_multiset(),
{
    let mut items = items;
    let mut out: Vec<Item> = Vec::with_capacity(items.len());
    let ghost all = items@;
    proof {
        broadcast use vstd::seq_lib::group_to_multiset_ensures;
        assert(out@.to_multiset() =~= vstd::multiset::Multiset::empty());
    }
    while items.len() > 0
        invariant
            items@.len() + out@.len() == all.len(),
            items@ == all.take(items@.len() as int),
            forall|i: int| 0 <= i < out@.len() ==> out@[i] == all[all.len() - 1 - i],
            all.to_multiset() == items@.to_multiset().add(out@.to_multiset()),
        decreases items.len(),
    {
        let ghost before = items@;
        let ghost out0 = out@;
        let item = items.pop().unwrap();
        out.push(item);
        proof {
            broadcast use vstd::seq_lib::group_to_multiset_ensures;
            assert(before =~= items@.push(item));
            assert(all.to_multiset() =~= items@.to_multiset().add(out@.to_multiset()));
        }
    }
    proof {
        assert(items@ =~= Seq::<Item>::empty());
        broadcast use vstd::seq_lib::group_to_multiset_ensures;
        assert(out@.to_multiset() =~= all.to_multiset());
        assert(out@ =~= all.reverse());
    }
    out
}

/// Sorts items by sort key, in `O(n log n)` comparisons.
fn sort_items(items: Vec<Item>) -> (out: Vec<Item>)
    ensures
        sorted(out@),
        out@.to_multiset() == items@.to_multiset(),
    decreases items.len(),
{
    if items.len() <= 1 {
        return items;
    }
    let ghost all = items@;
    let mut left = items;
    let half: usize = left.len() / 2;
    let right = left.split_off(half);
    proof {
        vstd::seq_lib::lemma_multiset_commutative(left@, right@);
        assert(left@ + right@ =~= all);
    }
    merge(sort_items(left), sort_items(right))
}

/// What is sealed does not depend on the order it came in: rearrangements of the
/// same items that ascend are the same list.
pub proof fn lemma_sealing_ignores_order(a: Seq<Item>, b: Seq<Item>)
    requires
        a.to_multiset() == b.to_multiset(),
        ascending(item_keys(a)),
        ascending(item_keys(b)),
    ensures
        a == b,
    decreases a.len(),
{
    broadcast use vstd::seq_lib::group_to_multiset_ensures;

    vstd::seq_lib::to_multiset_len(a);
    vstd::seq_lib::to_multiset_len(b);
    if a.len() == 0 {
        assert(a =~= b);
    } else {
        let last = a.len() - 1;
        let keys_a = item_keys(a);
        let keys_b = item_keys(b);
        assert(a.contains(a[last]));
        assert(b.to_multiset().contains(a[last]));
        assert(b.contains(a[last]));
        let k = choose|k: int| 0 <= k < b.len() && b[k] == a[last];
        assert(b.contains(b[last]));
        assert(a.to_multiset().contains(b[last]));
        assert(a.contains(b[last]));
        let j = choose|j: int| 0 <= j < a.len() && a[j] == b[last];
        if k != last {
            assert(bytes::lex_lt(keys_b[k], keys_b[last]));
            assert(keys_a[last] == keys_b[k] && keys_a[j] == keys_b[last]);
            bytes::lemma_lex_irreflexive(keys_a[last]);
            if j != last {
                assert(bytes::lex_lt(keys_a[j], keys_a[last]));
                bytes::lemma_lex_transitive(keys_a[last], keys_a[j], keys_a[last]);
            }
        }
        assert(a.drop_last() =~= a.remove(last));
        assert(b.drop_last() =~= b.remove(last));
        assert(a.drop_last().to_multiset() =~= b.drop_last().to_multiset());
        assert(ascending(item_keys(a.drop_last()))) by {
            assert(item_keys(a.drop_last()) =~= keys_a.drop_last());
        }
        assert(ascending(item_keys(b.drop_last()))) by {
            assert(item_keys(b.drop_last()) =~= keys_b.drop_last());
        }
        lemma_sealing_ignores_order(a.drop_last(), b.drop_last());
        assert(a =~= a.drop_last().push(a[last]));
        assert(b =~= b.drop_last().push(b[last]));
    }
}

/// An in-memory [`ItemSource`] over a sorted, sealed item vector.
#[derive(Debug, PartialEq, Eq)]
pub struct MemorySource {
    items: Vec<Item>,
}

impl Clone for MemorySource {
    fn clone(&self) -> (copy: Self)
        ensures
            copy.keys() == self.keys(),
            copy.ids() == self.ids(),
    {
        proof {
            use_type_invariant(self);
        }
        let mut items: Vec<Item> = Vec::with_capacity(self.items.len());
        let mut i: usize = 0;
        while i < self.items.len()
            invariant
                i <= self.items@.len(),
                items@.len() == i,
                forall|j: int| 0 <= j < i ==> (#[trigger] items@[j])@ == self.items@[j]@,
            decreases self.items.len() - i,
        {
            items.push(self.items[i].clone());
            i = i + 1;
        }
        proof {
            assert(item_keys(items@) =~= item_keys(self.items@));
            assert(item_ids(items@) =~= item_ids(self.items@));
        }
        MemorySource { items }
    }
}

impl MemorySource {
    /// The sealed items, in sort key order.
    pub closed spec fn items(&self) -> Seq<Item> {
        self.items@
    }

    #[verifier::type_invariant]
    spec fn well_formed(&self) -> bool {
        ascending(item_keys(self.items@))
    }

    /// Sorts the given items by sort key and seals them into a source.
    ///
    /// Returns [`ReconcileError::DuplicateItem`] if two items share a sort key:
    /// the fingerprint's set semantics depend on there being none.
    pub fn new(items: Vec<Item>) -> (r: Result<Self, ReconcileError>)
        ensures
            match r {
                Ok(source) => {
                    &&& !has_duplicate(items@)
                    &&& source.items().to_multiset() == items@.to_multiset()
                    &&& ascending(source.keys())
                    &&& source.keys() == item_keys(source.items())
                    &&& source.ids() == item_ids(source.items())
                },
                Err(error) => has_duplicate(items@) && error == ReconcileError::DuplicateItem,
            },
            (forall|i: int, j: int|
                0 <= i < j < items@.len() ==> (#[trigger] items@[i])@.key != (
                #[trigger] items@[j])@.key) <==> r is Ok,
    {
        proof {
            lemma_distinct_keys_are_no_duplicates(items@);
        }
        let run = sort_items(items);
        let mut i: usize = 1;
        while i < run.len()
            invariant
                1 <= i,
                sorted(run@),
                run@.to_multiset() == items@.to_multiset(),
                forall|a: int, b: int|
                    0 <= a < b < i && b < run@.len() ==> (#[trigger] run@[a])@.key != (
                    #[trigger] run@[b])@.key,
            decreases run.len() - i,
        {
            if bytes::bytes_eq(run[i - 1].key().as_bytes(), run[i].key().as_bytes()) {
                proof {
                    lemma_duplicate_permuted(run@, items@, i - 1, i as int);
                }
                return Err(ReconcileError::DuplicateItem);
            }
            proof {
                assert forall|a: int| 0 <= a < i implies (#[trigger] run@[a])@.key
                    != run@[i as int]@.key by {
                    if a < i - 1 && run@[a]@.key == run@[i as int]@.key {
                        let k = run@[a]@.key;
                        let m = run@[i - 1]@.key;
                        bytes::lemma_lex_total(k, m);
                        assert(!bytes::lex_lt(run@[i - 1]@.key, run@[a]@.key));
                        assert(!bytes::lex_lt(run@[i as int]@.key, run@[i - 1]@.key));
                    }
                }
            }
            i = i + 1;
        }
        proof {
            assert forall|a: int, b: int| 0 <= a < b < run@.len() implies bytes::lex_lt(
                #[trigger] item_keys(run@)[a],
                #[trigger] item_keys(run@)[b],
            ) by {
                bytes::lemma_lex_total(run@[a]@.key, run@[b]@.key);
            }
            if has_duplicate(items@) {
                let (a, b) = choose|a: int, b: int|
                    0 <= a < b < items@.len() && (#[trigger] items@[a])@.key == (#[trigger] items@[b])@.key;
                lemma_duplicate_permuted(items@, run@, a, b);
            }
        }
        Ok(MemorySource { items: run })
    }
}

/// A rearrangement keeps shared sort keys.
proof fn lemma_duplicate_permuted(from: Seq<Item>, to: Seq<Item>, a: int, b: int)
    requires
        from.to_multiset() == to.to_multiset(),
        0 <= a < b < from.len(),
        from[a]@.key == from[b]@.key,
    ensures
        has_duplicate(to),
{
    broadcast use vstd::seq_lib::group_to_multiset_ensures;

    let x = from[a];
    let y = from[b];
    assert(from.contains(x) && from.contains(y));
    assert(from.to_multiset().count(x) > 0);
    assert(from.to_multiset().count(y) > 0);
    assert(to.contains(x));
    assert(to.contains(y));
    let i = choose|i: int| 0 <= i < to.len() && to[i] == x;
    if x != y {
        let j = choose|j: int| 0 <= j < to.len() && to[j] == y;
        assert(to[i]@.key == to[j]@.key);
        if i < j {
            assert(has_duplicate(to));
        } else {
            assert(to[j]@.key == to[i]@.key);
        }
    } else {
        let rest = from.remove(a);
        assert(rest[b - 1] == x);
        assert(from.remove(a).to_multiset() =~= from.to_multiset().remove(x));
        assert(rest.contains(x));
        assert(rest.to_multiset().count(x) > 0);
        assert(to.remove(i).to_multiset() =~= to.to_multiset().remove(x));
        assert(to.remove(i).to_multiset().count(x) > 0);
        assert(to.remove(i).contains(x));
        let k = choose|k: int| 0 <= k < to.remove(i).len() && to.remove(i)[k] == x;
        if k < i {
            assert(to[k] == x);
            assert(to[k]@.key == to[i]@.key);
        } else {
            assert(to[k + 1] == x);
            assert(to[i]@.key == to[k + 1]@.key);
        }
    }
}

impl ItemSource for MemorySource {
    closed spec fn keys(&self) -> Seq<Seq<u8>> {
        item_keys(self.items@)
    }

    closed spec fn ids(&self) -> Seq<Seq<u8>> {
        item_ids(self.items@)
    }

    fn len(&self) -> (n: usize) {
        proof {
            use_type_invariant(self);
            assert(self.ids().len() == self.keys().len());
        }
        self.items.len()
    }

    fn key(&self, index: usize) -> (key: &SortKey) {
        self.items[index].key()
    }

    fn id(&self, index: usize) -> (id: &ItemId) {
        self.items[index].id()
    }
}

impl<S: ItemSource + ?Sized> ItemSource for &S {
    open spec fn keys(&self) -> Seq<Seq<u8>> {
        (**self).keys()
    }

    open spec fn ids(&self) -> Seq<Seq<u8>> {
        (**self).ids()
    }

    fn len(&self) -> (n: usize) {
        assert(self.ids() == (**self).ids());
        (**self).len()
    }

    fn key(&self, index: usize) -> (key: &SortKey) {
        (**self).key(index)
    }

    fn id(&self, index: usize) -> (id: &ItemId) {
        (**self).id(index)
    }

    fn seek(&self, bound: &Bound) -> (index: usize) {
        (**self).seek(bound)
    }
}

} // verus!
