//! The XOR group the sketch is built over, and one cell of that sketch.
//!
//! A source symbol is the item's identity bytes, unmodified, so a decoded symbol
//! is directly fetchable without a resolve round. All symbols in one session
//! share a width, because XOR over differing widths is not a group operation;
//! [`super::engine`] enforces that.
//!
//! The checksum is a `u64` that must not be homomorphic over XOR, so that a cell
//! claiming to hold one symbol can be checked: the first eight bytes of SHA-256,
//! read little-endian. A false peel is therefore a `2^-64` event per check.
use crate::reconcile::bytes;
use crate::reconcile::hash;
use vstd::prelude::*;

verus! {

/// Direction of a [`CodedSymbol::apply`] that adds a symbol to a cell.
pub const ADD: i64 = 1;

/// Direction of a [`CodedSymbol::apply`] that removes one.
pub const REMOVE: i64 = -1;

/// The checksum of one source symbol: the first eight bytes of its SHA-256
/// digest, least significant first.
pub open spec fn checksum_of(symbol: Seq<u8>) -> u64 {
    bytes::le_value(hash::sha256_digest(symbol).take(8)) as u64
}

/// The checksum of one source symbol.
pub fn symbol_hash(symbol: &[u8]) -> (h: u64)
    ensures
        h == checksum_of(symbol@),
{
    let digest = hash::sha256(symbol);
    let prefix = vstd::slice::slice_subrange(digest.as_slice(), 0, 8);
    assert(prefix@ =~= digest@.take(8));
    bytes::read_le(prefix)
}

/// A source symbol bundled with its checksum, so the checksum is computed once.
#[derive(Debug, PartialEq, Eq)]
pub struct HashedSymbol {
    symbol: Vec<u8>,
    hash: u64,
}

impl View for HashedSymbol {
    type V = Seq<u8>;

    closed spec fn view(&self) -> Seq<u8> {
        self.symbol@
    }
}

impl HashedSymbol {
    #[verifier::type_invariant]
    spec fn well_formed(&self) -> bool {
        self.hash == checksum_of(self.symbol@)
    }

    /// Hashes and bundles a source symbol.
    pub fn new(symbol: Vec<u8>) -> (hashed: Self)
        ensures
            hashed@ == symbol@,
    {
        let hash = symbol_hash(symbol.as_slice());
        HashedSymbol { symbol, hash }
    }

    /// The symbol's checksum, which is also its mapping seed.
    pub fn hash(&self) -> (h: u64)
        ensures
            h == checksum_of(self@),
    {
        proof {
            use_type_invariant(self);
        }
        self.hash
    }

    /// The raw symbol bytes.
    pub fn symbol(&self) -> (bytes: &[u8])
        ensures
            bytes@ == self@,
    {
        self.symbol.as_slice()
    }
}

/// What one cell of a sketch holds.
#[verifier::ext_equal]
pub struct CellView {
    /// The XOR of the member symbols.
    pub sum: Seq<u8>,
    /// The XOR of the member checksums.
    pub checksum: u64,
    /// The signed number of members.
    pub count: i64,
}

/// `cell` with `other` XORed into it, over the shorter of the two widths.
pub open spec fn xor_bytes(cell: Seq<u8>, other: Seq<u8>) -> Seq<u8> {
    Seq::new(
        cell.len(),
        |i: int|
            if i < other.len() {
                cell[i] ^ other[i]
            } else {
                cell[i]
            },
    )
}

/// `count` moved by `direction`, clamped to what an `i64` holds.
pub open spec fn clamped_add(count: i64, direction: i64) -> i64 {
    if count + direction > i64::MAX {
        i64::MAX
    } else if count + direction < i64::MIN {
        i64::MIN
    } else {
        (count + direction) as i64
    }
}

/// `cell` with one symbol added or removed.
pub open spec fn applied(cell: CellView, symbol: Seq<u8>, direction: i64) -> CellView {
    CellView {
        sum: xor_bytes(cell.sum, symbol),
        checksum: cell.checksum ^ checksum_of(symbol),
        count: clamped_add(cell.count, direction),
    }
}

/// The cell without members.
pub open spec fn zero_cell(width: nat) -> CellView {
    CellView { sum: Seq::new(width, |i: int| 0u8), checksum: 0, count: 0 }
}

/// Whether a cell reads as exactly one symbol, which its checksum confirms.
pub open spec fn cell_is_pure(cell: CellView) -> bool {
    &&& cell.sum.len() > 0
    &&& (cell.count == 1 || cell.count == -1)
    &&& cell.checksum == checksum_of(cell.sum)
}

/// Whether a cell has nothing left in it to explain.
pub open spec fn cell_is_empty(cell: CellView) -> bool {
    &&& cell.count == 0
    &&& cell.checksum == 0
    &&& forall|i: int| 0 <= i < cell.sum.len() ==> #[trigger] cell.sum[i] == 0
}

/// The checksum of a symbol is what the first eight bytes of the SHA-256 digest of
/// all its bytes spell, least significant first.
pub proof fn lemma_checksum_spells_the_digest(symbol: Seq<u8>)
    ensures
        ({
            let d = hash::sha256_digest(symbol);
            d.len() == 32 ==> checksum_of(symbol) == d[0] + 0x100 * d[1] + 0x1_0000 * d[2]
                + 0x100_0000 * d[3] + 0x1_0000_0000 * d[4] + 0x100_0000_0000 * d[5]
                + 0x1_0000_0000_0000 * d[6] + 0x100_0000_0000_0000 * d[7]
        }),
{
    let d = hash::sha256_digest(symbol);
    if d.len() == 32 {
        bytes::lemma_eight_bytes_spell(d.take(8));
    }
}

/// A cell that holds one symbol, added to it or removed from it, reads as that
/// symbol and as the side it is on.
pub proof fn lemma_one_symbol_is_pure(symbol: Seq<u8>, direction: i64)
    requires
        symbol.len() > 0,
        direction == 1 || direction == -1,
    ensures
        ({
            let cell = applied(zero_cell(symbol.len()), symbol, direction);
            &&& cell_is_pure(cell)
            &&& !cell_is_empty(cell)
            &&& cell.sum == symbol
            &&& cell.count == direction
        }),
{
    let zero = zero_cell(symbol.len());
    let cell = applied(zero, symbol, direction);
    assert forall|i: int| 0 <= i < symbol.len() implies cell.sum[i] == symbol[i] by {
        let x = symbol[i];
        assert(0u8 ^ x == x) by (bit_vector);
    }
    assert(cell.sum =~= symbol);
    let c = checksum_of(symbol);
    assert(0u64 ^ c == c) by (bit_vector);
}

/// What a cell reads as, from its parts: one symbol exactly if its count is one
/// either way and its checksum is that of its sum, and nothing exactly if every part
/// is zero.
pub proof fn lemma_cell_readings(cell: CellView)
    ensures
        cell_is_pure(cell) <==> cell.sum.len() >= 1 && cell.count * cell.count == 1
            && checksum_of(cell.sum) == cell.checksum,
        cell_is_empty(cell) <==> cell == (CellView {
            sum: Seq::new(cell.sum.len(), |i: int| 0u8),
            checksum: 0,
            count: 0,
        }),
{
    let n = cell.count as int;
    assert(n * n == 1 <==> n == 1 || n == -1) by (nonlinear_arith);
    let zeros = CellView {
        sum: Seq::new(cell.sum.len(), |i: int| 0u8),
        checksum: 0,
        count: 0,
    };
    if cell_is_empty(cell) {
        assert(cell.sum =~= zeros.sum);
    }
}

/// Adding a symbol and removing it again leaves a cell as it was, short of the
/// largest count; and so does removing and adding it.
pub proof fn lemma_apply_undoes(cell: CellView, symbol: Seq<u8>, direction: i64)
    requires
        direction == 1 || direction == -1,
        i64::MIN < cell.count < i64::MAX,
    ensures
        applied(applied(cell, symbol, direction), symbol, (-direction) as i64) == cell,
        applied(cell, symbol, direction).count == cell.count + direction,
{
    let there = applied(cell, symbol, direction);
    let back = applied(there, symbol, (-direction) as i64);
    assert forall|i: int| 0 <= i < cell.sum.len() implies back.sum[i] == cell.sum[i] by {
        if i < symbol.len() {
            let a = cell.sum[i];
            let b = symbol[i];
            assert((a ^ b) ^ b == a) by (bit_vector);
        }
    }
    assert(back.sum =~= cell.sum);
    let a = cell.checksum;
    let b = checksum_of(symbol);
    assert((a ^ b) ^ b == a) by (bit_vector);
}

/// Applying a symbol XORs it into the sum byte by byte, over the shorter of the two
/// widths, XORs its checksum in, and moves the count by the direction, which stays at
/// the limits of an `i64`.
pub proof fn lemma_apply_parts(cell: CellView, symbol: Seq<u8>, direction: i64)
    ensures
        ({
            let next = applied(cell, symbol, direction);
            &&& next.sum.len() == cell.sum.len()
            &&& forall|i: int|
                0 <= i < cell.sum.len() && i < symbol.len() ==> #[trigger] next.sum[i]
                    == cell.sum[i] ^ symbol[i]
            &&& forall|i: int|
                symbol.len() <= i < cell.sum.len() ==> #[trigger] next.sum[i] == cell.sum[i]
            &&& next.checksum == cell.checksum ^ checksum_of(symbol)
            &&& i64::MIN <= cell.count + direction <= i64::MAX ==> next.count == cell.count
                + direction
            &&& cell.count + direction > i64::MAX ==> next.count == i64::MAX
            &&& cell.count + direction < i64::MIN ==> next.count == i64::MIN
        }),
{
}

/// One cell of a rateless sketch: the XOR of its members, the XOR of their
/// checksums, and how many members it has.
///
/// The count is signed because a decoder subtracts the peer's cell from its own:
/// `+1` then means "the peer holds it and I do not" and `-1` the reverse, which
/// is how one stream yields both halves of the difference.
#[derive(Debug, PartialEq, Eq)]
pub struct CodedSymbol {
    sum: Vec<u8>,
    checksum: u64,
    count: i64,
}

impl View for CodedSymbol {
    type V = CellView;

    closed spec fn view(&self) -> CellView {
        CellView { sum: self.sum@, checksum: self.checksum, count: self.count }
    }
}

impl Clone for CodedSymbol {
    fn clone(&self) -> (copy: Self)
        ensures
            copy@ == self@,
    {
        CodedSymbol {
            sum: bytes::bytes_copy(self.sum.as_slice()),
            checksum: self.checksum,
            count: self.count,
        }
    }
}

impl Default for CodedSymbol {
    fn default() -> (cell: Self)
        ensures
            cell@ == zero_cell(0),
    {
        CodedSymbol::zero(0)
    }
}

impl CodedSymbol {
    /// The identity cell of the given symbol width.
    pub fn zero(width: usize) -> (cell: Self)
        ensures
            cell@ == zero_cell(width as nat),
    {
        let sum: Vec<u8> = vec![0u8; width];
        assert(sum@ =~= zero_cell(width as nat).sum);
        CodedSymbol { sum, checksum: 0, count: 0 }
    }

    /// Builds a cell from its parts, for decoding one off the wire.
    pub fn new(sum: Vec<u8>, checksum: u64, count: i64) -> (cell: Self)
        ensures
            cell@ == (CellView { sum: sum@, checksum, count }),
    {
        CodedSymbol { sum, checksum, count }
    }

    /// The XOR of the cell's member symbols.
    pub fn sum(&self) -> (sum: &[u8])
        ensures
            sum@ == self@.sum,
    {
        self.sum.as_slice()
    }

    /// The XOR of the cell's member checksums.
    pub fn checksum(&self) -> (checksum: u64)
        ensures
            checksum == self@.checksum,
    {
        self.checksum
    }

    /// The signed number of members.
    pub fn count(&self) -> (count: i64)
        ensures
            count == self@.count,
    {
        self.count
    }

    /// Adds or removes one source symbol.
    ///
    /// The XOR runs over the shorter of the two widths. Widths are equal for
    /// anything a session accepts; tolerating the difference here means a
    /// mismatched frame is answered with an error from the engine.
    pub fn apply(&mut self, symbol: &HashedSymbol, direction: i64)
        ensures
            final(self)@ == applied(old(self)@, symbol@, direction),
    {
        let bytes = symbol.symbol();
        let mut i: usize = 0;
        while i < self.sum.len() && i < bytes.len()
            invariant
                bytes@ == symbol@,
                i <= self.sum@.len(),
                i <= bytes@.len(),
                self.sum@.len() == old(self).sum@.len(),
                self.checksum == old(self).checksum,
                self.count == old(self).count,
                forall|j: int| 0 <= j < i ==> self.sum@[j] == old(self).sum@[j] ^ symbol@[j],
                forall|j: int| i <= j < self.sum@.len() ==> self.sum@[j] == old(self).sum@[j],
            decreases self.sum.len() - i,
        {
            let mixed: u8 = self.sum[i] ^ bytes[i];
            self.sum.set(i, mixed);
            i = i + 1;
        }
        self.checksum = self.checksum ^ symbol.hash();
        self.count = match self.count.checked_add(direction) {
            Some(count) => count,
            None => if direction > 0 {
                i64::MAX
            } else {
                i64::MIN
            },
        };
        assert(self.sum@ =~= xor_bytes(old(self).sum@, symbol@));
    }

    /// Whether the cell holds exactly one symbol, which its checksum confirms.
    ///
    /// A zero-width cell is never pure however its checksum reads. Symbols are
    /// item identities and the empty identity is not an item, so a session that
    /// reconciles nothing must not be able to peel something out of it.
    pub fn is_pure(&self) -> (r: bool)
        ensures
            r == cell_is_pure(self@),
    {
        self.sum.len() > 0 && (self.count == 1 || self.count == -1) && self.checksum == symbol_hash(
            self.sum.as_slice(),
        )
    }

    /// Whether the cell is the identity: nothing left in it to explain.
    ///
    /// All three fields, not just the count and the checksum. Two of the three
    /// are the peer's to choose freely, so a cell carrying an arbitrary sum with
    /// a zeroed count and checksum would otherwise read as a fully explained
    /// residual, which is a decoder concluding it is in sync from a frame that
    /// told it nothing.
    pub fn is_empty(&self) -> (r: bool)
        ensures
            r == cell_is_empty(self@),
    {
        if self.count != 0 || self.checksum != 0 {
            return false;
        }
        let mut i: usize = 0;
        while i < self.sum.len()
            invariant
                i <= self.sum@.len(),
                self.count == 0,
                self.checksum == 0,
                forall|j: int| 0 <= j < i ==> self.sum@[j] == 0,
            decreases self.sum.len() - i,
        {
            if self.sum[i] != 0 {
                assert(self@.sum[i as int] != 0);
                return false;
            }
            i = i + 1;
        }
        true
    }
}

} // verus!
