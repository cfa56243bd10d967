//! Combinable range fingerprints.
//!
//! A range is summarized by
//!
//! ```text
//! fp = SHA256( (sum of SHA256(id)) mod 2^256 || uvarint(count) )[..16]
//! ```
//!
//! The inner sum is associative and commutative, so adjacent ranges combine in
//! O(1) via [`Accumulator::merge`]: that is what lets a segment tree answer a
//! range fingerprint in O(log n). The count is folded into the outer hash so two
//! distinct sets that happen to share an additive sum still differ, which a
//! plain additive or XOR sum would not.
use crate::reconcile::bytes;
use crate::reconcile::hash;
use crate::reconcile::source::ItemId;
use vstd::prelude::*;

verus! {

/// Truncated digest length of a [`Fingerprint`].
pub const FINGERPRINT_LEN: usize = 16;

/// `2^256`, what sums of digests are taken modulo.
pub open spec fn digest_modulus() -> nat {
    0x1_0000_0000_0000_0000_0000_0000_0000_0000_0000_0000_0000_0000_0000_0000_0000_0000nat
}

/// The digest of an identity, read as a big-endian integer.
pub open spec fn id_value(id: Seq<u8>) -> nat {
    bytes::be_value(hash::sha256_digest(id))
}

/// The sum of the digests of a run of identities.
pub open spec fn id_total(ids: Seq<Seq<u8>>) -> nat
    decreases ids.len(),
{
    if ids.len() == 0 {
        0
    } else {
        id_total(ids.drop_last()) + id_value(ids.last())
    }
}

/// The unsigned LEB128 encoding of an integer: seven bits a byte, least
/// significant first, the high bit set on every byte but the last.
pub open spec fn leb128(n: nat) -> Seq<u8>
    decreases n,
{
    if n < 128 {
        seq![n as u8]
    } else {
        seq![(n % 128 + 128) as u8] + leb128(n / 128)
    }
}

/// The fingerprint of a sum of digests and the number of them.
pub open spec fn summary(sum: nat, count: nat) -> Seq<u8> {
    hash::sha256_digest(bytes::be_bytes(sum, 32) + leb128(count)).take(FINGERPRINT_LEN as int)
}

/// The fingerprint of a run of identities.
pub open spec fn fingerprint_of(ids: Seq<Seq<u8>>) -> Seq<u8> {
    summary(id_total(ids) % digest_modulus(), ids.len())
}

/// Sums of digests add up over concatenation.
pub proof fn lemma_total_concat(a: Seq<Seq<u8>>, b: Seq<Seq<u8>>)
    ensures
        id_total(a + b) == id_total(a) + id_total(b),
    decreases b.len(),
{
    if b.len() == 0 {
        assert(a + b =~= a);
    } else {
        assert((a + b).drop_last() =~= a + b.drop_last());
        lemma_total_concat(a, b.drop_last());
    }
}

/// Taking one identity out of a run takes its digest out of the sum.
proof fn lemma_total_remove(s: Seq<Seq<u8>>, k: int)
    requires
        0 <= k < s.len(),
    ensures
        id_total(s) == id_total(s.remove(k)) + id_value(s[k]),
    decreases s.len(),
{
    if k == s.len() - 1 {
        assert(s.remove(k) =~= s.drop_last());
    } else {
        lemma_total_remove(s.drop_last(), k);
        assert(s.remove(k).drop_last() =~= s.drop_last().remove(k));
    }
}

/// The sum does not depend on the order of the identities.
pub proof fn lemma_total_order_independent(a: Seq<Seq<u8>>, b: Seq<Seq<u8>>)
    requires
        a.to_multiset() == b.to_multiset(),
    ensures
        id_total(a) == id_total(b),
        a.len() == b.len(),
    decreases a.len(),
{
    broadcast use vstd::seq_lib::group_to_multiset_ensures;

    vstd::seq_lib::to_multiset_len(a);
    vstd::seq_lib::to_multiset_len(b);
    if a.len() > 0 {
        let x = a.last();
        assert(a.contains(a[a.len() - 1]));
        assert(b.to_multiset().contains(x));
        assert(b.contains(x));
        let k = choose|k: int| 0 <= k < b.len() && b[k] == x;
        assert(a.drop_last() =~= a.remove(a.len() - 1));
        assert(a.drop_last().to_multiset() =~= b.remove(k).to_multiset());
        lemma_total_order_independent(a.drop_last(), b.remove(k));
        lemma_total_remove(b, k);
    }
}

/// Two ranges holding the same identities have equal fingerprints, whatever the
/// order.
pub proof fn lemma_fingerprint_order_independent(a: Seq<Seq<u8>>, b: Seq<Seq<u8>>)
    requires
        a.to_multiset() == b.to_multiset(),
    ensures
        fingerprint_of(a) == fingerprint_of(b),
{
    lemma_total_order_independent(a, b);
}

/// The fingerprint of a run of identities is the first sixteen bytes of the SHA-256
/// digest of two things: the sum of the digests of the whole identities, each read
/// as a big-endian integer, modulo `2^256` in thirty-two big-endian bytes; and the
/// number of identities in LEB128.
pub proof fn lemma_fingerprint_formula(ids: Seq<Seq<u8>>)
    ensures
        fingerprint_of(ids) == hash::sha256_digest(
            bytes::be_bytes(
                ids.fold_left(
                    0nat,
                    |sum: nat, id: Seq<u8>| sum + bytes::be_value(hash::sha256_digest(id)),
                ) % vstd::arithmetic::power2::pow2(256),
                32,
            ) + leb128(ids.len()),
        ).take(16),
{
    lemma_total_is_the_fold(ids);
    lemma_modulus_is_a_power();
}

/// The fingerprint of one identity is the digest of its digest and the count one, cut
/// to sixteen bytes: so two windows of one item each have equal fingerprints only
/// where the digest, cut so, is the same for both identities. The fingerprint of none
/// is that of thirty-two zeros and the count zero.
pub proof fn lemma_short_fingerprints(id: Seq<u8>)
    ensures
        hash::sha256_digest(id).len() == 32 ==> fingerprint_of(seq![id]) == hash::sha256_digest(
            hash::sha256_digest(id) + seq![1u8],
        ).take(16),
        fingerprint_of(Seq::empty()) == hash::sha256_digest(
            Seq::new(32, |i: int| 0u8) + seq![0u8],
        ).take(16),
{
    let digest = hash::sha256_digest(id);
    let one = seq![id];
    assert(one.drop_last() =~= Seq::<Seq<u8>>::empty());
    reveal_with_fuel(id_total, 2);
    assert(id_total(one) == bytes::be_value(digest));
    assert(leb128(1) =~= seq![1u8]);
    assert(leb128(0) =~= seq![0u8]);
    if digest.len() == 32 {
        bytes::lemma_be_value_bound(digest);
        assert(bytes::pow256(32) == digest_modulus()) by {
            reveal_with_fuel(bytes::pow256, 33);
        }
        bytes::lemma_be_value_round_trip(digest);
        vstd::arithmetic::div_mod::lemma_small_mod(bytes::be_value(digest), digest_modulus());
    }
    let zeros = Seq::new(32, |i: int| 0u8);
    vstd::arithmetic::div_mod::lemma_small_mod(0, digest_modulus());
    assert(bytes::be_bytes(0, 32) =~= zeros) by {
        bytes::lemma_be_bytes_len(0, 32);
        assert forall|i: int| 0 <= i < 32 implies bytes::be_bytes(0, 32)[i] == 0 by {
            bytes::lemma_be_bytes_digit(0, 32, i);
            let p = vstd::arithmetic::power::pow(256, (32 - 1 - i) as nat);
            vstd::arithmetic::power::lemma_pow_positive(256, (32 - 1 - i) as nat);
            assert(0int / p == 0) by (nonlinear_arith)
                requires
                    p > 0,
            ;
        }
    }
}

/// The sum of digests, folded one identity at a time.
proof fn lemma_total_is_the_fold(ids: Seq<Seq<u8>>)
    ensures
        id_total(ids) == ids.fold_left(
            0nat,
            |sum: nat, id: Seq<u8>| sum + bytes::be_value(hash::sha256_digest(id)),
        ),
    decreases ids.len(),
{
    if ids.len() > 0 {
        lemma_total_is_the_fold(ids.drop_last());
    }
}

/// LEB128 spells the integer seven bits a byte, least significant first, with the
/// high bit on every byte but the last.
pub proof fn lemma_leb128_spells(n: nat)
    ensures
        ({
            let b = leb128(n);
            &&& b.len() >= 1
            &&& b.fold_right(|byte: u8, rest: nat| (byte as nat) % 128 + 128 * rest, 0nat) == n
            &&& forall|i: int| 0 <= i < b.len() ==> (#[trigger] b[i] >= 128 <==> i < b.len() - 1)
            &&& b.len() > 1 ==> b.last() != 0
        }),
    decreases n,
{
    let f = |byte: u8, rest: nat| (byte as nat) % 128 + 128 * rest;
    let b = leb128(n);
    b.lemma_fold_right_alt(f, 0nat);
    if n >= 128 {
        let tail = leb128(n / 128);
        lemma_leb128_spells(n / 128);
        tail.lemma_fold_right_alt(f, 0nat);
        assert(b.drop_first() =~= tail);
        assert(b[0] == (n % 128 + 128) as u8);
        reveal_with_fuel(Seq::fold_right_alt, 2);
    } else {
        assert(b.drop_first() =~= Seq::<u8>::empty());
        reveal_with_fuel(Seq::fold_right_alt, 3);
    }
}

/// A 16-byte digest summarizing the set of item identities in a range.
///
/// Two ranges holding the same identities have equal fingerprints regardless of
/// order.
#[derive(Clone, Copy, Debug, PartialEq, Eq, Hash)]
pub struct Fingerprint([u8; 16]);

impl View for Fingerprint {
    type V = Seq<u8>;

    closed spec fn view(&self) -> Seq<u8> {
        self.0@
    }
}

/// A fingerprint has [`FINGERPRINT_LEN`] bytes.
pub proof fn lemma_fingerprint_len(fingerprint: Fingerprint)
    ensures
        fingerprint@.len() == FINGERPRINT_LEN,
{
}

impl Fingerprint {
    /// The fingerprint of an empty range: `SHA256(0^32 || uvarint(0))[..16]`.
    pub fn empty() -> (fingerprint: Self)
        ensures
            fingerprint@ == fingerprint_of(Seq::empty()),
    {
        Accumulator::default().finalize()
    }

    /// Borrows the digest bytes.
    pub fn as_bytes(&self) -> (bytes: &[u8; 16])
        ensures
            bytes@ == self@,
            bytes@.len() == FINGERPRINT_LEN,
    {
        &self.0
    }

    /// Reads a fingerprint of exactly [`FINGERPRINT_LEN`] bytes.
    pub fn from_bytes(b: &[u8]) -> (r: Option<Self>)
        ensures
            match r {
                Some(fingerprint) => fingerprint@ == b@ && b@.len() == FINGERPRINT_LEN,
                None => b@.len() != FINGERPRINT_LEN,
            },
    {
        if b.len() != FINGERPRINT_LEN {
            return None;
        }
        let digest: [u8; 16] = [
            b[0],
            b[1],
            b[2],
            b[3],
            b[4],
            b[5],
            b[6],
            b[7],
            b[8],
            b[9],
            b[10],
            b[11],
            b[12],
            b[13],
            b[14],
            b[15],
        ];
        assert(digest@ =~= b@);
        Some(Fingerprint(digest))
    }

    /// Whether two fingerprints are the same bytes.
    pub fn same(&self, other: &Fingerprint) -> (r: bool)
        ensures
            r == (self@ == other@),
    {
        let mut i: usize = 0;
        while i < FINGERPRINT_LEN
            invariant
                i <= FINGERPRINT_LEN,
                forall|j: int| 0 <= j < i ==> self.0@[j] == other.0@[j],
            decreases FINGERPRINT_LEN - i,
        {
            if self.0[i] != other.0[i] {
                return false;
            }
            i = i + 1;
        }
        assert(self.0@ =~= other.0@);
        true
    }

    /// Folds the given identities into a fresh accumulator and finalizes it.
    pub fn of(ids: &[&ItemId]) -> (fingerprint: Self)
        ensures
            fingerprint@ == fingerprint_of(ids@.map_values(|id: &ItemId| id@)),
    {
        let ghost views = ids@.map_values(|id: &ItemId| id@);
        let mut acc = Accumulator::default();
        let mut i: usize = 0;
        assert(views.take(0) =~= Seq::empty());
        while i < ids.len()
            invariant
                i <= ids@.len(),
                views == ids@.map_values(|id: &ItemId| id@),
                acc@ == holding(views.take(i as int)),
            decreases ids.len() - i,
        {
            proof {
                assert(views.take(i + 1).drop_last() =~= views.take(i as int));
                assert(views.take(i + 1).last() == ids@[i as int]@);
            }
            acc.add(ids[i]);
            i = i + 1;
        }
        assert(views.take(i as int) =~= views);
        acc.finalize()
    }
}

/// What an [`Accumulator`] holds.
pub struct AccumulatorView {
    /// The sum of the digests, modulo `2^256`.
    pub sum: nat,
    /// The number of identities.
    pub count: nat,
}

/// What an accumulator holds once a run of identities is folded in.
pub open spec fn holding(ids: Seq<Seq<u8>>) -> AccumulatorView {
    AccumulatorView { sum: id_total(ids) % digest_modulus(), count: ids.len() }
}

/// What an accumulator holds once another is folded into it.
pub open spec fn merged(a: AccumulatorView, b: AccumulatorView) -> AccumulatorView {
    AccumulatorView { sum: (a.sum + b.sum) % digest_modulus(), count: a.count + b.count }
}

/// Merging is commutative and associative, and an empty accumulator changes
/// nothing.
pub proof fn lemma_merge_laws(a: AccumulatorView, b: AccumulatorView, c: AccumulatorView)
    requires
        a.sum < digest_modulus(),
    ensures
        merged(a, b) == merged(b, a),
        merged(merged(a, b), c) == merged(a, merged(b, c)),
        merged(a, holding(Seq::empty())) == a,
{
    let m = digest_modulus() as int;
    vstd::arithmetic::div_mod::lemma_add_mod_noop_right(c.sum as int, (a.sum + b.sum) as int, m);
    vstd::arithmetic::div_mod::lemma_add_mod_noop_right(a.sum as int, (b.sum + c.sum) as int, m);
    vstd::arithmetic::div_mod::lemma_small_mod(a.sum, digest_modulus());
    vstd::arithmetic::div_mod::lemma_small_mod(0, digest_modulus());
}

/// What an accumulator holds of a run is the sum of the digests of the whole
/// identities modulo `2^256`, and their number; merging adds both; and the fingerprint
/// of a sum and a count is the digest of the two, cut to sixteen bytes.
pub proof fn lemma_accumulator_formula(
    ids: Seq<Seq<u8>>,
    a: AccumulatorView,
    b: AccumulatorView,
    sum: nat,
    count: nat,
)
    ensures
        holding(ids).count == ids.len(),
        holding(ids).sum == ids.fold_left(
            0nat,
            |total: nat, id: Seq<u8>| total + bytes::be_value(hash::sha256_digest(id)),
        ) % digest_modulus(),
        merged(a, b).count == a.count + b.count,
        merged(a, b).sum == (a.sum + b.sum) % digest_modulus(),
        summary(sum, count) == hash::sha256_digest(
            bytes::be_bytes(sum, 32) + leb128(count),
        ).take(16),
        digest_modulus() == vstd::arithmetic::power2::pow2(256),
{
    lemma_total_is_the_fold(ids);
    assert(ids.fold_left(
        0nat,
        |total: nat, id: Seq<u8>| total + bytes::be_value(hash::sha256_digest(id)),
    ) == ids.fold_left(
        0nat,
        |sum: nat, id: Seq<u8>| sum + bytes::be_value(hash::sha256_digest(id)),
    ));
    lemma_modulus_is_a_power();
}

/// The modulus of sums is a power of two.
proof fn lemma_modulus_is_a_power()
    ensures
        digest_modulus() == vstd::arithmetic::power2::pow2(256),
{
    vstd::arithmetic::power2::lemma2_to64();
    vstd::arithmetic::power2::lemma2_to64_rest();
    vstd::arithmetic::power2::lemma_pow2_adds(64, 64);
    vstd::arithmetic::power2::lemma_pow2_adds(128, 128);
    assert(0x1_0000_0000_0000_0000int * 0x1_0000_0000_0000_0000int
        == 0x1_0000_0000_0000_0000_0000_0000_0000_0000int) by (nonlinear_arith);
    assert(0x1_0000_0000_0000_0000_0000_0000_0000_0000int
        * 0x1_0000_0000_0000_0000_0000_0000_0000_0000int == digest_modulus()) by (nonlinear_arith);
}

/// Accumulators of adjacent runs merge into the accumulator of the whole.
pub proof fn lemma_adjacent_compose(a: Seq<Seq<u8>>, b: Seq<Seq<u8>>)
    ensures
        merged(holding(a), holding(b)) == holding(a + b),
{
    lemma_total_concat(a, b);
    vstd::arithmetic::div_mod::lemma_add_mod_noop(
        id_total(a) as int,
        id_total(b) as int,
        digest_modulus() as int,
    );
}

/// A running sum of digests modulo `2^256`, plus the item count.
///
/// The sum is held as four 64-bit limbs, most significant first.
#[derive(Clone, Copy, Debug, PartialEq, Eq)]
pub struct Accumulator {
    sum: [u64; 4],
    count: u64,
}

/// The integer four limbs spell, most significant first.
pub open spec fn limbs_value(limbs: Seq<u64>) -> nat {
    (limbs[0] as nat * 0x1_0000_0000_0000_0000_0000_0000_0000_0000_0000_0000_0000_0000nat
        + limbs[1] as nat * 0x1_0000_0000_0000_0000_0000_0000_0000_0000nat + limbs[2] as nat
        * 0x1_0000_0000_0000_0000nat + limbs[3] as nat) as nat
}

impl View for Accumulator {
    type V = AccumulatorView;

    closed spec fn view(&self) -> AccumulatorView {
        AccumulatorView { sum: limbs_value(self.sum@), count: self.count as nat }
    }
}

impl Default for Accumulator {
    fn default() -> (acc: Self)
        ensures
            acc@ == holding(Seq::empty()),
    {
        let sum: [u64; 4] = [0, 0, 0, 0];
        assert(limbs_value(sum@) == 0);
        Accumulator { sum, count: 0 }
    }
}

/// Four limbs spell an integer below `2^256`.
pub proof fn lemma_limbs_bound(limbs: Seq<u64>)
    ensures
        limbs_value(limbs) < digest_modulus(),
{
}

/// Whatever an accumulator has folded, its sum is reduced modulo `2^256`.
pub proof fn lemma_sum_is_reduced(acc: Accumulator)
    ensures
        acc@.sum < digest_modulus(),
{
    lemma_limbs_bound(acc.sum@);
}

impl Accumulator {
    /// Folds one item identity into the accumulator.
    pub fn add(&mut self, id: &ItemId)
        requires
            old(self)@.count < u64::MAX,
        ensures
            final(self)@ == (AccumulatorView {
                sum: (old(self)@.sum + id_value(id@)) % digest_modulus(),
                count: old(self)@.count + 1,
            }),
            final(self)@.sum == (old(self)@.sum + bytes::be_value(hash::sha256_digest(id@)))
                % digest_modulus(),
    {
        let digest = hash::sha256(id.as_bytes());
        let limbs = read_limbs(digest.as_slice());
        add_limbs(&mut self.sum, &limbs);
        self.count = self.count + 1;
    }

    /// Folds another accumulator in, so a range fingerprint can be composed from
    /// its sub-ranges without rescanning either.
    pub fn merge(&mut self, other: &Self)
        requires
            old(self)@.count + other@.count <= u64::MAX,
        ensures
            final(self)@ == merged(old(self)@, other@),
    {
        add_limbs(&mut self.sum, &other.sum);
        self.count = self.count + other.count;
    }

    /// Number of identities folded in.
    pub fn count(&self) -> (count: u64)
        ensures
            count == self@.count,
    {
        self.count
    }

    /// Produces the range fingerprint.
    pub fn finalize(&self) -> (fingerprint: Fingerprint)
        ensures
            fingerprint@ == summary(self@.sum, self@.count),
    {
        let mut preimage = self.sum_be_bytes();
        let mut count = uvarint(self.count);
        preimage.append(&mut count);
        let digest = hash::sha256(preimage.as_slice());
        let prefix = vstd::slice::slice_subrange(digest.as_slice(), 0, FINGERPRINT_LEN);
        assert(prefix@ =~= digest@.take(FINGERPRINT_LEN as int));
        Fingerprint::from_bytes(prefix).unwrap()
    }

    /// The sum, most significant byte first.
    pub fn sum_be_bytes(&self) -> (b: Vec<u8>)
        ensures
            b@ == bytes::be_bytes(self@.sum, 32),
    {
        let mut b: Vec<u8> = Vec::new();
        bytes::push_be(&mut b, self.sum[0], 8);
        bytes::push_be(&mut b, self.sum[1], 8);
        bytes::push_be(&mut b, self.sum[2], 8);
        bytes::push_be(&mut b, self.sum[3], 8);
        proof {
            lemma_limbs_spell(self.sum@);
            assert(b@ =~= bytes::be_bytes(self.sum@[0] as nat, 8) + bytes::be_bytes(
                self.sum@[1] as nat,
                8,
            ) + bytes::be_bytes(self.sum@[2] as nat, 8) + bytes::be_bytes(
                self.sum@[3] as nat,
                8,
            ));
        }
        b
    }

    /// Replaces the sum by the integer 32 bytes spell, most significant first.
    pub fn set_sum_be_bytes(&mut self, b: &[u8])
        requires
            b@.len() == 32,
        ensures
            final(self)@ == (AccumulatorView { sum: bytes::be_value(b@), ..old(self)@ }),
    {
        self.sum = read_limbs(b);
    }

    /// Replaces the count.
    pub fn set_count(&mut self, count: u64)
        ensures
            final(self)@ == (AccumulatorView { count: count as nat, ..old(self)@ }),
    {
        self.count = count;
    }
}

/// The integer spelled by a long byte string, from the integers its two parts
/// spell.
proof fn lemma_be_value_concat(a: Seq<u8>, b: Seq<u8>)
    ensures
        bytes::be_value(a + b) == bytes::be_value(a) * bytes::pow256(b.len()) + bytes::be_value(b),
    decreases b.len(),
{
    if b.len() == 0 {
        assert(a + b =~= a);
        assert(bytes::be_value(a) * 1 == bytes::be_value(a));
    } else {
        assert((a + b).drop_last() =~= a + b.drop_last());
        lemma_be_value_concat(a, b.drop_last());
        let x = bytes::be_value(a);
        let p = bytes::pow256((b.len() - 1) as nat);
        assert(x * (256 * p) == 256 * (x * p)) by (nonlinear_arith);
    }
}

/// The integer spelled by a byte string and eight more bytes.
proof fn lemma_be_value_limb(a: Seq<u8>, b: Seq<u8>)
    requires
        b.len() == 8,
    ensures
        bytes::be_value(a + b) == bytes::be_value(a) * 0x1_0000_0000_0000_0000
            + bytes::be_value(b),
{
    lemma_be_value_concat(a, b);
    reveal_with_fuel(bytes::pow256, 9);
    assert(bytes::pow256(8) == 0x1_0000_0000_0000_0000);
}

/// The bytes of four limbs, one after another, are the bytes of the integer they
/// spell.
proof fn lemma_limbs_spell(limbs: Seq<u64>)
    requires
        limbs.len() == 4,
    ensures
        bytes::be_bytes(limbs[0] as nat, 8) + bytes::be_bytes(limbs[1] as nat, 8)
            + bytes::be_bytes(limbs[2] as nat, 8) + bytes::be_bytes(limbs[3] as nat, 8)
            == bytes::be_bytes(limbs_value(limbs), 32),
{
    let b0 = bytes::be_bytes(limbs[0] as nat, 8);
    let b1 = bytes::be_bytes(limbs[1] as nat, 8);
    let b2 = bytes::be_bytes(limbs[2] as nat, 8);
    let b3 = bytes::be_bytes(limbs[3] as nat, 8);
    reveal_with_fuel(bytes::pow256, 9);
    bytes::lemma_be_bytes_len(limbs[0] as nat, 8);
    bytes::lemma_be_bytes_len(limbs[1] as nat, 8);
    bytes::lemma_be_bytes_len(limbs[2] as nat, 8);
    bytes::lemma_be_bytes_len(limbs[3] as nat, 8);
    bytes::lemma_be_round_trip(limbs[0] as nat, 8);
    bytes::lemma_be_round_trip(limbs[1] as nat, 8);
    bytes::lemma_be_round_trip(limbs[2] as nat, 8);
    bytes::lemma_be_round_trip(limbs[3] as nat, 8);
    lemma_be_value_limb(b0, b1);
    lemma_be_value_limb(b0 + b1, b2);
    lemma_be_value_limb(b0 + b1 + b2, b3);
    assert(bytes::be_value(b0 + b1 + b2 + b3) == limbs_value(limbs));
    bytes::lemma_be_value_round_trip(b0 + b1 + b2 + b3);
}

/// Reads 32 bytes as four limbs, most significant first.
fn read_limbs(b: &[u8]) -> (limbs: [u64; 4])
    requires
        b@.len() == 32,
    ensures
        limbs_value(limbs@) == bytes::be_value(b@),
{
    let b0 = vstd::slice::slice_subrange(b, 0, 8);
    let b1 = vstd::slice::slice_subrange(b, 8, 16);
    let b2 = vstd::slice::slice_subrange(b, 16, 24);
    let b3 = vstd::slice::slice_subrange(b, 24, 32);
    proof {
        assert(b0@ + b1@ + b2@ + b3@ =~= b@);
        lemma_be_value_limb(b0@, b1@);
        lemma_be_value_limb(b0@ + b1@, b2@);
        lemma_be_value_limb(b0@ + b1@ + b2@, b3@);
    }
    [bytes::read_be(b0), bytes::read_be(b1), bytes::read_be(b2), bytes::read_be(b3)]
}

/// Adds `src` into `dst` modulo 2^256, discarding the carry out of the most
/// significant limb: the wraparound that makes the sum combinable.
fn add_limbs(dst: &mut [u64; 4], src: &[u64; 4])
    ensures
        limbs_value(final(dst)@) == (limbs_value(old(dst)@) + limbs_value(src@))
            % digest_modulus(),
{
    let base: u128 = 0x1_0000_0000_0000_0000;
    let t3: u128 = dst[3] as u128 + src[3] as u128;
    let t2: u128 = dst[2] as u128 + src[2] as u128 + t3 / base;
    let t1: u128 = dst[1] as u128 + src[1] as u128 + t2 / base;
    let t0: u128 = dst[0] as u128 + src[0] as u128 + t1 / base;
    let ghost a = dst@;
    *dst = [
        (t0 % base) as u64,
        (t1 % base) as u64,
        (t2 % base) as u64,
        (t3 % base) as u64,
    ];
    proof {
        let r = limbs_value(dst@);
        let carry = t0 / base;
        lemma_limbs_bound(dst@);
        assert(carry == 0 || carry == 1);
        if carry == 0 {
            assert(r == limbs_value(a) + limbs_value(src@));
        } else {
            assert(r + digest_modulus() == limbs_value(a) + limbs_value(src@));
        }
    }
}

/// Encodes an integer with `unsigned_varint::encode::u64`.
///
/// Taken on trust: the bytes are the unsigned LEB128 encoding.
#[verifier::external_body]
fn varint_bytes(value: u64) -> (encoded: Vec<u8>)
    ensures
        encoded@ == leb128(value as nat),
{
    let mut buf = unsigned_varint::encode::u64_buffer();
    unsigned_varint::encode::u64(value, &mut buf).to_vec()
}

/// The LEB128 unsigned varint of an item count.
pub fn uvarint(value: u64) -> (encoded: Vec<u8>)
    ensures
        encoded@ == leb128(value as nat),
{
    varint_bytes(value)
}

} // verus!
