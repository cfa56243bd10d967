//! Byte strings: lexicographic order, equality, and big-endian integers.
use vstd::prelude::*;

verus! {

/// Lexicographic order on byte strings: the first differing byte decides, and a
/// proper prefix precedes its extensions.
pub open spec fn lex_lt(a: Seq<u8>, b: Seq<u8>) -> bool
    decreases a.len(),
{
    if b.len() == 0 {
        false
    } else if a.len() == 0 {
        true
    } else if a[0] != b[0] {
        a[0] < b[0]
    } else {
        lex_lt(a.skip(1), b.skip(1))
    }
}

/// No byte string precedes itself.
pub proof fn lemma_lex_irreflexive(a: Seq<u8>)
    ensures
        !lex_lt(a, a),
    decreases a.len(),
{
    if a.len() > 0 {
        lemma_lex_irreflexive(a.skip(1));
    }
}

/// The order is transitive.
pub proof fn lemma_lex_transitive(a: Seq<u8>, b: Seq<u8>, c: Seq<u8>)
    requires
        lex_lt(a, b),
        lex_lt(b, c),
    ensures
        lex_lt(a, c),
    decreases a.len(),
{
    if a.len() > 0 && a[0] == b[0] && b[0] == c[0] {
        lemma_lex_transitive(a.skip(1), b.skip(1), c.skip(1));
    }
}

/// Two distinct byte strings are always ordered one way or the other.
pub proof fn lemma_lex_total(a: Seq<u8>, b: Seq<u8>)
    ensures
        lex_lt(a, b) || lex_lt(b, a) || a == b,
    decreases a.len(),
{
    if a.len() > 0 && b.len() > 0 && a[0] == b[0] {
        lemma_lex_total(a.skip(1), b.skip(1));
        if a.skip(1) == b.skip(1) {
            assert(a =~= b) by {
                assert forall|i: int| 0 <= i < a.len() implies a[i] == b[i] by {
                    if i > 0 {
                        assert(a[i] == a.skip(1)[i - 1]);
                        assert(b[i] == b.skip(1)[i - 1]);
                    }
                }
                assert(a.skip(1).len() == b.skip(1).len());
            }
        }
    } else if a.len() == 0 && b.len() == 0 {
        assert(a =~= b);
    }
}

/// A shared prefix does not influence the order.
pub proof fn lemma_lex_common_prefix(p: Seq<u8>, a: Seq<u8>, b: Seq<u8>)
    ensures
        lex_lt(p + a, p + b) == lex_lt(a, b),
    decreases p.len(),
{
    if p.len() == 0 {
        assert(p + a =~= a);
        assert(p + b =~= b);
    } else {
        assert((p + a).skip(1) =~= p.skip(1) + a);
        assert((p + b).skip(1) =~= p.skip(1) + b);
        lemma_lex_common_prefix(p.skip(1), a, b);
    }
}

/// Prefixes of one width decide the order whenever they are ordered themselves.
pub proof fn lemma_lex_ordered_prefix(p: Seq<u8>, q: Seq<u8>, a: Seq<u8>, b: Seq<u8>)
    requires
        p.len() == q.len(),
        lex_lt(p, q),
    ensures
        lex_lt(p + a, q + b),
    decreases p.len(),
{
    if p.len() > 0 && p[0] == q[0] {
        assert((p + a).skip(1) =~= p.skip(1) + a);
        assert((q + b).skip(1) =~= q.skip(1) + b);
        lemma_lex_ordered_prefix(p.skip(1), q.skip(1), a, b);
    }
}

/// One byte string precedes another exactly when, after a common prefix, it has the
/// smaller byte, or it ends and the other goes on.
pub proof fn lemma_lex_first_difference(a: Seq<u8>, b: Seq<u8>)
    ensures
        lex_lt(a, b) <==> exists|k: int|
            {
                &&& 0 <= k <= a.len()
                &&& k < b.len()
                &&& #[trigger] a.take(k) == b.take(k)
                &&& (k == a.len() || a[k] < b[k])
            },
    decreases a.len(),
{
    if a.len() > 0 && b.len() > 0 && a[0] == b[0] {
        let p = a.skip(1);
        let q = b.skip(1);
        lemma_lex_first_difference(p, q);
        if lex_lt(a, b) {
            let k = choose|k: int|
                {
                    &&& 0 <= k <= p.len()
                    &&& k < q.len()
                    &&& #[trigger] p.take(k) == q.take(k)
                    &&& (k == p.len() || p[k] < q[k])
                };
            assert(a.take(k + 1) =~= seq![a[0]] + p.take(k));
            assert(b.take(k + 1) =~= seq![b[0]] + q.take(k));
            assert(a.take(k + 1) == b.take(k + 1));
        }
        if exists|k: int|
            {
                &&& 0 <= k <= a.len()
                &&& k < b.len()
                &&& #[trigger] a.take(k) == b.take(k)
                &&& (k == a.len() || a[k] < b[k])
            } {
            let k = choose|k: int|
                {
                    &&& 0 <= k <= a.len()
                    &&& k < b.len()
                    &&& #[trigger] a.take(k) == b.take(k)
                    &&& (k == a.len() || a[k] < b[k])
                };
            assert(p.take(k - 1) =~= a.take(k).skip(1));
            assert(q.take(k - 1) =~= b.take(k).skip(1));
            assert(p.take(k - 1) == q.take(k - 1));
        }
    } else {
        assert(a.take(0) =~= b.take(0));
        if a.len() > 0 && b.len() > 0 {
            assert forall|k: int| 0 < k <= a.len() && k < b.len() && #[trigger] a.take(k)
                == b.take(k) implies false by {
                assert(a.take(k)[0] == b.take(k)[0]);
            }
        }
    }
}

/// Whether `a` precedes `b` lexicographically.
pub fn bytes_lt(a: &[u8], b: &[u8]) -> (r: bool)
    ensures
        r == lex_lt(a@, b@),
{
    let mut i: usize = 0;
    proof {
        assert(a@.skip(0) =~= a@);
        assert(b@.skip(0) =~= b@);
    }
    while i < a.len() && i < b.len()
        invariant
            i <= a.len(),
            i <= b.len(),
            lex_lt(a@, b@) == lex_lt(a@.skip(i as int), b@.skip(i as int)),
        decreases a.len() - i,
    {
        proof {
            assert(a@.skip(i as int).skip(1) =~= a@.skip(i as int + 1));
            assert(b@.skip(i as int).skip(1) =~= b@.skip(i as int + 1));
        }
        if a[i] != b[i] {
            return a[i] < b[i];
        }
        i = i + 1;
    }
    a.len() < b.len()
}

/// Whether two byte strings are the same.
pub fn bytes_eq(a: &[u8], b: &[u8]) -> (r: bool)
    ensures
        r == (a@ == b@),
{
    if a.len() != b.len() {
        return false;
    }
    let mut i: usize = 0;
    while i < a.len()
        invariant
            i <= a.len(),
            a.len() == b.len(),
            forall|j: int| 0 <= j < i ==> a[j] == b[j],
        decreases a.len() - i,
    {
        if a[i] != b[i] {
            return false;
        }
        i = i + 1;
    }
    assert(a@ =~= b@);
    true
}

/// A copy of a byte string.
pub fn bytes_copy(a: &[u8]) -> (r: Vec<u8>)
    ensures
        r@ == a@,
{
    let mut out: Vec<u8> = Vec::with_capacity(a.len());
    out.extend_from_slice(a);
    assert(out@ =~= a@);
    out
}

/// `256` to the power `width`: one more than the largest `width`-byte integer.
pub open spec fn pow256(width: nat) -> nat
    decreases width,
{
    if width == 0 {
        1
    } else {
        256 * pow256((width - 1) as nat)
    }
}

/// The low `width` bytes of `n`, most significant first.
pub open spec fn be_bytes(n: nat, width: nat) -> Seq<u8>
    decreases width,
{
    if width == 0 {
        Seq::empty()
    } else {
        be_bytes(n / 256, (width - 1) as nat).push((n % 256) as u8)
    }
}

/// The integer a byte string spells, most significant byte first.
pub open spec fn be_value(s: Seq<u8>) -> nat
    decreases s.len(),
{
    if s.len() == 0 {
        0
    } else {
        256 * be_value(s.drop_last()) + s.last() as nat
    }
}

/// A big-endian encoding is exactly as wide as asked for.
pub proof fn lemma_be_bytes_len(n: nat, width: nat)
    ensures
        be_bytes(n, width).len() == width,
    decreases width,
{
    if width > 0 {
        lemma_be_bytes_len(n / 256, (width - 1) as nat);
    }
}

/// A byte string spells an integer below `256` to its width.
pub proof fn lemma_be_value_bound(s: Seq<u8>)
    ensures
        be_value(s) < pow256(s.len()),
    decreases s.len(),
{
    if s.len() > 0 {
        lemma_be_value_bound(s.drop_last());
    }
}

/// Reading back an encoded integer gives the integer.
pub proof fn lemma_be_round_trip(n: nat, width: nat)
    requires
        n < pow256(width),
    ensures
        be_value(be_bytes(n, width)) == n,
    decreases width,
{
    if width > 0 {
        lemma_be_round_trip(n / 256, (width - 1) as nat);
        assert(be_bytes(n, width).drop_last() =~= be_bytes(n / 256, (width - 1) as nat));
    }
}

/// Encoding what a byte string spells, at its width, gives the byte string.
pub proof fn lemma_be_value_round_trip(s: Seq<u8>)
    ensures
        be_bytes(be_value(s), s.len()) == s,
    decreases s.len(),
{
    if s.len() > 0 {
        lemma_be_value_round_trip(s.drop_last());
        let n = be_value(s);
        assert(n / 256 == be_value(s.drop_last()));
        assert((n % 256) as u8 == s.last());
        assert(be_bytes(n, s.len()) =~= s.drop_last().push(s.last()));
        assert(s.drop_last().push(s.last()) =~= s);
    } else {
        assert(be_bytes(be_value(s), s.len()) =~= s);
    }
}

/// Big-endian encodings of one width are ordered as the integers they spell.
pub proof fn lemma_be_bytes_ordered(n: nat, m: nat, width: nat)
    requires
        n < m < pow256(width),
    ensures
        lex_lt(be_bytes(n, width), be_bytes(m, width)),
    decreases width,
{
    if width > 0 {
        let w = (width - 1) as nat;
        let p = be_bytes(n / 256, w);
        let q = be_bytes(m / 256, w);
        let a = seq![(n % 256) as u8];
        let b = seq![(m % 256) as u8];
        assert(be_bytes(n, width) =~= p + a);
        assert(be_bytes(m, width) =~= q + b);
        if n / 256 < m / 256 {
            lemma_be_bytes_ordered(n / 256, m / 256, w);
            lemma_be_bytes_len(n / 256, w);
            lemma_be_bytes_len(m / 256, w);
            lemma_lex_ordered_prefix(p, q, a, b);
        } else {
            assert(n / 256 == m / 256);
            assert(n % 256 < m % 256);
            lemma_lex_common_prefix(p, a, b);
        }
    }
}

/// Byte `i` of a big-endian encoding has the weight of the `width - 1 - i` bytes
/// after it.
pub proof fn lemma_be_bytes_digit(n: nat, width: nat, i: int)
    requires
        0 <= i < width,
    ensures
        be_bytes(n, width).len() == width,
        be_bytes(n, width)[i] == (n as int / vstd::arithmetic::power::pow(
            256,
            (width - 1 - i) as nat,
        )) % 256,
    decreases width,
{
    lemma_be_bytes_len(n, width);
    lemma_be_bytes_len(n / 256, (width - 1) as nat);
    let k = (width - 1 - i) as nat;
    reveal(vstd::arithmetic::power::pow);
    if k > 0 {
        lemma_be_bytes_digit(n / 256, (width - 1) as nat, i);
        let p = vstd::arithmetic::power::pow(256, (k - 1) as nat);
        vstd::arithmetic::power::lemma_pow_positive(256, (k - 1) as nat);
        vstd::arithmetic::div_mod::lemma_div_denominator(n as int, 256, p);
    } else {
        assert(vstd::arithmetic::power::pow(256, 0) == 1);
        assert(n as int / 1 == n);
    }
}

/// Appends the low `width` bytes of `n` to `out`, most significant first.
pub fn push_be(out: &mut Vec<u8>, n: u64, width: usize)
    ensures
        final(out)@ == old(out)@ + be_bytes(n as nat, width as nat),
    decreases width,
{
    if width > 0 {
        push_be(out, n / 256, width - 1);
        out.push((n % 256) as u8);
    }
    assert(out@ =~= old(out)@ + be_bytes(n as nat, width as nat));
}

/// Reads up to eight bytes as a big-endian integer.
pub fn read_be(s: &[u8]) -> (n: u64)
    requires
        s@.len() <= 8,
    ensures
        n == be_value(s@),
{
    let mut n: u64 = 0;
    let mut i: usize = 0;
    proof {
        assert(s@.take(0) =~= Seq::empty());
        reveal_with_fuel(pow256, 9);
    }
    while i < s.len()
        invariant
            i <= s.len(),
            s@.len() <= 8,
            n == be_value(s@.take(i as int)),
            pow256(0) == 1,
            pow256(7) == 0x100_0000_0000_0000,
            pow256(8) == 0x1_0000_0000_0000_0000,
        decreases s.len() - i,
    {
        proof {
            assert(s@.take(i as int + 1).drop_last() =~= s@.take(i as int));
            lemma_be_value_bound(s@.take(i as int + 1));
            lemma_pow256_monotonic((i + 1) as nat, 8);
        }
        n = n * 256 + s[i] as u64;
        i = i + 1;
    }
    assert(s@.take(i as int) =~= s@);
    n
}

/// The integer a byte string spells, least significant byte first.
pub open spec fn le_value(s: Seq<u8>) -> nat
    decreases s.len(),
{
    if s.len() == 0 {
        0
    } else {
        s[0] as nat + 256 * le_value(s.skip(1))
    }
}

/// A byte string spells an integer below `256` to its width.
pub proof fn lemma_le_value_bound(s: Seq<u8>)
    ensures
        le_value(s) < pow256(s.len()),
    decreases s.len(),
{
    if s.len() > 0 {
        lemma_le_value_bound(s.skip(1));
    }
}

/// What eight bytes spell, most significant first and least significant first.
pub proof fn lemma_eight_bytes_spell(s: Seq<u8>)
    requires
        s.len() == 8,
    ensures
        be_value(s) == s[7] + 0x100 * s[6] + 0x1_0000 * s[5] + 0x100_0000 * s[4] + 0x1_0000_0000
            * s[3] + 0x100_0000_0000 * s[2] + 0x1_0000_0000_0000 * s[1] + 0x100_0000_0000_0000
            * s[0],
        le_value(s) == s[0] + 0x100 * s[1] + 0x1_0000 * s[2] + 0x100_0000 * s[3] + 0x1_0000_0000
            * s[4] + 0x100_0000_0000 * s[5] + 0x1_0000_0000_0000 * s[6] + 0x100_0000_0000_0000
            * s[7],
{
    reveal_with_fuel(be_value, 9);
    reveal_with_fuel(le_value, 9);
}

/// Reads up to eight bytes as a little-endian integer.
pub fn read_le(s: &[u8]) -> (n: u64)
    requires
        s@.len() <= 8,
    ensures
        n == le_value(s@),
{
    let mut n: u64 = 0;
    let mut i: usize = s.len();
    proof {
        assert(s@.skip(s@.len() as int) =~= Seq::empty());
        reveal_with_fuel(pow256, 9);
    }
    while i > 0
        invariant
            i <= s.len(),
            s@.len() <= 8,
            n == le_value(s@.skip(i as int)),
            pow256(8) == 0x1_0000_0000_0000_0000,
        decreases i,
    {
        i = i - 1;
        proof {
            assert(s@.skip(i as int).skip(1) =~= s@.skip(i as int + 1));
            lemma_le_value_bound(s@.skip(i as int));
            lemma_pow256_monotonic((s@.len() - i) as nat, 8);
        }
        n = n * 256 + s[i] as u64;
    }
    assert(s@.skip(0) =~= s@);
    n
}

/// Wider integers have larger bounds.
pub proof fn lemma_pow256_monotonic(a: nat, b: nat)
    requires
        a <= b,
    ensures
        pow256(a) <= pow256(b),
    decreases b,
{
    if a < b {
        lemma_pow256_monotonic(a, (b - 1) as nat);
    }
}

} // verus!
