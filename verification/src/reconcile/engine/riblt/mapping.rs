//! The deterministic, infinite index sequence one source symbol participates in.
//!
//! This is what makes the code rateless. Every symbol is in coded symbol 0, and
//! thereafter participates in index `i` with probability `1/(1+i/2)`, so any
//! prefix of the coded-symbol stream is a well-proportioned sketch for the
//! difference size that prefix can carry: no size estimate, no resizing, no
//! estimator protocol in front.
//!
//! The step is the approximated inverse-CDF jump
//! `diff = (1.5 + i) · ((1-u)^(-1/2) - 1)` with `(1-u)^(-1/2)` replaced by
//! `2^32 / sqrt(r)` for a uniform `u64` draw `r`, in IEEE-754 double precision.
//! Square root, multiplication and division are all correctly rounded there, so
//! the sequence is fully determined; [`rounding`] states those roundings on
//! integers.
use crate::reconcile::engine::riblt::rounding;
use vstd::prelude::*;

verus! {

/// The multiplier of the index generator. Odd, so the update is a permutation of
/// `u64`.
pub const MULTIPLIER: u64 = 0xda94_2042_e4dd_58b5;

/// `2^73`, the denominator a quotient has before the root is aligned.
pub const QUOTIENT_ONE: u128 = 0x200_0000_0000_0000_0000;

/// Quadruples `n` until its square root has 53 bits, halving `one` each time.
pub open spec fn align(n: nat, one: nat) -> (nat, nat)
    decreases 4 * rounding::ROOT_FLOOR - n,
{
    if n == 0 || n >= rounding::ROOT_FLOOR {
        (n, one)
    } else {
        align(4 * n, one / 2)
    }
}

/// `2^32 / sqrt(r + 1) - 1` in double precision, as a numerator over a
/// power-of-two denominator.
pub open spec fn stretch(r: u64) -> (nat, nat) {
    let s = rounding::round53(rounding::round53(r as nat) + 1);
    let (aligned, one) = align(s, QUOTIENT_ONE as nat);
    let d = rounding::nearest_quotient(
        rounding::QUOTIENT_SCALE as nat,
        rounding::nearest_root(aligned),
    );
    (if d >= one {
        (d - one) as nat
    } else {
        0
    }, one)
}

/// Twice `last + 1.5` in double precision.
pub open spec fn doubled_base(last: u64) -> nat {
    rounding::round53(2 * rounding::round53(last as nat) + 3)
}

/// The least integer at or above the double-precision product
/// `(last + 1.5) · (2^32 / sqrt(r + 1) - 1)`.
pub open spec fn jump(last: u64, r: u64) -> nat {
    let (numerator, one) = stretch(r);
    rounding::ceil_quotient(rounding::round53(doubled_base(last) * numerator), 2 * one)
}

/// The index after `last` for the draw `r`: at least one further, and clamped to
/// the largest `u64`.
pub open spec fn step(last: u64, r: u64) -> u64 {
    let moved = if jump(last, r) >= 1 {
        jump(last, r)
    } else {
        1
    };
    if last + moved <= u64::MAX {
        (last + moved) as u64
    } else {
        u64::MAX
    }
}

/// The generator's next draw.
pub open spec fn draw(prng: u64) -> u64 {
    prng.wrapping_mul(MULTIPLIER)
}

/// Whether the sequence that stands at `last` with generator state `prng`
/// reaches `index`.
pub open spec fn reaches(prng: u64, last: u64, index: int) -> bool
    decreases if last >= index { 0 } else { index - last },
{
    if last >= index {
        last == index
    } else if step(last, draw(prng)) <= last {
        false
    } else {
        reaches(draw(prng), step(last, draw(prng)), index)
    }
}

/// Whether a symbol with this hash is a member of coded symbol `index`.
pub open spec fn participates(hash: u64, index: int) -> bool {
    reaches(hash, 0, index)
}

/// Every symbol is a member of coded symbol 0.
pub proof fn lemma_every_symbol_starts_at_zero(hash: u64)
    ensures
        participates(hash, 0),
{
}

/// Indices strictly ascend until they are clamped.
pub proof fn lemma_indices_ascend(last: u64, r: u64)
    requires
        last < u64::MAX,
    ensures
        step(last, r) > last,
{
}

/// Whether a sequence standing at `last` is the one `hash` seeds, advanced to its
/// first index at or above `position`.
pub open spec fn tracks(prng: u64, last: u64, hash: u64, position: int) -> bool {
    &&& last >= position
    &&& forall|i: int|
        i >= position ==> (#[trigger] reaches(prng, last, i) <==> participates(hash, i))
}

/// A sequence that has not moved stands at its first index.
pub proof fn lemma_tracks_from_start(hash: u64)
    ensures
        tracks(hash, 0, hash, 0),
{
}

/// A sequence that stands at or past a later position is also the first index at
/// or above that one.
pub proof fn lemma_tracks_at(prng: u64, last: u64, hash: u64, position: int, later: int)
    requires
        tracks(prng, last, hash, position),
        position <= later <= last,
    ensures
        tracks(prng, last, hash, later),
{
}

/// A sequence still short of the next position stands there already.
pub proof fn lemma_tracks_waiting(prng: u64, last: u64, hash: u64, position: int)
    requires
        tracks(prng, last, hash, position),
        last > position,
    ensures
        tracks(prng, last, hash, position + 1),
        !participates(hash, position),
{
    assert(!reaches(prng, last, position));
}

/// A sequence that was due at a position stands past it after one step.
pub proof fn lemma_tracks_advanced(prng: u64, last: u64, hash: u64, position: int)
    requires
        tracks(prng, last, hash, position),
        last == position,
        last < u64::MAX,
    ensures
        tracks(draw(prng), step(last, draw(prng)), hash, position + 1),
        participates(hash, position),
{
    assert(reaches(prng, last, position));
    lemma_indices_ascend(last, draw(prng));
    assert forall|i: int| i >= position + 1 implies (#[trigger] reaches(
        draw(prng),
        step(last, draw(prng)),
        i,
    ) <==> participates(hash, i)) by {
        assert(reaches(prng, last, i) == reaches(draw(prng), step(last, draw(prng)), i));
    }
}

/// The alignment of a positive 64-bit quantity: the root gets its 53 bits, and
/// the denominator stays a whole number.
proof fn lemma_aligned(n: nat, one: nat, j: nat)
    requires
        j <= 52,
        n >= vstd::arithmetic::power2::pow2(2 * j),
        n < 4 * rounding::ROOT_FLOOR,
        one == vstd::arithmetic::power2::pow2((73 - j) as nat),
    ensures
        rounding::ROOT_FLOOR <= align(n, one).0 < 4 * rounding::ROOT_FLOOR,
        0x10_0000 <= align(n, one).1 <= one,
    decreases 52 - j,
{
    use_pow2_facts();
    if n >= rounding::ROOT_FLOOR {
        if j < 52 {
            vstd::arithmetic::power2::lemma_pow2_strictly_increases(21, (73 - j) as nat);
        }
    } else {
        if j == 52 {
            assert(false);
        }
        vstd::arithmetic::power2::lemma_pow2_unfold((73 - j) as nat);
        vstd::arithmetic::power2::lemma_pow2_adds(2 * j, 2);
        vstd::arithmetic::power2::lemma_pow2_pos(2 * j);
        lemma_aligned(4 * n, one / 2, j + 1);
    }
}

/// The powers of two the alignment is measured in.
proof fn use_pow2_facts()
    ensures
        vstd::arithmetic::power2::pow2(0) == 1,
        vstd::arithmetic::power2::pow2(2) == 4,
        vstd::arithmetic::power2::pow2(21) == 0x20_0000,
        vstd::arithmetic::power2::pow2(73) == QUOTIENT_ONE,
        vstd::arithmetic::power2::pow2(104) == rounding::ROOT_FLOOR,
{
    vstd::arithmetic::power2::lemma2_to64();
    vstd::arithmetic::power2::lemma2_to64_rest();
    vstd::arithmetic::power2::lemma_pow2_adds(52, 52);
    vstd::arithmetic::power2::lemma_pow2_adds(52, 21);
    assert(0x10_0000_0000_0000 * 0x10_0000_0000_0000 == 0x100_0000_0000_0000_0000_0000_0000int)
        by (nonlinear_arith);
    assert(0x10_0000_0000_0000 * 0x20_0000 == 0x200_0000_0000_0000_0000int) by (nonlinear_arith);
}

/// Aligning scales by a power of four, and the denominator down by its root.
proof fn lemma_align_scales(n: nat, one: nat, j: nat) -> (k: nat)
    requires
        j <= 52,
        n >= vstd::arithmetic::power2::pow2(2 * j),
        n < 4 * rounding::ROOT_FLOOR,
        one == vstd::arithmetic::power2::pow2((73 - j) as nat),
    ensures
        j + k <= 52,
        align(n, one).0 == n * vstd::arithmetic::power2::pow2(2 * k),
        align(n, one).1 == vstd::arithmetic::power2::pow2((73 - j - k) as nat),
    decreases 52 - j,
{
    use_pow2_facts();
    if n >= rounding::ROOT_FLOOR {
        assert(n * 1 == n);
        0
    } else {
        if j == 52 {
            assert(false);
        }
        vstd::arithmetic::power2::lemma_pow2_unfold((73 - j) as nat);
        vstd::arithmetic::power2::lemma_pow2_adds(2 * j, 2);
        vstd::arithmetic::power2::lemma_pow2_pos(2 * j);
        let k = lemma_align_scales(4 * n, one / 2, j + 1);
        vstd::arithmetic::power2::lemma_pow2_adds(2 * k, 2);
        let p = vstd::arithmetic::power2::pow2(2 * k);
        assert((4 * n) * p == n * (p * 4)) by (nonlinear_arith);
        k + 1
    }
}

/// One step of the index sequence, operation by operation in double precision. With
/// `s` the draw plus one, `m / 2^k` is the root of `s` rounded, `d / 2^(73 - k)` is
/// `2^32` over that root rounded, and the step is that less one, times the index plus
/// one and a half, rounded, and up to the next integer; at least one, and the index
/// stays at the largest `u64`.
pub proof fn lemma_step_formula(last: u64, r: u64) -> (parts: (nat, nat, nat, nat))
    ensures
        ({
            let (k, m, d, j) = parts;
            let s = rounding::round53(rounding::round53(r as nat) + 1);
            let scaled = s * vstd::arithmetic::power2::pow2(2 * k);
            let one = vstd::arithmetic::power2::pow2((73 - k) as nat) as int;
            let whole = vstd::arithmetic::power2::pow2(106) as int;
            let base = rounding::round53(2 * rounding::round53(last as nat) + 3);
            let excess = if d >= one {
                (d - one) as nat
            } else {
                0
            };
            let product = rounding::round53(base * excess) as int;
            &&& k <= 52
            &&& vstd::arithmetic::power2::pow2(104) <= scaled < vstd::arithmetic::power2::pow2(106)
            &&& (2 * m - 1) * (2 * m - 1) < 4 * scaled < (2 * m + 1) * (2 * m + 1)
            &&& whole - m < 2 * m * d <= whole + m
            &&& product <= 2 * one * j < product + 2 * one
            &&& step(last, r) == if last + j > u64::MAX || (j == 0 && last == u64::MAX) {
                u64::MAX as int
            } else if j == 0 {
                last + 1
            } else {
                last + j
            }
        }),
{
    let s = rounding::round53(rounding::round53(r as nat) + 1);
    use_pow2_facts();
    vstd::arithmetic::power2::lemma_pow2_adds(104, 2);
    rounding::lemma_round53_lower(rounding::round53(r as nat) + 1);
    rounding::lemma_round53_bound(r as nat);
    rounding::lemma_round53_bound(rounding::round53(r as nat) + 1);
    lemma_aligned(s, QUOTIENT_ONE as nat, 0);
    let k = lemma_align_scales(s, QUOTIENT_ONE as nat, 0);
    let (aligned, one) = align(s, QUOTIENT_ONE as nat);
    let m = rounding::nearest_root(aligned);
    rounding::lemma_root_is_nearest(aligned);
    assert(m >= 1) by (nonlinear_arith)
        requires
            4 * aligned < (2 * m + 1) * (2 * m + 1),
            aligned >= 1,
            m >= 0,
    ;
    let scale = rounding::QUOTIENT_SCALE as nat;
    let d = rounding::nearest_quotient(scale, m);
    assert(2 * scale == vstd::arithmetic::power2::pow2(106));
    vstd::arithmetic::div_mod::lemma_fundamental_div_mod((2 * scale + m) as int, (2 * m) as int);
    vstd::arithmetic::div_mod::lemma_mod_bound((2 * scale + m) as int, (2 * m) as int);
    assert((2 * m) * d == 2 * m * d);
    let j = jump(last, r);
    let (numerator, same) = stretch(r);
    let product = rounding::round53(doubled_base(last) * numerator);
    let twice = 2 * one;
    vstd::arithmetic::div_mod::lemma_fundamental_div_mod(product + twice - 1, twice as int);
    vstd::arithmetic::div_mod::lemma_mod_bound(product + twice - 1, twice as int);
    let q = (product + twice - 1) / twice as int;
    assert(q >= 0) by (nonlinear_arith)
        requires
            q == (product + twice - 1) / twice as int,
            twice >= 1,
            product >= 0,
    ;
    assert(j == q);
    assert(twice * q == 2 * one * j) by (nonlinear_arith)
        requires
            j == q,
            twice == 2 * one,
    ;
    (k, m, d, j)
}

/// The next draw is the last one times an odd constant, modulo `2^64`.
pub proof fn lemma_draws_multiply(prng: u64)
    ensures
        draw(prng) == (prng as int * 0xda94_2042_e4dd_58b5) % 0x1_0000_0000_0000_0000,
{
}

/// Where the sequence a hash seeds stands after so many steps: the generator's state
/// and the index.
pub open spec fn stands(hash: u64, steps: nat) -> (u64, u64)
    decreases steps,
{
    if steps == 0 {
        (hash, 0)
    } else {
        let (prng, last) = stands(hash, (steps - 1) as nat);
        (draw(prng), step(last, draw(prng)))
    }
}

/// A symbol is a member of exactly the coded symbols its sequence stands at, which
/// begins at zero and takes one draw for each step.
pub proof fn lemma_members_are_the_sequence(hash: u64, index: int)
    requires
        0 <= index <= u64::MAX,
    ensures
        participates(hash, index) <==> exists|steps: nat|
            (#[trigger] stands(hash, steps)).1 == index,
{
    if participates(hash, index) {
        lemma_reached_is_stood_at(hash, 0, index);
    }
    if exists|steps: nat| (#[trigger] stands(hash, steps)).1 == index {
        let steps = choose|steps: nat| (#[trigger] stands(hash, steps)).1 == index;
        lemma_standing_reaches(hash, steps, index);
    }
}

/// What a sequence reaches from where it stands, it stands at some steps on.
proof fn lemma_reached_is_stood_at(hash: u64, steps: nat, index: int)
    requires
        reaches(stands(hash, steps).0, stands(hash, steps).1, index),
    ensures
        exists|n: nat| (#[trigger] stands(hash, n)).1 == index,
    decreases if stands(hash, steps).1 >= index { 0 } else { index - stands(hash, steps).1 },
{
    let (prng, last) = stands(hash, steps);
    if last >= index {
        assert(stands(hash, steps).1 == index);
    } else {
        assert(stands(hash, steps + 1) == (draw(prng), step(last, draw(prng))));
        lemma_reached_is_stood_at(hash, steps + 1, index);
    }
}

/// A sequence that has not passed an index reaches it from where it stands exactly if
/// it does from its start.
proof fn lemma_standing_reaches(hash: u64, steps: nat, index: int)
    requires
        stands(hash, steps).1 <= index <= u64::MAX,
    ensures
        reaches(stands(hash, steps).0, stands(hash, steps).1, index) == participates(hash, index),
    decreases steps,
{
    if steps > 0 {
        let (prng, last) = stands(hash, (steps - 1) as nat);
        if last < u64::MAX {
            lemma_indices_ascend(last, draw(prng));
            lemma_standing_reaches(hash, (steps - 1) as nat, index);
        } else {
            lemma_standing_reaches(hash, (steps - 1) as nat, index);
        }
    }
}

/// Computes [`stretch`].
fn stretch_of(r: u64) -> (result: (u128, u128))
    ensures
        result.0 == stretch(r).0,
        result.1 == stretch(r).1,
        result.0 <= 0x20_0000_0000_0001,
        0x10_0000 <= result.1 <= QUOTIENT_ONE,
{
    let s: u128 = rounding::round_to_precision(rounding::round_to_precision(r as u128) + 1);
    let mut n: u128 = s;
    let mut one: u128 = QUOTIENT_ONE;
    proof {
        use_pow2_facts();
        rounding::lemma_round53_lower(rounding::round53(r as nat) + 1);
        lemma_aligned(s as nat, one as nat, 0);
    }
    while n < rounding::ROOT_FLOOR
        invariant
            1 <= n < 4 * rounding::ROOT_FLOOR,
            one <= QUOTIENT_ONE,
            align(s as nat, QUOTIENT_ONE as nat) == align(n as nat, one as nat),
        decreases 4 * rounding::ROOT_FLOOR - n,
    {
        n = n * 4;
        one = one / 2;
    }
    let m: u128 = rounding::root_to_nearest(n);
    let d: u128 = (2 * rounding::QUOTIENT_SCALE + m) / (2 * m);
    proof {
        assert(d <= 0x20_0000_0000_0001) by (nonlinear_arith)
            requires
                d == (2 * rounding::QUOTIENT_SCALE + m) / (2 * m),
                m >= 0x10_0000_0000_0000,
                rounding::QUOTIENT_SCALE == 0x20_0000_0000_0000 * 0x10_0000_0000_0000,
        ;
    }
    if d >= one {
        (d - one, one)
    } else {
        (0, one)
    }
}

/// Which coded symbols one source symbol is mapped into.
pub struct RandomMapping {
    prng: u64,
    last_index: u64,
}

impl RandomMapping {
    /// The generator state.
    pub closed spec fn prng(&self) -> u64 {
        self.prng
    }

    /// The index the sequence stands at.
    pub closed spec fn last(&self) -> u64 {
        self.last_index
    }

    /// Seeds the sequence from a source symbol's hash.
    pub fn new(seed: u64) -> (mapping: Self)
        ensures
            mapping.prng() == seed,
            mapping.last() == 0,
    {
        RandomMapping { prng: seed, last_index: 0 }
    }

    /// The index most recently produced; `0` before the first advance, which is
    /// why coded symbol 0 contains every symbol.
    pub fn index(&self) -> (index: u64)
        ensures
            index == self.last(),
    {
        self.last_index
    }

    /// Advances to the next index of the sequence.
    ///
    /// The addition saturates, so the sequence stays monotonic, and the step is
    /// at least one: a draw within about `2^11` of the top rounds to `2^64` in
    /// double precision, making the computed step exactly zero, and a symbol
    /// mapped twice to one coded symbol would silently cancel itself.
    pub fn next_index(&mut self) -> (index: u64)
        ensures
            final(self).prng() == draw(old(self).prng()),
            final(self).last() == step(old(self).last(), draw(old(self).prng())),
            index == final(self).last(),
    {
        self.prng = self.prng.wrapping_mul(MULTIPLIER);
        let (numerator, one) = stretch_of(self.prng);
        let twice: u128 = 2 * rounding::round_to_precision(self.last_index as u128) + 3;
        let base: u128 = rounding::round_to_precision(twice);
        proof {
            assert(base * numerator <= 0x10_0000_0000_0000_0000 * 0x20_0000_0000_0001)
                by (nonlinear_arith)
                requires
                    0 <= base <= 0x10_0000_0000_0000_0000,
                    0 <= numerator <= 0x20_0000_0000_0001,
            ;
        }
        let product: u128 = rounding::round_to_precision(base * numerator);
        let jump: u128 = (product + (2 * one - 1)) / (2 * one);
        let moved: u128 = if jump >= 1 {
            jump
        } else {
            1
        };
        proof {
            assert(jump <= product + (2 * one - 1)) by (nonlinear_arith)
                requires
                    jump == (product + (2 * one - 1)) / (2 * one),
                    one >= 1,
                    product >= 0,
            ;
        }
        if moved > (u64::MAX - self.last_index) as u128 {
            self.last_index = u64::MAX;
        } else {
            self.last_index = self.last_index + moved as u64;
        }
        self.last_index
    }
}

} // verus!
