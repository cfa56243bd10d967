//! Double-precision arithmetic, carried out exactly on integers.
//!
//! The index mapping is defined by IEEE-754 double-precision operations, each of
//! which returns the exact real result rounded to 53 significant bits, to the
//! nearest, ties to even. Every quantity the mapping touches is a rational whose
//! denominator is a known power of two, so those roundings can be stated and
//! computed on integers alone: scaling by a power of two never changes how a
//! value rounds.
use vstd::prelude::*;

verus! {

/// `2^53`: integers below it have at most 53 significant bits.
pub const PRECISION_LIMIT: u128 = 0x20_0000_0000_0000;

/// `2^104`: an integer at or above it has a square root of at least 53 bits.
pub const ROOT_FLOOR: u128 = 0x100_0000_0000_0000_0000_0000_0000;

/// `2^105`: the numerator whose quotient by a 53-bit mantissa is again one.
pub const QUOTIENT_SCALE: u128 = 0x200_0000_0000_0000_0000_0000_0000;

/// The weight of the last of the 53 significant bits of `n`.
pub open spec fn last_place(n: nat) -> nat
    decreases n,
{
    if n < PRECISION_LIMIT {
        1
    } else {
        2 * last_place(n / 2)
    }
}

/// `n` rounded to 53 significant bits, to the nearest, ties to even.
pub open spec fn round53(n: nat) -> nat {
    let unit = last_place(n);
    let floor = n / unit;
    let rest = n % unit;
    if 2 * rest < unit || (2 * rest == unit && floor % 2 == 0) {
        floor * unit
    } else {
        (floor + 1) * unit
    }
}

/// Whether `f` is the integer part of the square root of `n`.
pub open spec fn is_floor_root(n: nat, f: nat) -> bool {
    f * f <= n < (f + 1) * (f + 1)
}

/// The integer nearest to the square root of `n`. There are no ties: the square
/// of a half-integer is never an integer.
pub open spec fn nearest_root(n: nat) -> nat {
    let f = choose|f: nat| is_floor_root(n, f);
    if n <= f * f + f {
        f
    } else {
        f + 1
    }
}

/// The integer nearest to `n / m`, rounding a tie up.
pub open spec fn nearest_quotient(n: nat, m: nat) -> nat {
    (2 * n + m) / (2 * m)
}

/// The least integer at or above `n / m`.
pub open spec fn ceil_quotient(n: nat, m: nat) -> nat {
    ((n + m - 1) / m as int) as nat
}

/// The weight of the last place is a positive integer that leaves at most 53
/// bits above it.
proof fn lemma_last_place(n: nat)
    ensures
        last_place(n) >= 1,
        n / last_place(n) < PRECISION_LIMIT,
        n >= 1 ==> n / last_place(n) >= 1,
    decreases n,
{
    if n >= PRECISION_LIMIT {
        lemma_last_place(n / 2);
        let u = last_place(n / 2);
        vstd::arithmetic::div_mod::lemma_div_denominator(n as int, 2, u as int);
    } else {
        assert(n / 1 == n);
    }
}

/// Rounding at most doubles a value.
pub proof fn lemma_round53_bound(n: nat)
    ensures
        round53(n) <= 2 * n,
{
    lemma_last_place(n);
    let unit = last_place(n);
    let floor = n / unit;
    vstd::arithmetic::div_mod::lemma_fundamental_div_mod(n as int, unit as int);
    if n == 0 {
        assert(0nat / 1nat == 0nat);
        assert(floor * unit == 0) by (nonlinear_arith)
            requires
                floor == 0,
        ;
    } else {
        assert((floor + 1) * unit <= 2 * (unit * floor)) by (nonlinear_arith)
            requires
                floor >= 1,
                unit >= 1,
        ;
        assert(floor * unit == unit * floor) by (nonlinear_arith);
    }
}

/// Rounding keeps a positive value positive.
pub proof fn lemma_round53_lower(n: nat)
    requires
        n >= 1,
    ensures
        round53(n) >= 1,
{
    lemma_last_place(n);
    let unit = last_place(n);
    let floor = n / unit;
    assert(floor * unit >= 1) by (nonlinear_arith)
        requires
            floor >= 1,
            unit >= 1,
    ;
    assert((floor + 1) * unit >= 1) by (nonlinear_arith)
        requires
            floor >= 1,
            unit >= 1,
    ;
}

/// A value of at most 53 bits rounds to itself.
pub proof fn lemma_round53_exact(n: nat)
    requires
        n < PRECISION_LIMIT,
    ensures
        round53(n) == n,
{
    assert(last_place(n) == 1);
    assert(n / 1 == n);
    assert(n % 1 == 0);
    assert(n * 1 == n);
}

/// Square roots have one integer part.
proof fn lemma_floor_root_unique(n: nat, f: nat, g: nat)
    requires
        is_floor_root(n, f),
        is_floor_root(n, g),
    ensures
        f == g,
{
    if f < g {
        assert((f + 1) * (f + 1) <= g * g) by (nonlinear_arith)
            requires
                f + 1 <= g,
        ;
    }
    if g < f {
        assert((g + 1) * (g + 1) <= f * f) by (nonlinear_arith)
            requires
                g + 1 <= f,
        ;
    }
}

/// The weight of the last place is a power of two, and 53 bits stand above it unless
/// it is one.
proof fn lemma_last_place_is_a_power(n: nat) -> (e: nat)
    ensures
        last_place(n) == vstd::arithmetic::power2::pow2(e),
        e > 0 ==> n / last_place(n) >= 0x10_0000_0000_0000,
    decreases n,
{
    vstd::arithmetic::power2::lemma2_to64();
    if n < PRECISION_LIMIT {
        0
    } else {
        let e = lemma_last_place_is_a_power(n / 2);
        lemma_last_place(n / 2);
        let u = last_place(n / 2);
        vstd::arithmetic::power2::lemma_pow2_unfold(e + 1);
        vstd::arithmetic::div_mod::lemma_div_denominator(n as int, 2, u as int);
        if e == 0 {
            assert(n / 2 / 1 == n / 2);
        }
        e + 1
    }
}

/// Rounding to 53 bits gives the multiple of the last place nearest to the value, and
/// of two equally near the one whose last bit is zero; and the last place is the power
/// of two that leaves 53 bits above it, or one.
pub proof fn lemma_round53_is_nearest(n: nat) -> (e: nat)
    ensures
        ({
            let unit = vstd::arithmetic::power2::pow2(e) as int;
            let r = round53(n) as int;
            &&& unit > 0
            &&& n as int / unit < 0x20_0000_0000_0000
            &&& e > 0 ==> n as int / unit >= 0x10_0000_0000_0000
            &&& r % unit == 0
            &&& -unit <= 2 * (r - n) <= unit
            &&& 2 * (r - n) == unit || 2 * (n - r) == unit ==> (r / unit) % 2 == 0
        }),
{
    let e = lemma_last_place_is_a_power(n);
    lemma_last_place(n);
    let unit = last_place(n);
    let floor = n / unit;
    let rest = n % unit;
    vstd::arithmetic::div_mod::lemma_fundamental_div_mod(n as int, unit as int);
    assert(unit * floor == floor * unit) by (nonlinear_arith);
    assert((floor + 1) * unit == floor * unit + unit) by (nonlinear_arith);
    vstd::arithmetic::div_mod::lemma_mod_multiples_basic(floor as int, unit as int);
    vstd::arithmetic::div_mod::lemma_mod_multiples_basic(floor as int + 1, unit as int);
    vstd::arithmetic::div_mod::lemma_div_by_multiple(floor as int, unit as int);
    vstd::arithmetic::div_mod::lemma_div_by_multiple(floor as int + 1, unit as int);
    e
}

/// Every integer has a square root, to the integer below.
proof fn lemma_floor_root_exists(n: nat) -> (f: nat)
    ensures
        is_floor_root(n, f),
    decreases n,
{
    if n == 0 {
        assert(0nat * 0nat == 0);
        assert(1nat * 1nat == 1);
        0
    } else {
        let f = lemma_floor_root_exists((n - 1) as nat);
        if (f + 1) * (f + 1) <= n {
            assert((f + 2) * (f + 2) > (f + 1) * (f + 1)) by (nonlinear_arith);
            assert((f + 2) * (f + 2) == (f + 1) * (f + 1) + 2 * (f + 1) + 1) by (nonlinear_arith);
            f + 1
        } else {
            f
        }
    }
}

/// The nearest root is within one half of the square root.
pub proof fn lemma_root_is_nearest(n: nat)
    requires
        n >= 1,
    ensures
        ({
            let m = nearest_root(n) as int;
            (2 * m - 1) * (2 * m - 1) < 4 * n < (2 * m + 1) * (2 * m + 1)
        }),
{
    let w = lemma_floor_root_exists(n);
    let f = choose|f: nat| is_floor_root(n, f);
    assert(is_floor_root(n, f));
    let x = f as int;
    assert(f >= 1) by (nonlinear_arith)
        requires
            n >= 1,
            n < (f + 1) * (f + 1),
            f >= 0,
    ;
    assert((2 * x - 1) * (2 * x - 1) == 4 * (x * x) - 4 * x + 1) by (nonlinear_arith);
    assert((2 * x + 1) * (2 * x + 1) == 4 * (x * x) + 4 * x + 1) by (nonlinear_arith);
    assert((2 * (x + 1) + 1) * (2 * (x + 1) + 1) == 4 * ((x + 1) * (x + 1)) + 4 * (x + 1) + 1)
        by (nonlinear_arith);
    assert((2 * (x + 1) - 1) * (2 * (x + 1) - 1) == 4 * (x * x) + 4 * x + 1) by (nonlinear_arith);
}

/// Rounds an integer to 53 significant bits.
pub fn round_to_precision(n: u128) -> (r: u128)
    requires
        n < 0x4000_0000_0000_0000_0000_0000_0000_0000,
    ensures
        r == round53(n as nat),
        r <= 2 * n,
{
    let mut floor: u128 = n;
    let mut unit: u128 = 1;
    proof {
        assert(n as nat / 1 == n);
        assert(1 * last_place(n as nat) == last_place(n as nat));
    }
    while floor >= PRECISION_LIMIT
        invariant
            n < 0x4000_0000_0000_0000_0000_0000_0000_0000,
            unit >= 1,
            floor == n as nat / unit as nat,
            last_place(n as nat) == unit * last_place(floor as nat),
            floor >= 1 ==> unit <= n,
            n >= 1 ==> floor >= 1,
        decreases floor,
    {
        proof {
            vstd::arithmetic::div_mod::lemma_div_denominator(n as int, unit as int, 2);
            let tail = last_place(floor as nat / 2);
            assert(unit * (2 * tail) == (unit * 2) * tail) by (nonlinear_arith);
            vstd::arithmetic::div_mod::lemma_fundamental_div_mod(n as int, unit as int);
            assert(unit * 2 <= n) by (nonlinear_arith)
                requires
                    n >= unit * floor,
                    floor >= 2,
                    unit >= 1,
            ;
        }
        floor = floor / 2;
        unit = unit * 2;
    }
    proof {
        assert(last_place(floor as nat) == 1);
        assert(unit * 1 == unit);
        vstd::arithmetic::div_mod::lemma_fundamental_div_mod(n as int, unit as int);
        assert(unit * floor == floor * unit) by (nonlinear_arith);
        lemma_round53_bound(n as nat);
        assert((floor + 1) * unit == floor * unit + unit) by (nonlinear_arith);
    }
    let down: u128 = floor * unit;
    let rest: u128 = n - down;
    if rest < unit - rest || (rest == unit - rest && floor % 2 == 0) {
        down
    } else {
        down + unit
    }
}

/// The integer nearest to the square root of `n`, found bit by bit.
pub fn root_to_nearest(n: u128) -> (m: u128)
    requires
        ROOT_FLOOR <= n < 4 * ROOT_FLOOR,
    ensures
        m == nearest_root(n as nat),
        0x10_0000_0000_0000 <= m <= 0x20_0000_0000_0000,
{
    let mut f: u128 = 0;
    let mut step: u128 = PRECISION_LIMIT;
    let ghost mut bits: nat = 53;
    proof {
        vstd::arithmetic::power2::lemma2_to64_rest();
        assert(PRECISION_LIMIT * PRECISION_LIMIT == 4 * ROOT_FLOOR) by (nonlinear_arith);
        assert(0 * 0 == 0);
    }
    while step > 1
        invariant
            step == vstd::arithmetic::power2::pow2(bits),
            f + step <= PRECISION_LIMIT,
            f * f <= n < (f + step) * (f + step),
        decreases step,
    {
        proof {
            if bits == 0 {
                vstd::arithmetic::power2::lemma2_to64();
            }
            vstd::arithmetic::power2::lemma_pow2_unfold(bits);
            bits = (bits - 1) as nat;
            assert((f + step / 2) * (f + step / 2) <= PRECISION_LIMIT * PRECISION_LIMIT)
                by (nonlinear_arith)
                requires
                    f + step / 2 <= PRECISION_LIMIT,
                    f >= 0,
                    step >= 0,
            ;
        }
        let half: u128 = step / 2;
        let next: u128 = f + half;
        if next * next <= n {
            f = next;
        }
        step = half;
    }
    proof {
        assert(step == 1) by {
            vstd::arithmetic::power2::lemma_pow2_pos(bits);
        }
        assert(is_floor_root(n as nat, f as nat));
        let g = choose|g: nat| is_floor_root(n as nat, g);
        lemma_floor_root_unique(n as nat, f as nat, g);
        let low: u128 = 0x10_0000_0000_0000;
        assert(f + 1 > low) by (nonlinear_arith)
            requires
                low * low <= n,
                n < (f + 1) * (f + 1),
                f >= 0,
        ;
        assert(f * f + f <= n + f);
        assert(f * f <= PRECISION_LIMIT * PRECISION_LIMIT) by (nonlinear_arith)
            requires
                0 <= f <= PRECISION_LIMIT,
        ;
    }
    if n <= f * f + f {
        f
    } else {
        f + 1
    }
}

} // verus!
