//! Fixed-point currency conversion.
//!
//! Amounts live inside the ledger as integer cents.  At the boundary they
//! are exchanged as exact decimal numbers (`Decimal`), never as binary
//! floating point: multiplying a binary float by 100 and truncating can
//! turn 17.40 into 1739 cents.  `Conversion::to_int` therefore rounds to
//! the nearest cent, half away from zero, and `Conversion::to_float`
//! produces the exact decimal `cents / 100`.

use vstd::prelude::*;
use vstd::arithmetic::div_mod::lemma_div_multiples_vanish_fancy;

verus! {

/// An exact decimal number with value `mantissa / 10^scale`.
///
/// `17.4` is written `Decimal { mantissa: 174, scale: 1 }`.
#[derive(Clone, Copy, Debug, PartialEq, Eq, Structural)]
pub struct Decimal {
    pub mantissa: i64,
    pub scale: u32,
}

/// Largest number of fraction digits a `Decimal` may carry.
pub const MAX_SCALE: u32 = 12;

/// `10^e`.
pub open spec fn pow10(e: nat) -> int
    decreases e,
{
    if e == 0 {
        1
    } else {
        10 * pow10((e - 1) as nat)
    }
}

proof fn lemma_pow10_pos(e: nat)
    ensures
        1 <= pow10(e),
    decreases e,
{
    if e > 0 {
        lemma_pow10_pos((e - 1) as nat);
    }
}

proof fn lemma_pow10_le(a: nat, b: nat)
    requires
        a <= b,
    ensures
        pow10(a) <= pow10(b),
    decreases b,
{
    if a < b {
        lemma_pow10_le(a, (b - 1) as nat);
        lemma_pow10_pos((b - 1) as nat);
    }
}

proof fn lemma_pow10_bounds(e: nat)
    ensures
        1 <= pow10(e),
        e <= 12 ==> pow10(e) <= 1_000_000_000_000,
{
    lemma_pow10_pos(e);
    if e <= 12 {
        lemma_pow10_le(e, 12);
        assert(pow10(12) == 1_000_000_000_000) by {
            reveal_with_fuel(pow10, 13);
        }
    }
}

/// The integer nearest to `n / d`, rounding halves away from zero;
/// `d` must be positive.
pub open spec fn round_half_div(n: int, d: int) -> int
    recommends
        d > 0,
{
    if n >= 0 {
        (n + d / 2) / d
    } else {
        -((-n + d / 2) / d)
    }
}

/// The number of cents nearest to `(mantissa / 10^scale) * 100`,
/// halves rounded away from zero.
pub open spec fn cents_of(mantissa: int, scale: nat) -> int {
    round_half_div(mantissa * 100, pow10(scale))
}

impl Decimal {
    pub open spec fn valid(self) -> bool {
        self.scale <= MAX_SCALE
    }

    /// The cents this decimal rounds to.
    pub open spec fn cents(self) -> int {
        cents_of(self.mantissa as int, self.scale as nat)
    }

    pub fn new(mantissa: i64, scale: u32) -> (r: Decimal)
        requires
            scale <= MAX_SCALE,
        ensures
            r == (Decimal { mantissa, scale }),
            r.valid(),
    {
        Decimal { mantissa, scale }
    }
}

/// `10^e` as a machine integer.
fn pow10_u128(e: u32) -> (r: u128)
    requires
        e <= 12,
    ensures
        r == pow10(e as nat),
        1 <= r <= 1_000_000_000_000,
{
    proof {
        lemma_pow10_bounds(e as nat);
    }
    let mut r: u128 = 1;
    let mut i: u32 = 0;
    while i < e
        invariant
            i <= e <= 12,
            r == pow10(i as nat),
        decreases e - i,
    {
        proof {
            lemma_pow10_bounds(i as nat);
            lemma_pow10_bounds((i + 1) as nat);
        }
        r = r * 10;
        i = i + 1;
    }
    r
}

pub struct Conversion;

impl Conversion {
    /// Decimal currency value to integer cents, rounded to the nearest
    /// cent with halves away from zero — never truncated.
    pub fn to_int(value: &Decimal) -> (r: i64)
        requires
            value.valid(),
            -0x7fff_ffff_ffff_ffff <= value.cents() <= 0x7fff_ffff_ffff_ffff,
        ensures
            r == value.cents(),
    {
        let d: u128 = pow10_u128(value.scale);
        let neg = value.mantissa < 0;
        let mag: u128 = if neg {
            (-(value.mantissa as i128)) as u128 * 100
        } else {
            value.mantissa as u128 * 100
        };
        let q: u128 = (mag + d / 2) / d;
        if neg {
            proof {
                assert(q == (-(value.mantissa as int) * 100 + pow10(value.scale as nat) / 2)
                    / pow10(value.scale as nat));
            }
            -(q as i64)
        } else {
            q as i64
        }
    }

    /// Integer cents to the exact decimal `value / 100`.
    pub fn to_float(value: i64) -> (r: Decimal)
        ensures
            r == (Decimal { mantissa: value, scale: 2 }),
            r.valid(),
            r.cents() == value,
    {
        proof {
            lemma_cents_round_trip(value as int);
        }
        Decimal { mantissa: value, scale: 2 }
    }
}

/// Round trip: every integer number of cents survives the conversion to
/// a decimal and back unchanged.
pub proof fn lemma_cents_round_trip(c: int)
    ensures
        cents_of(c, 2) == c,
{
    assert(pow10(2) == 100) by {
        reveal_with_fuel(pow10, 3);
    }
    if c >= 0 {
        lemma_div_multiples_vanish_fancy(c, 50, 100);
        assert(100 * c + 50 == c * 100 + 100int / 2);
    } else {
        lemma_div_multiples_vanish_fancy(-c, 50, 100);
        assert(100 * (-c) + 50 == -(c * 100) + 100int / 2);
    }
}

} // verus!
