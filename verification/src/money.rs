//! Exact decimal amounts, held as a signed mantissa and a base-ten scale.
//!
//! The value of a `Money` is `mantissa / 10^scale`. Arithmetic goes through
//! `rust_decimal`, which stores the same pair; the contracts below are stated
//! over `units`, the value measured in 10^-28, which every valid amount is an
//! exact integer multiple of.
use vstd::prelude::*;

verus! {

/// Largest mantissa magnitude a decimal can hold (96 bits).
pub const MAX_MANTISSA: i128 = 0xFFFF_FFFF_FFFF_FFFF_FFFF_FFFFi128;

/// Largest scale (number of fractional digits) a decimal can carry.
pub const MAX_SCALE: u32 = 28;

/// An exact decimal amount: `mantissa / 10^scale`.
#[derive(Clone, Copy, Debug, PartialEq, Eq)]
pub struct Money {
    pub mantissa: i128,
    pub scale: u32,
}

/// `10^n`.
pub open spec fn pow10(n: nat) -> int
    decreases n,
{
    if n == 0 {
        1
    } else {
        10 * pow10((n - 1) as nat)
    }
}

pub open spec fn max_scale(a: u32, b: u32) -> u32 {
    if a >= b {
        a
    } else {
        b
    }
}

impl Money {
    /// The pair is a representable decimal.
    pub open spec fn wf(self) -> bool {
        &&& -MAX_MANTISSA <= self.mantissa <= MAX_MANTISSA
        &&& self.scale <= MAX_SCALE
    }

    /// The value in units of 10^-28.
    pub open spec fn units(self) -> int {
        self.mantissa * pow10((MAX_SCALE - self.scale) as nat)
    }

    /// The mantissa brought to scale `s` (meaningful for `s >= self.scale`).
    pub open spec fn mantissa_at(self, s: u32) -> int {
        self.mantissa * pow10((s - self.scale) as nat)
    }

    pub open spec fn zero_spec() -> Money {
        Money { mantissa: 0, scale: 0 }
    }

    /// The decimal zero, `Decimal::ZERO`.
    pub fn zero() -> (r: Money)
        ensures
            r == Money::zero_spec(),
            r.wf(),
    {
        Money { mantissa: 0, scale: 0 }
    }
}

/// The exact sum of two amounts, aligned to the larger of their scales.
pub open spec fn aligned_sum(a: Money, b: Money) -> int {
    let s = max_scale(a.scale, b.scale);
    a.mantissa_at(s) + b.mantissa_at(s)
}

/// The exact difference of two amounts, aligned to the larger of their scales.
pub open spec fn aligned_difference(a: Money, b: Money) -> int {
    let s = max_scale(a.scale, b.scale);
    a.mantissa_at(s) - b.mantissa_at(s)
}

pub open spec fn fits_mantissa(m: int) -> bool {
    -MAX_MANTISSA <= m <= MAX_MANTISSA
}

/// What `rust_decimal` gives for `a + b` where the exact aligned sum of two
/// non-zero amounts does not fit in 96 bits (it then rounds away fractional
/// digits, or reports an overflow).
pub uninterp spec fn decimal_checked_add(am: i128, ascale: u32, bm: i128, bscale: u32) -> Option<(i128, u32)>;

/// What `rust_decimal` gives for `a - b` where the exact aligned difference of two
/// non-zero amounts does not fit in 96 bits.
pub uninterp spec fn decimal_checked_sub(am: i128, ascale: u32, bm: i128, bscale: u32) -> Option<(i128, u32)>;

pub open spec fn money_of(p: Option<(i128, u32)>) -> Option<Money> {
    match p {
        Some((m, s)) => Some(Money { mantissa: m, scale: s }),
        None => None,
    }
}

/// `a + b` as `rust_decimal` computes it: a zero operand gives the other
/// operand unchanged; otherwise the exact sum at the larger scale when it
/// fits, and the decimal crate's rounded result (or overflow) when it does not.
pub open spec fn decimal_sum(a: Money, b: Money) -> Option<Money> {
    if a.mantissa == 0 {
        Some(b)
    } else if b.mantissa == 0 {
        Some(a)
    } else if fits_mantissa(aligned_sum(a, b)) {
        Some(Money { mantissa: aligned_sum(a, b) as i128, scale: max_scale(a.scale, b.scale) })
    } else {
        money_of(decimal_checked_add(a.mantissa, a.scale, b.mantissa, b.scale))
    }
}

/// `a - b` as `rust_decimal` computes it (see `decimal_sum`).
pub open spec fn decimal_difference(a: Money, b: Money) -> Option<Money> {
    if a.mantissa == 0 {
        Some(Money { mantissa: (-b.mantissa) as i128, scale: b.scale })
    } else if b.mantissa == 0 {
        Some(a)
    } else if fits_mantissa(aligned_difference(a, b)) {
        Some(
            Money {
                mantissa: aligned_difference(a, b) as i128,
                scale: max_scale(a.scale, b.scale),
            },
        )
    } else {
        money_of(decimal_checked_sub(a.mantissa, a.scale, b.mantissa, b.scale))
    }
}

/// `rust_decimal::Decimal::checked_add`. Claims: a zero operand yields the other
/// operand as it is; two non-zero operands whose exact sum, aligned to the larger
/// scale, fits in 96 bits yield that sum at that scale; any result is a valid
/// decimal. Where the aligned sum does not fit, the result is only named.
#[verifier::external_body]
pub(crate) fn checked_add(a: Money, b: Money) -> (r: Option<Money>)
    requires
        a.wf(),
        b.wf(),
    ensures
        r == decimal_sum(a, b),
        a.mantissa != 0 && b.mantissa != 0 && !fits_mantissa(aligned_sum(a, b)) ==> r == money_of(
            decimal_checked_add(a.mantissa, a.scale, b.mantissa, b.scale),
        ),
        r matches Some(c) ==> c.wf(),
{
    let x = rust_decimal::Decimal::from_i128_with_scale(a.mantissa, a.scale);
    let y = rust_decimal::Decimal::from_i128_with_scale(b.mantissa, b.scale);
    match x.checked_add(y) {
        Some(z) => Some(Money { mantissa: z.mantissa(), scale: z.scale() }),
        None => None,
    }
}

/// `rust_decimal::Decimal::checked_sub`. Claims: `0 - b` is `b` negated at `b`'s
/// scale; `a - 0` is `a` as it is; two non-zero operands whose exact difference,
/// aligned to the larger scale, fits in 96 bits yield that difference at that
/// scale; any result is a valid decimal. Otherwise the result is only named.
#[verifier::external_body]
pub(crate) fn checked_sub(a: Money, b: Money) -> (r: Option<Money>)
    requires
        a.wf(),
        b.wf(),
    ensures
        r == decimal_difference(a, b),
        a.mantissa != 0 && b.mantissa != 0 && !fits_mantissa(aligned_difference(a, b)) ==> r
            == money_of(decimal_checked_sub(a.mantissa, a.scale, b.mantissa, b.scale)),
        r matches Some(c) ==> c.wf(),
{
    let x = rust_decimal::Decimal::from_i128_with_scale(a.mantissa, a.scale);
    let y = rust_decimal::Decimal::from_i128_with_scale(b.mantissa, b.scale);
    match x.checked_sub(y) {
        Some(z) => Some(Money { mantissa: z.mantissa(), scale: z.scale() }),
        None => None,
    }
}

/// `>` on `rust_decimal::Decimal`, which compares numeric values.
#[verifier::external_body]
pub(crate) fn greater_than(a: Money, b: Money) -> (r: bool)
    requires
        a.wf(),
        b.wf(),
    ensures
        r == (a.units() > b.units()),
{
    let x = rust_decimal::Decimal::from_i128_with_scale(a.mantissa, a.scale);
    let y = rust_decimal::Decimal::from_i128_with_scale(b.mantissa, b.scale);
    x > y
}

/// `a + b` needs no rounding: an operand is zero, or the aligned sum fits.
pub open spec fn sum_is_exact(a: Money, b: Money) -> bool {
    a.mantissa == 0 || b.mantissa == 0 || fits_mantissa(aligned_sum(a, b))
}

/// `a - b` needs no rounding: an operand is zero, or the aligned difference fits.
pub open spec fn difference_is_exact(a: Money, b: Money) -> bool {
    a.mantissa == 0 || b.mantissa == 0 || fits_mantissa(aligned_difference(a, b))
}

pub proof fn lemma_pow10_add(a: nat, b: nat)
    ensures
        pow10(a + b) == pow10(a) * pow10(b),
    decreases a,
{
    if a > 0 {
        lemma_pow10_add((a - 1) as nat, b);
        assert(pow10(a + b) == 10 * pow10((a - 1 + b) as nat));
        vstd::arithmetic::mul::lemma_mul_is_associative(10, pow10((a - 1) as nat), pow10(b));
    }
}

pub proof fn lemma_pow10_positive(a: nat)
    ensures
        pow10(a) > 0,
    decreases a,
{
    if a > 0 {
        lemma_pow10_positive((a - 1) as nat);
    }
}

/// Bringing an amount to a larger scale keeps its value.
pub proof fn lemma_units_at(m: Money, s: u32)
    requires
        m.scale <= s <= MAX_SCALE,
    ensures
        m.mantissa_at(s) * pow10((MAX_SCALE - s) as nat) == m.units(),
{
    lemma_pow10_add((s - m.scale) as nat, (MAX_SCALE - s) as nat);
    assert((s - m.scale) as nat + (MAX_SCALE - s) as nat == (MAX_SCALE - m.scale) as nat);
    vstd::arithmetic::mul::lemma_mul_is_associative(
        m.mantissa as int,
        pow10((s - m.scale) as nat),
        pow10((MAX_SCALE - s) as nat),
    );
}

/// An exact sum is the sum of the values.
pub proof fn lemma_sum_value(a: Money, b: Money)
    requires
        a.wf(),
        b.wf(),
        sum_is_exact(a, b),
    ensures
        decimal_sum(a, b) matches Some(c) && c.wf() && c.units() == a.units() + b.units(),
{
    if a.mantissa == 0 {
        assert(a.units() == 0);
    } else if b.mantissa == 0 {
        assert(b.units() == 0);
    } else {
        let s = max_scale(a.scale, b.scale);
        lemma_units_at(a, s);
        lemma_units_at(b, s);
        vstd::arithmetic::mul::lemma_mul_is_distributive_add_other_way(
            pow10((MAX_SCALE - s) as nat),
            a.mantissa_at(s),
            b.mantissa_at(s),
        );
    }
}

/// An exact difference is the difference of the values.
pub proof fn lemma_difference_value(a: Money, b: Money)
    requires
        a.wf(),
        b.wf(),
        difference_is_exact(a, b),
    ensures
        decimal_difference(a, b) matches Some(c) && c.wf() && c.units() == a.units() - b.units(),
{
    if a.mantissa == 0 {
        assert(a.units() == 0);
        vstd::arithmetic::mul::lemma_mul_unary_negation(
            b.mantissa as int,
            pow10((MAX_SCALE - b.scale) as nat),
        );
    } else if b.mantissa == 0 {
        assert(b.units() == 0);
    } else {
        let s = max_scale(a.scale, b.scale);
        lemma_units_at(a, s);
        lemma_units_at(b, s);
        vstd::arithmetic::mul::lemma_mul_is_distributive_sub_other_way(
            pow10((MAX_SCALE - s) as nat),
            a.mantissa_at(s),
            b.mantissa_at(s),
        );
    }
}

/// An amount is worth nothing exactly when its mantissa is zero.
pub proof fn lemma_zero_units(m: Money)
    requires
        m.wf(),
    ensures
        (m.units() == 0) == (m.mantissa == 0),
{
    lemma_pow10_positive((MAX_SCALE - m.scale) as nat);
    if m.mantissa != 0 {
        vstd::arithmetic::mul::lemma_mul_nonzero(
            m.mantissa as int,
            pow10((MAX_SCALE - m.scale) as nat),
        );
    }
}

/// Subtracting an amount from itself is always exact.
pub proof fn lemma_self_difference_exact(a: Money)
    ensures
        difference_is_exact(a, a),
{
    assert(aligned_difference(a, a) == 0);
}

} // verus!
