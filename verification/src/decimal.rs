//! Exact decimal numbers: the value of a sensor reading or a threshold.
//!
//! A `Decimal` denotes the rational number `mantissa / 10^scale`. Readings
//! are parsed from provider strings such as `"23.5"` and thresholds are kept
//! and persisted in this form, so no rounding ever happens in the core.

use vstd::prelude::*;

verus! {

/// The largest scale (number of fraction digits) a well-formed `Decimal`
/// may carry; `10^MAX_SCALE` still fits comfortably in an `i64`.
pub const MAX_SCALE: u32 = 18;

/// An exact decimal number: the rational `mantissa / 10^scale`.
#[derive(Clone, Copy, Debug, PartialEq, Eq, Structural)]
pub struct Decimal {
    pub mantissa: i64,
    pub scale: u32,
}

/// `10^e` as a mathematical integer.
pub open spec fn pow10(e: nat) -> int
    decreases e,
{
    if e == 0 {
        1
    } else {
        10 * pow10((e - 1) as nat)
    }
}

impl Decimal {
    /// Well-formedness: the scale is small enough that cross-scale
    /// comparisons cannot overflow a 128-bit intermediate.
    pub open spec fn wf(self) -> bool {
        self.scale <= MAX_SCALE
    }

    /// The denoted rational `a` is less than `b` exactly when
    /// `a.mantissa * 10^b.scale < b.mantissa * 10^a.scale`.
    pub open spec fn spec_lt(self, other: Decimal) -> bool {
        self.mantissa * pow10(other.scale as nat) < other.mantissa * pow10(self.scale as nat)
    }

    /// Exact comparison of the denoted rationals: `self < other`.
    pub fn lt(&self, other: &Decimal) -> (r: bool)
        requires
            self.wf(),
            other.wf(),
        ensures
            r == self.spec_lt(*other),
    {
        let pb = pow10_i128(other.scale);
        let pa = pow10_i128(self.scale);
        proof {
            lemma_scaled_fits(self.mantissa as int, pb as int);
            lemma_scaled_fits(other.mantissa as int, pa as int);
        }
        let a = (self.mantissa as i128) * pb;
        let b = (other.mantissa as i128) * pa;
        a < b
    }

    /// Exact comparison of the denoted rationals: `self > other`.
    pub fn gt(&self, other: &Decimal) -> (r: bool)
        requires
            self.wf(),
            other.wf(),
        ensures
            r == other.spec_lt(*self),
    {
        other.lt(self)
    }
}

proof fn lemma_scaled_fits(m: int, p: int)
    requires
        -0x8000000000000000 <= m <= 0x7fffffffffffffff,
        1 <= p <= 0x0de0b6b3a7640000,
    ensures
        -0x80000000000000000000000000000000 <= m * p <= 0x7fffffffffffffffffffffffffffffff,
{
    assert(-0x80000000000000000000000000000000 <= m * p
        <= 0x7fffffffffffffffffffffffffffffff) by (nonlinear_arith)
        requires
            -0x8000000000000000 <= m <= 0x7fffffffffffffff,
            1 <= p <= 0x0de0b6b3a7640000,
    ;
}

proof fn lemma_pow10_18()
    ensures
        pow10(18) == 0x0de0b6b3a7640000,
{
    reveal_with_fuel(pow10, 20);
}

pub(crate) proof fn lemma_pow10_bounds(e: nat)
    requires
        e <= MAX_SCALE,
    ensures
        1 <= pow10(e) <= pow10(MAX_SCALE as nat),
        pow10(MAX_SCALE as nat) == 0x0de0b6b3a7640000,
{
    lemma_pow10_18();
    lemma_pow10_mono(e, MAX_SCALE as nat);
}

proof fn lemma_pow10_mono(a: nat, b: nat)
    requires
        a <= b,
    ensures
        pow10(a) <= pow10(b),
        pow10(a) >= 1,
    decreases b,
{
    if a == 0 {
        lemma_pow10_ge_one(b);
    } else {
        lemma_pow10_mono((a - 1) as nat, (b - 1) as nat);
    }
}

proof fn lemma_pow10_ge_one(e: nat)
    ensures
        pow10(e) >= 1,
    decreases e,
{
    if e > 0 {
        lemma_pow10_ge_one((e - 1) as nat);
    }
}

/// `10^e` computed exactly, for scales of well-formed decimals.
pub(crate) fn pow10_i128(e: u32) -> (r: i128)
    requires
        e <= MAX_SCALE,
    ensures
        r == pow10(e as nat),
        1 <= r <= 0x0de0b6b3a7640000,
{
    proof {
        lemma_pow10_bounds(e as nat);
    }
    let mut r: i128 = 1;
    let mut i: u32 = 0;
    while i < e
        invariant
            i <= e <= MAX_SCALE,
            r == pow10(i as nat),
            1 <= r <= 0x0de0b6b3a7640000,
        decreases e - i,
    {
        proof {
            lemma_pow10_bounds((i + 1) as nat);
        }
        r = r * 10;
        i = i + 1;
    }
    r
}

} // verus!
