//! An exact base-10 fixed-point number: a 64-bit signed mantissa together with
//! a scale, denoting `mantissa / 10^scale`. The scale is at most [`MAX_SCALE`],
//! so every value is exact at 19 fractional digits. Arithmetic is exact: an
//! operation either returns the mathematically exact result (division rounds
//! by a fixed, documented policy) or reports that it is not representable.

use vstd::prelude::*;

use crate::digits::lemma_pow10_adds;
use crate::digits::lemma_pow10_increases;
use crate::digits::lemma_pow10_pos;
use crate::digits::pow10;

verus! {

/// Largest number of fractional digits a [`Decimal`] can carry.
pub const MAX_SCALE: u32 = 19;

/// Magnitude of the most negative mantissa, `2^63`.
pub const MIN_MAGNITUDE: u128 = 9223372036854775808;

/// An exact fixed-point decimal: `mantissa / 10^scale`.
#[derive(Clone, Copy, Debug, PartialEq, Eq, Structural)]
pub struct Decimal {
    pub mantissa: i64,
    pub scale: u32,
}

/// The magnitude of an integer.
pub open spec fn abs_i(m: int) -> nat {
    if m >= 0 {
        m as nat
    } else {
        (-m) as nat
    }
}

/// Largest mantissa magnitude that a sign can carry in an `i64`.
pub open spec fn limit_of(neg: bool) -> nat {
    if neg {
        9223372036854775808
    } else {
        9223372036854775807
    }
}

/// The signed mantissa built from a sign and a magnitude.
pub open spec fn signed(neg: bool, mag: nat) -> int {
    if neg {
        -(mag as int)
    } else {
        mag as int
    }
}

impl Decimal {
    /// Well-formed: the scale stays within the supported fractional precision.
    pub open spec fn wf(self) -> bool {
        self.scale <= MAX_SCALE
    }

    /// The value scaled to a common denominator of `10^MAX_SCALE`:
    /// two well-formed decimals denote the same number exactly when their
    /// scaled values are equal.
    pub open spec fn scaled(self) -> int {
        self.mantissa * pow10((MAX_SCALE - self.scale) as nat)
    }

    /// Builds the decimal `mantissa / 10^scale`.
    pub fn new(mantissa: i64, scale: u32) -> (r: Decimal)
        requires
            scale <= MAX_SCALE,
        ensures
            r == (Decimal { mantissa, scale }),
            r.wf(),
    {
        Decimal { mantissa, scale }
    }

    /// How many fractional digits are significant: zero when the fractional
    /// part is exactly zero, otherwise the full scale. This is the rule that
    /// derives the display precision of a parsed coefficient.
    pub open spec fn spec_fract_digits(self) -> nat {
        if abs_i(self.mantissa as int) as int % pow10(self.scale as nat) == 0 {
            0
        } else {
            self.scale as nat
        }
    }

    pub fn fract_digits(&self) -> (r: usize)
        requires
            self.wf(),
        ensures
            r == self.spec_fract_digits(),
    {
        let mag = abs64(self.mantissa);
        let p = pow10_u128(self.scale);
        proof {
            lemma_pow10_pos(self.scale as nat);
        }
        if mag % p == 0 {
            0
        } else {
            self.scale as usize
        }
    }
}

/// Strips trailing zeros only while the magnitude exceeds `limit`, so a value
/// keeps its scale whenever it already fits.
pub open spec fn spec_strip_fit(mag: nat, s: nat, limit: nat) -> (nat, nat)
    decreases s,
{
    if mag <= limit {
        (mag, s)
    } else if s > 0 && mag % 10 == 0 {
        spec_strip_fit(mag / 10, (s - 1) as nat, limit)
    } else {
        (mag, s)
    }
}

/// Strips all trailing zeros from the fractional digits.
pub open spec fn spec_strip_all(mag: nat, s: nat) -> (nat, nat)
    decreases s,
{
    if s > 0 && mag % 10 == 0 {
        spec_strip_all(mag / 10, (s - 1) as nat)
    } else {
        (mag, s)
    }
}

/// Stripping preserves the denoted value and never raises the scale.
pub proof fn lemma_strip_fit_value(mag: nat, s: nat, limit: nat)
    ensures
        ({
            let (m2, s2) = spec_strip_fit(mag, s, limit);
            &&& s2 <= s
            &&& m2 * pow10((s - s2) as nat) == mag
            &&& m2 <= mag
        }),
    decreases s,
{
    let (m2, s2) = spec_strip_fit(mag, s, limit);
    if mag <= limit {
        lemma_pow10_pos(0);
    } else if s > 0 && mag % 10 == 0 {
        lemma_strip_fit_value(mag / 10, (s - 1) as nat, limit);
        let (m3, s3) = spec_strip_fit(mag / 10, (s - 1) as nat, limit);
        assert(mag / 10 * 10 == mag) by (nonlinear_arith)
            requires
                mag % 10 == 0,
        ;
        assert(pow10((s - s3) as nat) == pow10((s - 1 - s3) as nat) * 10) by {
            lemma_pow10_adds((s - 1 - s3) as nat, 1);
        }
        assert(m3 * (pow10((s - 1 - s3) as nat) * 10) == (m3 * pow10((s - 1 - s3) as nat)) * 10)
            by (nonlinear_arith);
        assert((m2, s2) == (m3, s3));
        assert(m3 * pow10(((s - 1) as nat - s3) as nat) == mag / 10);
        assert(m2 * pow10((s - s2) as nat) == m3 * (pow10((s - 1 - s3) as nat) * 10));
        assert(m2 * pow10((s - s2) as nat) == (mag / 10) * 10);
    } else {
        lemma_pow10_pos(0);
    }
}

/// Full stripping preserves the denoted value and never raises the scale.
pub proof fn lemma_strip_all_value(mag: nat, s: nat)
    ensures
        ({
            let (m2, s2) = spec_strip_all(mag, s);
            &&& s2 <= s
            &&& m2 * pow10((s - s2) as nat) == mag
            &&& m2 <= mag
        }),
    decreases s,
{
    let (m2, s2) = spec_strip_all(mag, s);
    if s > 0 && mag % 10 == 0 {
        lemma_strip_all_value(mag / 10, (s - 1) as nat);
        let (m3, s3) = spec_strip_all(mag / 10, (s - 1) as nat);
        assert(mag / 10 * 10 == mag) by (nonlinear_arith)
            requires
                mag % 10 == 0,
        ;
        assert(pow10((s - s3) as nat) == pow10((s - 1 - s3) as nat) * 10) by {
            lemma_pow10_adds((s - 1 - s3) as nat, 1);
        }
        assert(m3 * (pow10((s - 1 - s3) as nat) * 10) == (m3 * pow10((s - 1 - s3) as nat)) * 10)
            by (nonlinear_arith);
        assert((m2, s2) == (m3, s3));
        assert(m3 * pow10(((s - 1) as nat - s3) as nat) == mag / 10);
        assert(m2 * pow10((s - s2) as nat) == m3 * (pow10((s - 1 - s3) as nat) * 10));
        assert(m2 * pow10((s - s2) as nat) == (mag / 10) * 10);
        assert(mag / 10 <= mag) by (nonlinear_arith);
        assert(s2 <= s);
        assert(m2 * pow10((s - s2) as nat) == mag);
        assert(m2 <= mag);
    } else {
        assert(m2 == mag && s2 == s);
        assert(pow10(0) == 1);
        assert(m2 * pow10((s - s2) as nat) == mag);
    }
}

/// What remains after full stripping is at least `mag / 10^s`.
pub proof fn lemma_strip_all_lower(mag: nat, s: nat)
    ensures
        spec_strip_all(mag, s).0 * pow10(s) >= mag,
{
    let (m2, s2) = spec_strip_all(mag, s);
    lemma_strip_all_value(mag, s);
    lemma_pow10_increases((s - s2) as nat, s);
    assert(m2 * pow10(s) >= m2 * pow10((s - s2) as nat)) by (nonlinear_arith)
        requires
            pow10(s) >= pow10((s - s2) as nat),
            m2 >= 0,
    ;
}

/// Threshold for the running quotient of the long division: once the quotient
/// exceeds `2^63 * 10^18`, one more digit pushes the result past every
/// representable mantissa.
pub const DIV_ABORT: u128 = 9223372036854775808 * 1000000000000000000;

/// Strips trailing zeros only while the scale exceeds [`MAX_SCALE`].
pub open spec fn spec_strip_scale(mag: nat, s: nat) -> (nat, nat)
    decreases s,
{
    if s > MAX_SCALE && mag % 10 == 0 {
        spec_strip_scale(mag / 10, (s - 1) as nat)
    } else {
        (mag, s)
    }
}

/// Scale-bound stripping preserves the denoted value and never raises the scale.
pub proof fn lemma_strip_scale_value(mag: nat, s: nat)
    ensures
        ({
            let (m2, s2) = spec_strip_scale(mag, s);
            &&& s2 <= s
            &&& m2 * pow10((s - s2) as nat) == mag
            &&& m2 <= mag
        }),
    decreases s,
{
    let (m2, s2) = spec_strip_scale(mag, s);
    if s > MAX_SCALE && mag % 10 == 0 {
        lemma_strip_scale_value(mag / 10, (s - 1) as nat);
        let (m3, s3) = spec_strip_scale(mag / 10, (s - 1) as nat);
        assert(mag / 10 * 10 == mag) by (nonlinear_arith)
            requires
                mag % 10 == 0,
        ;
        assert(pow10((s - s3) as nat) == pow10((s - 1 - s3) as nat) * 10) by {
            lemma_pow10_adds((s - 1 - s3) as nat, 1);
        }
        assert(m3 * (pow10((s - 1 - s3) as nat) * 10) == (m3 * pow10((s - 1 - s3) as nat)) * 10)
            by (nonlinear_arith);
        assert((m2, s2) == (m3, s3));
        assert(m3 * pow10(((s - 1) as nat - s3) as nat) == mag / 10);
        assert(m2 * pow10((s - s2) as nat) == m3 * (pow10((s - 1 - s3) as nat) * 10));
        assert(m2 * pow10((s - s2) as nat) == (mag / 10) * 10);
        assert(mag / 10 <= mag) by (nonlinear_arith);
    } else {
        assert(m2 == mag && s2 == s);
        assert(pow10(0) == 1);
    }
}

/// Carrying an exact value statement from one scale to a coarser common scale.
pub proof fn lemma_value_transport(m2: nat, s2: nat, mag: nat, s: nat, k: nat)
    requires
        m2 * pow10((s - s2) as nat) == mag,
        s2 <= s <= k,
    ensures
        m2 * pow10((k - s2) as nat) == mag * pow10((k - s) as nat),
{
    lemma_pow10_adds((s - s2) as nat, (k - s) as nat);
    assert(m2 * (pow10((s - s2) as nat) * pow10((k - s) as nat)) == (m2 * pow10(
        (s - s2) as nat,
    )) * pow10((k - s) as nat)) by (nonlinear_arith);
}

/// The sign decomposition of a product of two integers.
pub proof fn lemma_signed_mul(x: int, y: int)
    ensures
        x * y == signed((x < 0) != (y < 0), abs_i(x) * abs_i(y)),
{
    assert(x * y == signed((x < 0) != (y < 0), abs_i(x) * abs_i(y))) by (nonlinear_arith);
}

/// Packs a magnitude and scale into a decimal when the magnitude fits the sign.
pub open spec fn spec_pack_checked(neg: bool, mag: nat, s: nat) -> Option<Decimal> {
    if mag <= limit_of(neg) {
        Some(Decimal { mantissa: signed(neg, mag) as i64, scale: s as u32 })
    } else {
        None
    }
}

/// The exact aligned sum (or difference) of two decimals: both mantissas are
/// brought to the larger scale, combined, and trailing zeros are stripped only
/// if the combined mantissa would not fit otherwise.
pub open spec fn spec_dec_combine(a: Decimal, b: Decimal, sub: bool) -> Option<Decimal> {
    let s: nat = if a.scale >= b.scale {
        a.scale as nat
    } else {
        b.scale as nat
    };
    let av = a.mantissa * pow10((s - a.scale) as nat);
    let bv = b.mantissa * pow10((s - b.scale) as nat);
    let sum = if sub {
        av - bv
    } else {
        av + bv
    };
    let (m2, s2) = spec_strip_fit(abs_i(sum), s, limit_of(sum < 0));
    spec_pack_checked(sum < 0, m2, s2)
}

pub open spec fn spec_dec_add(a: Decimal, b: Decimal) -> Option<Decimal> {
    spec_dec_combine(a, b, false)
}

pub open spec fn spec_dec_sub(a: Decimal, b: Decimal) -> Option<Decimal> {
    spec_dec_combine(a, b, true)
}

/// The exact product of two decimals: mantissas multiply and scales add;
/// trailing zeros are stripped as far as needed to bring the scale within
/// bounds and the mantissa within range, and the product is refused when that
/// is not possible exactly.
pub open spec fn spec_dec_mul(a: Decimal, b: Decimal) -> Option<Decimal> {
    let neg = (a.mantissa < 0) != (b.mantissa < 0);
    let mag = abs_i(a.mantissa as int) * abs_i(b.mantissa as int);
    let s = (a.scale + b.scale) as nat;
    let (m1, s1) = spec_strip_scale(mag, s);
    if s1 > MAX_SCALE {
        None
    } else {
        let (m2, s2) = spec_strip_fit(m1, s1, limit_of(neg));
        spec_pack_checked(neg, m2, s2)
    }
}

/// The quotient of two decimals under this crate's division policy: the exact
/// rational quotient is rounded half toward zero at [`MAX_SCALE`] fractional
/// digits, then all trailing zeros are stripped; the result is refused when the
/// rounded mantissa still does not fit.
pub open spec fn spec_dec_div(a: Decimal, b: Decimal) -> Option<Decimal> {
    let neg = (a.mantissa < 0) != (b.mantissa < 0);
    let n = abs_i(a.mantissa as int) as int * pow10((MAX_SCALE + b.scale - a.scale) as nat);
    let d = abs_i(b.mantissa as int) as int;
    let q = n / d;
    let r = n % d;
    let m0: int = if 2 * r > d {
        q + 1
    } else {
        q
    };
    let (m2, s2) = spec_strip_all(m0 as nat, MAX_SCALE as nat);
    spec_pack_checked(neg, m2, s2)
}

/// The coefficient rounded to `dp` fractional digits with the half-toward-zero
/// rule; a coefficient already within `dp` digits is returned unchanged.
pub open spec fn spec_round_htz(d: Decimal, dp: nat) -> Decimal {
    if dp >= d.scale {
        d
    } else {
        let p = pow10((d.scale - dp) as nat);
        let q = abs_i(d.mantissa as int) as int / p;
        let r = abs_i(d.mantissa as int) as int % p;
        let m0: int = if 2 * r > p {
            q + 1
        } else {
            q
        };
        Decimal { mantissa: signed(d.mantissa < 0, m0 as nat) as i64, scale: dp as u32 }
    }
}

/// The value scaled up by `10^d`: the scale absorbs what it can, the mantissa
/// the rest; refused when the mantissa would not fit.
pub open spec fn spec_scale_up(c: Decimal, d: nat) -> Option<Decimal> {
    let k: nat = if d <= c.scale {
        d
    } else {
        c.scale as nat
    };
    let mag = (abs_i(c.mantissa as int) * pow10((d - k) as nat)) as nat;
    if mag <= limit_of(c.mantissa < 0) {
        Some(Decimal { mantissa: signed(c.mantissa < 0, mag) as i64, scale: (c.scale - k) as u32 })
    } else {
        None
    }
}

/// The magnitude of an `i64`, exact also for the most negative value.
pub fn abs64(m: i64) -> (r: u128)
    ensures
        r == abs_i(m as int),
{
    if m >= 0 {
        m as u128
    } else {
        (-(m as i128)) as u128
    }
}

/// `10^n`, computed exactly.
pub fn pow10_u128(n: u32) -> (r: u128)
    requires
        n <= 38,
    ensures
        r as int == pow10(n as nat),
        r >= 1,
    decreases n,
{
    if n == 0 {
        1
    } else {
        let p = pow10_u128(n - 1);
        proof {
            lemma_pow10_increases(n as nat, 38);
            lemma_pow10_38();
            lemma_pow10_adds((n - 1) as nat, 1);
            lemma_pow10_pos((n - 1) as nat);
        }
        p * 10
    }
}

/// The concrete value of `10^38`, the largest power this crate computes.
pub proof fn lemma_pow10_38()
    ensures
        pow10(38) == 100000000000000000000000000000000000000,
        pow10(19) == 10000000000000000000,
{
    reveal_with_fuel(pow10, 40);
}

/// Packs a sign and a magnitude into a mantissa.
pub fn pack_mantissa(neg: bool, mag: u128) -> (r: i64)
    requires
        mag <= limit_of(neg),
    ensures
        r as int == signed(neg, mag as nat),
{
    if neg {
        (-(mag as i128)) as i64
    } else {
        mag as i64
    }
}

/// Multiplying a value by a power of ten distributes over the exponents.
pub proof fn lemma_mul_pow_assoc(m: int, x: nat, y: nat)
    ensures
        (m * pow10(x)) * pow10(y) == m * pow10(x + y),
{
    lemma_pow10_adds(x, y);
    assert((m * pow10(x)) * pow10(y) == m * (pow10(x) * pow10(y))) by (nonlinear_arith);
}

/// The magnitude of an `i128` that is not the most negative value.
fn iabs128(v: i128) -> (r: u128)
    requires
        v > i128::MIN,
    ensures
        r == abs_i(v as int),
{
    if v >= 0 {
        v as u128
    } else {
        (-v) as u128
    }
}

/// A mantissa times `10^k`, in 128-bit arithmetic.
fn mul_pow10_i128(m: i64, k: u32) -> (v: i128)
    requires
        k <= MAX_SCALE,
    ensures
        v == m * pow10(k as nat),
        -9223372036854775808 * 10000000000000000000 <= v <= 9223372036854775808
            * 10000000000000000000,
{
    let p = pow10_u128(k);
    proof {
        lemma_pow10_38();
        lemma_pow10_increases(k as nat, MAX_SCALE as nat);
        assert(-9223372036854775808 * 10000000000000000000 <= m * pow10(k as nat)
            <= 9223372036854775808 * 10000000000000000000) by (nonlinear_arith)
            requires
                -9223372036854775808 <= m as int <= 9223372036854775807,
                1 <= pow10(k as nat) <= 10000000000000000000,
        ;
    }
    (m as i128) * (p as i128)
}

fn strip_fit_exec(mag0: u128, s0: u32, neg: bool) -> (r: (u128, u32))
    ensures
        (r.0 as nat, r.1 as nat) == spec_strip_fit(mag0 as nat, s0 as nat, limit_of(neg)),
        r.1 <= s0,
{
    let limit: u128 = if neg {
        MIN_MAGNITUDE
    } else {
        MIN_MAGNITUDE - 1
    };
    let mut m = mag0;
    let mut s = s0;
    while m > limit && s > 0 && m % 10 == 0
        invariant
            s <= s0,
            limit == limit_of(neg),
            spec_strip_fit(mag0 as nat, s0 as nat, limit_of(neg)) == spec_strip_fit(
                m as nat,
                s as nat,
                limit_of(neg),
            ),
        decreases s,
    {
        m = m / 10;
        s = s - 1;
    }
    (m, s)
}

fn strip_all_exec(mag0: u128, s0: u32) -> (r: (u128, u32))
    ensures
        (r.0 as nat, r.1 as nat) == spec_strip_all(mag0 as nat, s0 as nat),
        r.1 <= s0,
{
    let mut m = mag0;
    let mut s = s0;
    while s > 0 && m % 10 == 0
        invariant
            s <= s0,
            spec_strip_all(mag0 as nat, s0 as nat) == spec_strip_all(m as nat, s as nat),
        decreases s,
    {
        m = m / 10;
        s = s - 1;
    }
    (m, s)
}

fn strip_scale_exec(mag0: u128, s0: u32) -> (r: (u128, u32))
    ensures
        (r.0 as nat, r.1 as nat) == spec_strip_scale(mag0 as nat, s0 as nat),
        r.1 <= s0,
{
    let mut m = mag0;
    let mut s = s0;
    while s > MAX_SCALE && m % 10 == 0
        invariant
            s <= s0,
            spec_strip_scale(mag0 as nat, s0 as nat) == spec_strip_scale(m as nat, s as nat),
        decreases s,
    {
        m = m / 10;
        s = s - 1;
    }
    (m, s)
}

fn pack_checked_exec(neg: bool, mag: u128, s: u32) -> (r: Option<Decimal>)
    requires
        s <= MAX_SCALE,
    ensures
        r == spec_pack_checked(neg, mag as nat, s as nat),
        r matches Some(c) ==> c.wf() && c.mantissa as int == signed(neg, mag as nat) && c.scale
            == s,
{
    let limit: u128 = if neg {
        MIN_MAGNITUDE
    } else {
        MIN_MAGNITUDE - 1
    };
    if mag <= limit {
        Some(Decimal { mantissa: pack_mantissa(neg, mag), scale: s })
    } else {
        None
    }
}

impl Decimal {
    /// Exact addition; `None` when the exact sum has no representation.
    pub fn add(self, other: Decimal) -> (r: Option<Decimal>)
        requires
            self.wf(),
            other.wf(),
        ensures
            r == spec_dec_add(self, other),
            r matches Some(c) ==> c.wf() && c.scaled() == self.scaled() + other.scaled(),
    {
        self.combine(other, false)
    }

    /// Exact subtraction; `None` when the exact difference has no representation.
    pub fn sub(self, other: Decimal) -> (r: Option<Decimal>)
        requires
            self.wf(),
            other.wf(),
        ensures
            r == spec_dec_sub(self, other),
            r matches Some(c) ==> c.wf() && c.scaled() == self.scaled() - other.scaled(),
    {
        self.combine(other, true)
    }

    fn combine(self, other: Decimal, sub: bool) -> (r: Option<Decimal>)
        requires
            self.wf(),
            other.wf(),
        ensures
            r == spec_dec_combine(self, other, sub),
            r matches Some(c) ==> c.wf() && c.scaled() == (if sub {
                self.scaled() - other.scaled()
            } else {
                self.scaled() + other.scaled()
            }),
    {
        let ghost gs: nat = if self.scale >= other.scale {
            self.scale as nat
        } else {
            other.scale as nat
        };
        let (av, bv): (i128, i128) = if self.scale >= other.scale {
            (self.mantissa as i128, mul_pow10_i128(other.mantissa, self.scale - other.scale))
        } else {
            (mul_pow10_i128(self.mantissa, other.scale - self.scale), other.mantissa as i128)
        };
        proof {
            assert(pow10(0) == 1);
            assert(av == self.mantissa * pow10((gs - self.scale) as nat));
            assert(bv == other.mantissa * pow10((gs - other.scale) as nat));
        }
        let sum: i128 = if sub {
            av - bv
        } else {
            av + bv
        };
        let neg = sum < 0;
        let mag = iabs128(sum);
        let s: u32 = if self.scale >= other.scale {
            self.scale
        } else {
            other.scale
        };
        let (m2, s2) = strip_fit_exec(mag, s, neg);
        let r = pack_checked_exec(neg, m2, s2);
        proof {
            let sumi = sum as int;
            lemma_strip_fit_value(mag as nat, gs, limit_of(neg));
            lemma_value_transport(m2 as nat, s2 as nat, mag as nat, gs, MAX_SCALE as nat);
            if r is Some {
                let c = r->Some_0;
                assert(c.mantissa as int == signed(neg, m2 as nat));
                assert(c.mantissa * pow10((MAX_SCALE - s2) as nat) == sumi * pow10(
                    (MAX_SCALE - gs) as nat,
                )) by (nonlinear_arith)
                    requires
                        c.mantissa as int == signed(neg, m2 as nat),
                        neg == (sumi < 0),
                        m2 as nat * pow10((MAX_SCALE - s2) as nat) == abs_i(sumi) * pow10(
                            (MAX_SCALE - gs) as nat,
                        ),
                ;
                lemma_mul_pow_assoc(self.mantissa as int, (gs - self.scale) as nat, (MAX_SCALE
                    - gs) as nat);
                lemma_mul_pow_assoc(other.mantissa as int, (gs - other.scale) as nat, (MAX_SCALE
                    - gs) as nat);
                assert(sumi * pow10((MAX_SCALE - gs) as nat) == av * pow10((MAX_SCALE - gs) as nat)
                    + (if sub {
                    -1
                } else {
                    1
                }) * (bv * pow10((MAX_SCALE - gs) as nat))) by (nonlinear_arith)
                    requires
                        sumi == if sub {
                            av - bv
                        } else {
                            av + bv
                        },
                ;
            }
        }
        r
    }

    /// Exact multiplication; `None` when the exact product has no representation.
    pub fn mul(self, other: Decimal) -> (r: Option<Decimal>)
        requires
            self.wf(),
            other.wf(),
        ensures
            r == spec_dec_mul(self, other),
            r matches Some(c) ==> c.wf() && c.scaled() * pow10(MAX_SCALE as nat) == self.scaled()
                * other.scaled(),
    {
        let neg = (self.mantissa < 0) != (other.mantissa < 0);
        let ma = abs64(self.mantissa);
        let mb = abs64(other.mantissa);
        proof {
            assert(ma * mb <= 9223372036854775808 * 9223372036854775808) by (nonlinear_arith)
                requires
                    0 <= ma <= 9223372036854775808,
                    0 <= mb <= 9223372036854775808,
            ;
        }
        let mag = ma * mb;
        let (m1, s1) = strip_scale_exec(mag, self.scale + other.scale);
        let ghost gs: nat = (self.scale + other.scale) as nat;
        if s1 > MAX_SCALE {
            None
        } else {
            let (m2, s2) = strip_fit_exec(m1, s1, neg);
            let r = pack_checked_exec(neg, m2, s2);
            proof {
                if r is Some {
                    let c = r->Some_0;
                    lemma_strip_scale_value(mag as nat, gs);
                    lemma_strip_fit_value(m1 as nat, s1 as nat, limit_of(neg));
                    lemma_value_transport(m2 as nat, s2 as nat, m1 as nat, s1 as nat, gs);
                    assert(m2 as nat * pow10((gs - s2) as nat) == mag);
                    lemma_value_transport(m2 as nat, s2 as nat, mag as nat, gs, (2 * MAX_SCALE) as nat);
                    lemma_signed_mul(self.mantissa as int, other.mantissa as int);
                    lemma_mul_pow_assoc(c.mantissa as int, (MAX_SCALE - s2) as nat, MAX_SCALE as nat);
                    lemma_mul_pow_assoc(
                        self.mantissa * other.mantissa,
                        (2 * MAX_SCALE - gs) as nat,
                        0,
                    );
                    assert(self.scaled() * other.scaled() == (self.mantissa * other.mantissa)
                        * pow10((2 * MAX_SCALE - gs) as nat)) by {
                        lemma_pow10_adds((MAX_SCALE - self.scale) as nat, (MAX_SCALE
                            - other.scale) as nat);
                        assert((self.mantissa * pow10((MAX_SCALE - self.scale) as nat))
                            * (other.mantissa * pow10((MAX_SCALE - other.scale) as nat))
                            == (self.mantissa * other.mantissa) * (pow10(
                            (MAX_SCALE - self.scale) as nat,
                        ) * pow10((MAX_SCALE - other.scale) as nat))) by (nonlinear_arith);
                    }
                    assert(c.mantissa * pow10((2 * MAX_SCALE - s2) as nat) == (self.mantissa
                        * other.mantissa) * pow10((2 * MAX_SCALE - gs) as nat))
                        by (nonlinear_arith)
                        requires
                            c.mantissa as int == signed(neg, m2 as nat),
                            self.mantissa * other.mantissa == signed(
                                neg,
                                (abs_i(self.mantissa as int) * abs_i(other.mantissa as int)),
                            ),
                            mag as nat == abs_i(self.mantissa as int) * abs_i(
                                other.mantissa as int,
                            ),
                            m2 as nat * pow10((2 * MAX_SCALE - s2) as nat) == mag as nat * pow10(
                                (2 * MAX_SCALE - gs) as nat,
                            ),
                    ;
                }
            }
            r
        }
    }

    /// Division under the documented policy: the exact quotient rounded half
    /// toward zero at [`MAX_SCALE`] fractional digits, trailing zeros stripped.
    /// A verified long division computes the quotient digit by digit.
    pub fn div(self, other: Decimal) -> (r: Option<Decimal>)
        requires
            self.wf(),
            other.wf(),
            other.mantissa != 0,
        ensures
            r == spec_dec_div(self, other),
            r matches Some(c) ==> c.wf(),
    {
        let neg = (self.mantissa < 0) != (other.mantissa < 0);
        let am = abs64(self.mantissa);
        let bm = abs64(other.mantissa);
        let p: u32 = MAX_SCALE + other.scale - self.scale;
        let ghost n: int = am as int * pow10(p as nat);
        let mut q = am / bm;
        let mut r0 = am % bm;
        let mut k: u32 = 0;
        proof {
            assert(pow10(0) == 1);
            vstd::arithmetic::div_mod::lemma_fundamental_div_mod(am as int, bm as int);
            vstd::arithmetic::div_mod::lemma_mod_bound(am as int, bm as int);
            assert(am as int / bm as int <= am as int) by (nonlinear_arith)
                requires
                    am as int == bm as int * (am as int / bm as int) + am as int % bm as int,
                    bm as int >= 1,
                    am as int % bm as int >= 0,
                    am as int / bm as int >= 0,
            ;
        }
        while k < p
            invariant
                k <= p,
                p == MAX_SCALE + other.scale - self.scale,
                p <= 38,
                self.wf(),
                other.wf(),
                other.mantissa != 0,
                am == abs_i(self.mantissa as int),
                bm == abs_i(other.mantissa as int),
                neg == ((self.mantissa < 0) != (other.mantissa < 0)),
                1 <= bm <= MIN_MAGNITUDE,
                am <= MIN_MAGNITUDE,
                n == am as int * pow10(p as nat),
                r0 < bm,
                q * bm + r0 == am as int * pow10(k as nat),
                q <= DIV_ABORT * 10 + 9,
            decreases p - k,
        {
            if q > DIV_ABORT {
                proof {
                    lemma_pow10_38();
                    lemma_pow10_pos((p - k) as nat);
                    lemma_pow10_increases(1, (p - k) as nat);
                    assert(pow10(1) == 10 * pow10(0));
                    lemma_mul_pow_assoc(am as int, k as nat, (p - k) as nat);
                    assert(n == (q * bm + r0) * pow10((p - k) as nat));
                    assert(n >= (q * pow10((p - k) as nat)) * bm) by (nonlinear_arith)
                        requires
                            n == (q * bm + r0) * pow10((p - k) as nat),
                            r0 >= 0,
                            bm as int >= 1,
                            q >= 0,
                            pow10((p - k) as nat) >= 1,
                    ;
                    assert((q * pow10((p - k) as nat)) * bm == bm as int * (q * pow10(
                        (p - k) as nat,
                    ))) by (nonlinear_arith);
                    vstd::arithmetic::div_mod::lemma_div_is_ordered(
                        bm as int * (q * pow10((p - k) as nat)),
                        n,
                        bm as int,
                    );
                    vstd::arithmetic::div_mod::lemma_div_multiples_vanish(
                        q * pow10((p - k) as nat),
                        bm as int,
                    );
                    assert(q * pow10((p - k) as nat) >= q * 10) by (nonlinear_arith)
                        requires
                            pow10((p - k) as nat) >= 10,
                            q >= 0,
                    ;
                    let q_full = n / (bm as int);
                    let r_full = n % (bm as int);
                    let m0: int = if 2 * r_full > bm as int {
                        q_full + 1
                    } else {
                        q_full
                    };
                    assert(m0 > 9223372036854775808 * 10000000000000000000);
                    lemma_strip_all_lower(m0 as nat, MAX_SCALE as nat);
                    let (m2, s2) = spec_strip_all(m0 as nat, MAX_SCALE as nat);
                    assert(m2 > 9223372036854775808) by (nonlinear_arith)
                        requires
                            m2 * pow10(19) >= m0 as nat,
                            m0 > 9223372036854775808 * 10000000000000000000,
                            pow10(19) == 10000000000000000000,
                    ;
                    assert(spec_dec_div(self, other) is None);
                }
                return None;
            }
            let r10 = r0 * 10;
            let digit = r10 / bm;
            proof {
                vstd::arithmetic::div_mod::lemma_fundamental_div_mod(r10 as int, bm as int);
                vstd::arithmetic::div_mod::lemma_mod_bound(r10 as int, bm as int);
                assert(digit < 10) by (nonlinear_arith)
                    requires
                        r10 as int == bm as int * (digit as int) + r10 as int % bm as int,
                        r10 < bm * 10,
                        bm as int >= 1,
                        r10 as int % bm as int >= 0,
                        digit >= 0,
                ;
            }
            let ghost old_q = q as int;
            let ghost old_r = r0 as int;
            q = q * 10 + digit;
            r0 = r10 % bm;
            proof {
                lemma_pow10_adds(k as nat, 1);
                assert(q * bm + r0 == am as int * pow10((k + 1) as nat)) by (nonlinear_arith)
                    requires
                        q == old_q * 10 + (old_r * 10) / (bm as int),
                        r0 == (old_r * 10) % (bm as int),
                        old_r * 10 == bm as int * ((old_r * 10) / (bm as int)) + (old_r * 10) % (
                        bm as int),
                        old_q * bm + old_r == am as int * pow10(k as nat),
                        pow10((k + 1) as nat) == pow10(k as nat) * 10,
                ;
            }
            k = k + 1;
        }
        proof {
            lemma_pow10_pos(p as nat);
            assert(n >= 0) by (nonlinear_arith)
                requires
                    n == am as int * pow10(p as nat),
                    am >= 0,
                    pow10(p as nat) >= 0,
            ;
            vstd::arithmetic::div_mod::lemma_fundamental_div_mod_converse(
                n,
                bm as int,
                q as int,
                r0 as int,
            );
        }
        let m0 = if 2 * r0 > bm {
            q + 1
        } else {
            q
        };
        let (m2, s2) = strip_all_exec(m0, MAX_SCALE);
        pack_checked_exec(neg, m2, s2)
    }

    /// Rounds to `dp` fractional digits, half toward zero.
    pub fn round_htz(self, dp: usize) -> (r: Decimal)
        requires
            self.wf(),
        ensures
            r == spec_round_htz(self, dp as nat),
            r.wf(),
    {
        if dp >= self.scale as usize {
            return self;
        }
        let dpu = dp as u32;
        let p = pow10_u128(self.scale - dpu);
        let mag = abs64(self.mantissa);
        let q = mag / p;
        let r0 = mag % p;
        proof {
            lemma_pow10_38();
            lemma_pow10_increases((self.scale - dpu) as nat, 19);
            lemma_pow10_increases(1, (self.scale - dpu) as nat);
            vstd::arithmetic::div_mod::lemma_div_is_ordered(
                mag as int,
                9223372036854775808,
                p as int,
            );
            vstd::arithmetic::div_mod::lemma_div_is_ordered_by_denominator(
                9223372036854775808,
                10,
                p as int,
            );
            assert(9223372036854775808int / 10 == 922337203685477580);
        }
        let m0 = if 2 * r0 > p {
            q + 1
        } else {
            q
        };
        Decimal { mantissa: pack_mantissa(self.mantissa < 0, m0), scale: dpu }
    }

    /// The value multiplied by `10^d`; `None` when it has no representation.
    pub fn scale_up(self, d: u32) -> (r: Option<Decimal>)
        requires
            self.wf(),
        ensures
            r == spec_scale_up(self, d as nat),
            r matches Some(c) ==> c.wf(),
    {
        let k = if d <= self.scale {
            d
        } else {
            self.scale
        };
        let rest = d - k;
        let neg = self.mantissa < 0;
        let limit: u128 = if neg {
            MIN_MAGNITUDE
        } else {
            MIN_MAGNITUDE - 1
        };
        let mut mag = abs64(self.mantissa);
        let mut i: u32 = 0;
        while i < rest
            invariant
                i <= rest,
                neg == (self.mantissa < 0),
                limit == limit_of(neg),
                k == if d <= self.scale {
                    d
                } else {
                    self.scale
                },
                rest == d - k,
                mag == abs_i(self.mantissa as int) * pow10(i as nat),
                mag <= MIN_MAGNITUDE * 10,
            decreases rest - i,
        {
            if mag > limit {
                proof {
                    lemma_pow10_pos((rest - i) as nat);
                    lemma_mul_pow_assoc(abs_i(self.mantissa as int) as int, i as nat, (rest
                        - i) as nat);
                    assert(abs_i(self.mantissa as int) * pow10(rest as nat) == mag * pow10(
                        (rest - i) as nat,
                    ));
                    assert(abs_i(self.mantissa as int) * pow10(rest as nat) >= mag)
                        by (nonlinear_arith)
                        requires
                            abs_i(self.mantissa as int) * pow10(rest as nat) == mag * pow10(
                                (rest - i) as nat,
                            ),
                            pow10((rest - i) as nat) >= 1,
                            mag >= 0,
                    ;
                    let gk: nat = if d as nat <= self.scale as nat {
                        d as nat
                    } else {
                        self.scale as nat
                    };
                    assert(rest as nat == (d as nat - gk) as nat);
                    assert((abs_i(self.mantissa as int) * pow10((d as nat - gk) as nat)) as nat
                        > limit_of(self.mantissa < 0));
                    assert(spec_scale_up(self, d as nat) is None);
                }
                return None;
            }
            proof {
                lemma_pow10_adds(i as nat, 1);
                assert((abs_i(self.mantissa as int) * pow10(i as nat)) * 10 == abs_i(
                    self.mantissa as int,
                ) * (pow10(i as nat) * 10)) by (nonlinear_arith);
            }
            mag = mag * 10;
            i = i + 1;
        }
        if mag > limit {
            None
        } else {
            Some(Decimal { mantissa: pack_mantissa(neg, mag), scale: self.scale - k })
        }
    }
}

} // verus!
