//! The scientific-notation value `coefficient x10^ exponent`: parsing from the
//! literal grammar `CCcx10^EEe`, round-trip-safe formatting, a fluent builder,
//! and exact arithmetic.

use vstd::prelude::*;
use vstd::string::StrSliceExecFns;

use crate::decimal::abs64;
use crate::decimal::abs_i;
use crate::decimal::limit_of;
use crate::decimal::pack_mantissa;
use crate::decimal::pow10_u128;
use crate::decimal::signed;
use crate::decimal::Decimal;
use crate::decimal::MAX_SCALE;
use crate::decimal::MIN_MAGNITUDE;
use crate::decimal::spec_dec_add;
use crate::decimal::spec_dec_div;
use crate::decimal::spec_dec_mul;
use crate::decimal::spec_dec_sub;
use crate::decimal::spec_round_htz;
use crate::decimal::spec_scale_up;
use crate::digits::accum_value;
use crate::digits::all_digits;
use crate::digits::digit_val;
use crate::digits::digits_to_nat;
use crate::digits::is_digit_char;
use crate::digits::lemma_accum_concat;
use crate::digits::lemma_accum_prefix;
use crate::digits::nat_to_digits;
use crate::digits::pad_digits;
use crate::digits::pow10;
use vstd::string::StringExecFns;

verus! {

/// Everything that can go wrong in this crate.
///
/// * `FormatError` — the text does not match the `CCcx10^EEe` shape: the
///   separator is missing or repeated, or the exponent has decimal places.
/// * `ParseError` — a segment is present but is not a valid decimal number,
///   or a parsed number exceeds the representable range.
/// * `Overflow` — an arithmetic result exceeds the representable range.
/// * `DivisionByZero` — the divisor's coefficient is zero.
#[derive(Clone, Copy, Debug, PartialEq, Eq, Structural)]
pub enum SciError {
    FormatError,
    ParseError,
    Overflow,
    DivisionByZero,
}

/// A number in scientific notation: `coefficient x 10^exponent`, together
/// with the number of fractional digits to use when rendering the
/// coefficient.
#[derive(Clone, Copy, Debug, PartialEq, Eq, Structural)]
pub struct ScientificNotation {
    pub coefficient: Decimal,
    pub exponent: i16,
    pub display_decimals: usize,
}

/// The separator of the literal grammar, `x10^`.
pub open spec fn is_sep_at(s: Seq<char>, i: int) -> bool {
    &&& 0 <= i
    &&& i + 4 <= s.len()
    &&& s[i] == 'x'
    &&& s[i + 1] == '1'
    &&& s[i + 2] == '0'
    &&& s[i + 3] == '^'
}

/// The first position at or after `i` where the separator occurs, or -1.
pub open spec fn find_sep(s: Seq<char>, i: int) -> int
    decreases s.len() - i,
    when 0 <= i <= s.len()
{
    if i + 4 > s.len() {
        -1
    } else if is_sep_at(s, i) {
        i
    } else {
        find_sep(s, i + 1)
    }
}

/// The first position at or after `i` holding a `'.'`, or -1.
pub open spec fn first_dot(s: Seq<char>, i: int) -> int
    decreases s.len() - i,
    when 0 <= i <= s.len()
{
    if i >= s.len() {
        -1
    } else if s[i] == '.' {
        i
    } else {
        first_dot(s, i + 1)
    }
}

/// Splits an optionally-signed decimal literal into its sign, integer digits
/// and fractional digits; `None` when the text is not of that shape.
pub open spec fn split_decimal(s: Seq<char>) -> Option<(bool, Seq<char>, Seq<char>)> {
    let neg = s.len() >= 1 && s[0] == '-';
    let body = if neg {
        s.skip(1)
    } else {
        s
    };
    let d = first_dot(body, 0);
    let ip = if d < 0 {
        body
    } else {
        body.take(d)
    };
    let fp = if d < 0 {
        Seq::<char>::empty()
    } else {
        body.skip(d + 1)
    };
    if ip.len() >= 1 && (d < 0 || fp.len() >= 1) && all_digits(ip) && all_digits(fp) {
        Some((neg, ip, fp))
    } else {
        None
    }
}

/// The decimal denoted by an optionally-signed decimal literal: `None` when
/// the shape is wrong, the digits exceed the mantissa range, or there are
/// more fractional digits than [`MAX_SCALE`].
pub open spec fn spec_parse_decimal(s: Seq<char>) -> Option<Decimal> {
    match split_decimal(s) {
        Option::None => Option::None,
        Option::Some((neg, ip, fp)) => {
            let mag = digits_to_nat(ip + fp);
            if fp.len() <= MAX_SCALE && mag <= limit_of(neg) {
                Option::Some(
                    Decimal { mantissa: signed(neg, mag) as i64, scale: fp.len() as u32 },
                )
            } else {
                Option::None
            }
        },
    }
}

impl ScientificNotation {
    /// Well-formed: the coefficient is a well-formed decimal.
    pub open spec fn wf(self) -> bool {
        self.coefficient.wf()
    }
}

/// What parsing returns on each input, step by step: no separator and a
/// repeated separator are shape errors; an unreadable coefficient or exponent
/// segment is a parse error; a fractional exponent is a shape error; an
/// exponent outside the 16-bit range is a parse error. On success the display
/// precision is the coefficient's significant fractional digit count.
pub open spec fn spec_parse(s: Seq<char>) -> Result<ScientificNotation, SciError> {
    let i = find_sep(s, 0);
    if i < 0 {
        Err(SciError::FormatError)
    } else if find_sep(s, i + 4) >= 0 {
        Err(SciError::FormatError)
    } else {
        match spec_parse_decimal(s.take(i)) {
            Option::None => Err(SciError::ParseError),
            Option::Some(c) => match spec_parse_decimal(s.skip(i + 4)) {
                Option::None => Err(SciError::ParseError),
                Option::Some(e) => {
                    if abs_i(e.mantissa as int) as int % pow10(e.scale as nat) != 0 {
                        Err(SciError::FormatError)
                    } else {
                        let ev = e.mantissa as int / pow10(e.scale as nat);
                        if -32768 <= ev <= 32767 {
                            Ok(
                                ScientificNotation {
                                    coefficient: c,
                                    exponent: ev as i16,
                                    display_decimals: c.spec_fract_digits() as usize,
                                },
                            )
                        } else {
                            Err(SciError::ParseError)
                        }
                    }
                },
            },
        }
    }
}

/// The characters of a string slice, in order.
fn str_to_chars(s: &str) -> (v: Vec<char>)
    ensures
        v@ == s@,
{
    let n = s.unicode_len();
    let mut v: Vec<char> = Vec::new();
    let mut i: usize = 0;
    while i < n
        invariant
            i <= n,
            n == s@.len(),
            v@ == s@.take(i as int),
        decreases n - i,
    {
        let c = s.get_char(i);
        v.push(c);
        proof {
            assert(v@ =~= s@.take((i + 1) as int));
        }
        i = i + 1;
    }
    proof {
        assert(v@ =~= s@);
    }
    v
}

/// A copy of the characters in `[lo, hi)`.
fn subvec(v: &Vec<char>, lo: usize, hi: usize) -> (r: Vec<char>)
    requires
        lo <= hi <= v@.len(),
    ensures
        r@ == v@.subrange(lo as int, hi as int),
{
    let mut r: Vec<char> = Vec::new();
    let mut i = lo;
    while i < hi
        invariant
            lo <= i <= hi <= v@.len(),
            r@ == v@.subrange(lo as int, i as int),
        decreases hi - i,
    {
        let c = v[i];
        r.push(c);
        proof {
            assert(r@ =~= v@.subrange(lo as int, (i + 1) as int));
        }
        i = i + 1;
    }
    r
}

/// The first separator position at or after `from`.
fn find_sep_exec(v: &Vec<char>, from: usize) -> (r: Option<usize>)
    requires
        from <= v@.len(),
    ensures
        match r {
            Option::Some(j) => find_sep(v@, from as int) == j && is_sep_at(v@, j as int) && from
                <= j && j + 4 <= v@.len(),
            Option::None => find_sep(v@, from as int) == -1,
        },
{
    let n = v.len();
    let mut i = from;
    while n - i >= 4 && !(v[i] == 'x' && v[i + 1] == '1' && v[i + 2] == '0' && v[i + 3] == '^')
        invariant
            from <= i <= n,
            n == v@.len(),
            find_sep(v@, from as int) == find_sep(v@, i as int),
        decreases n - i,
    {
        proof {
            assert(!is_sep_at(v@, i as int));
            assert(find_sep(v@, i as int) == find_sep(v@, (i + 1) as int));
        }
        i = i + 1;
    }
    if n - i >= 4 {
        proof {
            assert(is_sep_at(v@, i as int));
            assert(find_sep(v@, i as int) == i);
        }
        Some(i)
    } else {
        proof {
            assert(find_sep(v@, i as int) == -1);
        }
        None
    }
}

/// Folds the digits in `[lo, hi)` onto `start`, refusing a non-digit or a
/// value above `limit`.
fn accum_digits(body: &Vec<char>, lo: usize, hi: usize, start: u128, limit: u128) -> (r: Option<
    u128,
>)
    requires
        lo <= hi <= body@.len(),
        start <= limit,
        limit <= MIN_MAGNITUDE,
    ensures
        ({
            let sub = body@.subrange(lo as int, hi as int);
            match r {
                Option::Some(acc) => all_digits(sub) && acc == accum_value(start as nat, sub)
                    && acc <= limit,
                Option::None => !(all_digits(sub) && accum_value(start as nat, sub) <= limit),
            }
        }),
{
    let ghost sub = body@.subrange(lo as int, hi as int);
    let mut acc = start;
    let mut t = lo;
    while t < hi
        invariant
            lo <= t <= hi <= body@.len(),
            start <= limit,
            limit <= MIN_MAGNITUDE,
            acc <= limit,
            sub == body@.subrange(lo as int, hi as int),
            all_digits(sub.take((t - lo) as int)),
            acc == accum_value(start as nat, sub.take((t - lo) as int)),
        decreases hi - t,
    {
        let ghost k = (t - lo) as int;
        let c = body[t];
        let u = c as u32;
        if u < 48 || u > 57 {
            proof {
                assert(sub[k] == c);
                assert(!is_digit_char(sub[k]));
            }
            return None;
        }
        let d = (u - 48) as u128;
        let acc2 = acc * 10 + d;
        proof {
            assert(sub.take(k + 1).drop_last() =~= sub.take(k));
            assert(sub.take(k + 1).last() == c);
            assert(digit_val(c) == d);
            assert(digits_to_nat(sub.take(k + 1)) == digits_to_nat(sub.take(k)) * 10 + d);
            crate::digits::lemma_pow10_adds(k as nat, 1);
            crate::digits::lemma_accum_value_unfold(start as nat, sub.take(k));
            crate::digits::lemma_accum_value_unfold(start as nat, sub.take(k + 1));
            assert(acc2 == accum_value(start as nat, sub.take(k + 1))) by (nonlinear_arith)
                requires
                    acc2 == acc * 10 + d,
                    acc == start * pow10(k as nat) + digits_to_nat(sub.take(k)),
                    digits_to_nat(sub.take(k + 1)) == digits_to_nat(sub.take(k)) * 10 + d,
                    pow10((k + 1) as nat) == pow10(k as nat) * 10,
                    accum_value(start as nat, sub.take(k + 1)) == start * pow10((k + 1) as nat)
                        + digits_to_nat(sub.take(k + 1)),
            ;
        }
        if acc2 > limit {
            proof {
                lemma_accum_prefix(start as nat, sub, k + 1);
            }
            return None;
        }
        acc = acc2;
        t = t + 1;
    }
    proof {
        assert(sub.take((hi - lo) as int) =~= sub);
    }
    Some(acc)
}

/// Parses one optionally-signed decimal segment.
fn parse_decimal_exec(seg: &Vec<char>) -> (r: Option<Decimal>)
    ensures
        r == spec_parse_decimal(seg@),
        r matches Some(c) ==> c.wf(),
{
    let n = seg.len();
    let neg = n >= 1 && seg[0] == '-';
    let start: usize = if neg {
        1
    } else {
        0
    };
    let body = subvec(seg, start, n);
    proof {
        if neg {
            assert(body@ =~= seg@.skip(1));
        } else {
            assert(body@ =~= seg@);
        }
    }
    let bn = body.len();
    let mut j: usize = 0;
    while j < bn && body[j] != '.'
        invariant
            j <= bn,
            bn == body@.len(),
            first_dot(body@, 0) == first_dot(body@, j as int),
        decreases bn - j,
    {
        proof {
            assert(first_dot(body@, j as int) == first_dot(body@, (j + 1) as int));
        }
        j = j + 1;
    }
    let ghost d = first_dot(body@, 0);
    proof {
        if j < bn {
            assert(d == j);
        } else {
            assert(d == -1);
        }
    }
    let (ip_hi, fp_lo): (usize, usize) = if j < bn {
        (j, j + 1)
    } else {
        (bn, bn)
    };
    let ghost ip = if d < 0 {
        body@
    } else {
        body@.take(d)
    };
    let ghost fp = if d < 0 {
        Seq::<char>::empty()
    } else {
        body@.skip(d + 1)
    };
    proof {
        assert(ip =~= body@.subrange(0, ip_hi as int));
        assert(fp =~= body@.subrange(fp_lo as int, bn as int));
    }
    if ip_hi == 0 {
        return None;
    }
    if fp_lo > ip_hi && fp_lo == bn {
        return None;
    }
    let limit: u128 = if neg {
        MIN_MAGNITUDE
    } else {
        MIN_MAGNITUDE - 1
    };
    let acc1 = match accum_digits(&body, 0, ip_hi, 0, limit) {
        Option::Some(a) => a,
        Option::None => {
            proof {
                lemma_accum_concat(0, ip, fp);
                assert((ip + fp).take(ip.len() as int) =~= ip);
                lemma_accum_prefix(0, ip + fp, ip.len() as int);
                crate::digits::lemma_accum_value_unfold(0, ip);
                crate::digits::lemma_accum_value_unfold(0, ip + fp);
            }
            return None;
        },
    };
    let acc2 = match accum_digits(&body, fp_lo, bn, acc1, limit) {
        Option::Some(a) => a,
        Option::None => {
            proof {
                lemma_accum_concat(0, ip, fp);
                crate::digits::lemma_accum_value_unfold(0, ip);
                crate::digits::lemma_accum_value_unfold(0, ip + fp);
            }
            return None;
        },
    };
    proof {
        lemma_accum_concat(0, ip, fp);
        crate::digits::lemma_accum_value_unfold(0, ip);
        crate::digits::lemma_accum_value_unfold(0, ip + fp);
    }
    let scale_len = bn - fp_lo;
    if scale_len > MAX_SCALE as usize {
        return None;
    }
    Some(Decimal { mantissa: pack_mantissa(neg, acc2), scale: scale_len as u32 })
}

impl ScientificNotation {
    /// Parses a literal of the shape `CCcx10^EEe`.
    pub fn parse_from_str(input: &str) -> (r: Result<ScientificNotation, SciError>)
        ensures
            r == spec_parse(input@),
            r matches Ok(v) ==> v.wf(),
    {
        let chars = str_to_chars(input);
        let n = chars.len();
        let i = match find_sep_exec(&chars, 0) {
            Option::Some(i) => i,
            Option::None => {
                return Err(SciError::FormatError);
            },
        };
        match find_sep_exec(&chars, i + 4) {
            Option::Some(_) => {
                return Err(SciError::FormatError);
            },
            Option::None => {},
        }
        let coeff_seg = subvec(&chars, 0, i);
        proof {
            assert(coeff_seg@ =~= input@.take(i as int));
        }
        let c = match parse_decimal_exec(&coeff_seg) {
            Option::Some(c) => c,
            Option::None => {
                return Err(SciError::ParseError);
            },
        };
        let exp_seg = subvec(&chars, i + 4, chars.len());
        proof {
            assert(exp_seg@ =~= input@.skip((i + 4) as int));
        }
        let e = match parse_decimal_exec(&exp_seg) {
            Option::Some(e) => e,
            Option::None => {
                return Err(SciError::ParseError);
            },
        };
        let emag = abs64(e.mantissa);
        let p = pow10_u128(e.scale);
        if emag % p != 0 {
            return Err(SciError::FormatError);
        }
        let evm = emag / p;
        let eneg = e.mantissa < 0;
        proof {
            vstd::arithmetic::div_mod::lemma_fundamental_div_mod(emag as int, p as int);
            if eneg {
                assert(-(emag as int) == (-(emag as int / p as int)) * (p as int) + 0)
                    by (nonlinear_arith)
                    requires
                        emag as int == (p as int) * (emag as int / p as int) + emag as int % (
                        p as int),
                        emag as int % (p as int) == 0,
                ;
                vstd::arithmetic::div_mod::lemma_fundamental_div_mod_converse_div(
                    -(emag as int),
                    p as int,
                    -(emag as int / p as int),
                    0,
                );
            }
        }
        if (eneg && evm <= 32768) || (!eneg && evm <= 32767) {
            let ev: i16 = if eneg {
                (-(evm as i64)) as i16
            } else {
                evm as i16
            };
            let dd = c.fract_digits();
            Ok(ScientificNotation { coefficient: c, exponent: ev, display_decimals: dd })
        } else {
            Err(SciError::ParseError)
        }
    }
}

/// The separator rendered as a character sequence.
pub open spec fn sep_seq() -> Seq<char> {
    seq!['x', '1', '0', '^']
}

/// A decimal rendered exactly at its scale: sign, integer digits, and, when
/// the scale is positive, a point followed by exactly `scale` fractional
/// digits.
pub open spec fn spec_render_decimal(d: Decimal) -> Seq<char> {
    let mag = abs_i(d.mantissa as int) as int;
    let p = pow10(d.scale as nat);
    let sign: Seq<char> = if d.mantissa < 0 {
        seq!['-']
    } else {
        Seq::<char>::empty()
    };
    let frac: Seq<char> = if d.scale == 0 {
        Seq::<char>::empty()
    } else {
        seq!['.'] + pad_digits((mag % p) as nat, d.scale as nat)
    };
    sign + nat_to_digits((mag / p) as nat) + frac
}

/// A signed integer rendered without leading zeros.
pub open spec fn spec_render_int(e: int) -> Seq<char> {
    if e < 0 {
        seq!['-'] + nat_to_digits((-e) as nat)
    } else {
        nat_to_digits(e as nat)
    }
}

/// What formatting returns: the coefficient rounded to `display_decimals`
/// fractional digits half toward zero, then the separator, then the exponent.
pub open spec fn spec_format(v: ScientificNotation) -> Seq<char> {
    spec_render_decimal(spec_round_htz(v.coefficient, v.display_decimals as nat)) + sep_seq()
        + spec_render_int(v.exponent as int)
}

/// Appends one digit character.
fn append_digit(s: &mut String, d: u128)
    requires
        d < 10,
    ensures
        final(s)@ == old(s)@ + seq![crate::digits::digit_char(d as nat)],
{
    if d == 0 {
        proof {
            reveal_strlit("0");
        }
        s.append("0");
    } else if d == 1 {
        proof {
            reveal_strlit("1");
        }
        s.append("1");
    } else if d == 2 {
        proof {
            reveal_strlit("2");
        }
        s.append("2");
    } else if d == 3 {
        proof {
            reveal_strlit("3");
        }
        s.append("3");
    } else if d == 4 {
        proof {
            reveal_strlit("4");
        }
        s.append("4");
    } else if d == 5 {
        proof {
            reveal_strlit("5");
        }
        s.append("5");
    } else if d == 6 {
        proof {
            reveal_strlit("6");
        }
        s.append("6");
    } else if d == 7 {
        proof {
            reveal_strlit("7");
        }
        s.append("7");
    } else if d == 8 {
        proof {
            reveal_strlit("8");
        }
        s.append("8");
    } else {
        proof {
            reveal_strlit("9");
        }
        s.append("9");
    }
    proof {
        assert(s@ =~= old(s)@ + seq![crate::digits::digit_char(d as nat)]);
    }
}

/// Appends the digits of `n`, most significant first, without leading zeros.
fn append_digits(s: &mut String, n: u128)
    ensures
        final(s)@ == old(s)@ + nat_to_digits(n as nat),
    decreases n,
{
    if n < 10 {
        append_digit(s, n);
    } else {
        append_digits(s, n / 10);
        append_digit(s, n % 10);
        proof {
            assert(s@ =~= old(s)@ + nat_to_digits(n as nat));
        }
    }
}

/// Appends the last `w` digits of `n`, left-padded with zeros.
fn append_pad(s: &mut String, n: u128, w: u32)
    ensures
        final(s)@ == old(s)@ + pad_digits(n as nat, w as nat),
    decreases w,
{
    if w == 0 {
        proof {
            assert(s@ =~= old(s)@ + pad_digits(n as nat, 0));
        }
    } else {
        append_pad(s, n / 10, w - 1);
        append_digit(s, n % 10);
        proof {
            assert(s@ =~= old(s)@ + pad_digits(n as nat, w as nat));
        }
    }
}

/// The default value: coefficient 1, exponent 0, two display decimals.
pub open spec fn spec_default() -> ScientificNotation {
    ScientificNotation {
        coefficient: Decimal { mantissa: 1, scale: 0 },
        exponent: 0,
        display_decimals: 2,
    }
}

impl Default for ScientificNotation {
    fn default() -> (r: Self)
        ensures
            r == spec_default(),
    {
        ScientificNotation {
            coefficient: Decimal { mantissa: 1, scale: 0 },
            exponent: 0,
            display_decimals: 2,
        }
    }
}

/// Adding aligns both operands on the smaller exponent — the coefficient of
/// the operand with the larger exponent is scaled up by the difference — and
/// then adds coefficients exactly; the display precision is re-derived from
/// the result coefficient. Any unrepresentable step is an overflow.
pub open spec fn spec_add(x: ScientificNotation, y: ScientificNotation) -> Result<
    ScientificNotation,
    SciError,
> {
    if x.exponent <= y.exponent {
        match spec_scale_up(y.coefficient, (y.exponent - x.exponent) as nat) {
            Option::None => Err(SciError::Overflow),
            Option::Some(cy) => match spec_dec_add(x.coefficient, cy) {
                Option::None => Err(SciError::Overflow),
                Option::Some(c) => Ok(
                    ScientificNotation {
                        coefficient: c,
                        exponent: x.exponent,
                        display_decimals: c.spec_fract_digits() as usize,
                    },
                ),
            },
        }
    } else {
        match spec_scale_up(x.coefficient, (x.exponent - y.exponent) as nat) {
            Option::None => Err(SciError::Overflow),
            Option::Some(cx) => match spec_dec_add(cx, y.coefficient) {
                Option::None => Err(SciError::Overflow),
                Option::Some(c) => Ok(
                    ScientificNotation {
                        coefficient: c,
                        exponent: y.exponent,
                        display_decimals: c.spec_fract_digits() as usize,
                    },
                ),
            },
        }
    }
}

/// Subtracting aligns exactly as adding does and subtracts the (possibly
/// scaled) right coefficient from the (possibly scaled) left one.
pub open spec fn spec_sub(x: ScientificNotation, y: ScientificNotation) -> Result<
    ScientificNotation,
    SciError,
> {
    if x.exponent <= y.exponent {
        match spec_scale_up(y.coefficient, (y.exponent - x.exponent) as nat) {
            Option::None => Err(SciError::Overflow),
            Option::Some(cy) => match spec_dec_sub(x.coefficient, cy) {
                Option::None => Err(SciError::Overflow),
                Option::Some(c) => Ok(
                    ScientificNotation {
                        coefficient: c,
                        exponent: x.exponent,
                        display_decimals: c.spec_fract_digits() as usize,
                    },
                ),
            },
        }
    } else {
        match spec_scale_up(x.coefficient, (x.exponent - y.exponent) as nat) {
            Option::None => Err(SciError::Overflow),
            Option::Some(cx) => match spec_dec_sub(cx, y.coefficient) {
                Option::None => Err(SciError::Overflow),
                Option::Some(c) => Ok(
                    ScientificNotation {
                        coefficient: c,
                        exponent: y.exponent,
                        display_decimals: c.spec_fract_digits() as usize,
                    },
                ),
            },
        }
    }
}

/// Multiplying multiplies coefficients exactly and adds exponents; an
/// exponent outside the 16-bit range or an unrepresentable coefficient is an
/// overflow.
pub open spec fn spec_mul(x: ScientificNotation, y: ScientificNotation) -> Result<
    ScientificNotation,
    SciError,
> {
    let e = x.exponent + y.exponent;
    if e < -32768 || e > 32767 {
        Err(SciError::Overflow)
    } else {
        match spec_dec_mul(x.coefficient, y.coefficient) {
            Option::None => Err(SciError::Overflow),
            Option::Some(c) => Ok(
                ScientificNotation {
                    coefficient: c,
                    exponent: e as i16,
                    display_decimals: c.spec_fract_digits() as usize,
                },
            ),
        }
    }
}

/// Dividing divides coefficients under the decimal division policy and
/// subtracts exponents. A divisor with a zero coefficient is refused first,
/// whatever its exponent.
pub open spec fn spec_div(x: ScientificNotation, y: ScientificNotation) -> Result<
    ScientificNotation,
    SciError,
> {
    if y.coefficient.mantissa == 0 {
        Err(SciError::DivisionByZero)
    } else {
        let e = x.exponent - y.exponent;
        if e < -32768 || e > 32767 {
            Err(SciError::Overflow)
        } else {
            match spec_dec_div(x.coefficient, y.coefficient) {
                Option::None => Err(SciError::Overflow),
                Option::Some(c) => Ok(
                    ScientificNotation {
                        coefficient: c,
                        exponent: e as i16,
                        display_decimals: c.spec_fract_digits() as usize,
                    },
                ),
            }
        }
    }
}

impl ScientificNotation {
    /// Starts a builder chain from the default value.
    pub fn build() -> (r: Self)
        ensures
            r == spec_default(),
            r.wf(),
    {
        ScientificNotation {
            coefficient: Decimal { mantissa: 1, scale: 0 },
            exponent: 0,
            display_decimals: 2,
        }
    }

    /// Replaces the coefficient.
    pub fn coefficient(self, coefficient: Decimal) -> (r: Self)
        requires
            coefficient.wf(),
        ensures
            r == (ScientificNotation { coefficient, ..self }),
    {
        ScientificNotation {
            coefficient,
            exponent: self.exponent,
            display_decimals: self.display_decimals,
        }
    }

    /// Replaces the exponent.
    pub fn exponent(self, exponent: i16) -> (r: Self)
        ensures
            r == (ScientificNotation { exponent, ..self }),
    {
        ScientificNotation {
            coefficient: self.coefficient,
            exponent,
            display_decimals: self.display_decimals,
        }
    }

    /// Replaces the display precision.
    pub fn display_decimals(self, decimals: usize) -> (r: Self)
        ensures
            r == (ScientificNotation { display_decimals: decimals, ..self }),
    {
        ScientificNotation {
            coefficient: self.coefficient,
            exponent: self.exponent,
            display_decimals: decimals,
        }
    }

    /// Renders the value as `CCcx10^EEe`, never failing: the coefficient is
    /// rounded to `display_decimals` fractional digits, half toward zero.
    pub fn to_display_string(&self) -> (s: String)
        requires
            self.wf(),
        ensures
            s@ == spec_format(*self),
    {
        let c = self.coefficient.round_htz(self.display_decimals);
        let mut s = String::new();
        if c.mantissa < 0 {
            proof {
                reveal_strlit("-");
            }
            s.append("-");
        }
        let mag = abs64(c.mantissa);
        let p = pow10_u128(c.scale);
        append_digits(&mut s, mag / p);
        if c.scale > 0 {
            proof {
                reveal_strlit(".");
            }
            s.append(".");
            append_pad(&mut s, mag % p, c.scale);
        }
        proof {
            reveal_strlit("x10^");
        }
        s.append("x10^");
        if self.exponent < 0 {
            proof {
                reveal_strlit("-");
            }
            s.append("-");
            append_digits(&mut s, (-(self.exponent as i64)) as u128);
        } else {
            append_digits(&mut s, self.exponent as u128);
        }
        proof {
            assert(("x10^")@ =~= sep_seq());
            assert(s@ =~= spec_format(*self));
        }
        s
    }

    /// Addition: exponents are aligned on the smaller one, coefficients add
    /// exactly, and the display precision is re-derived from the result.
    pub fn add(self, rhs: Self) -> (r: Result<Self, SciError>)
        requires
            self.wf(),
            rhs.wf(),
        ensures
            r == spec_add(self, rhs),
            r matches Ok(v) ==> v.wf(),
    {
        if self.exponent <= rhs.exponent {
            let d = (rhs.exponent as i32 - self.exponent as i32) as u32;
            match rhs.coefficient.scale_up(d) {
                Option::None => Err(SciError::Overflow),
                Option::Some(cy) => match self.coefficient.add(cy) {
                    Option::None => Err(SciError::Overflow),
                    Option::Some(c) => {
                        let dd = c.fract_digits();
                        Ok(
                            ScientificNotation {
                                coefficient: c,
                                exponent: self.exponent,
                                display_decimals: dd,
                            },
                        )
                    },
                },
            }
        } else {
            let d = (self.exponent as i32 - rhs.exponent as i32) as u32;
            match self.coefficient.scale_up(d) {
                Option::None => Err(SciError::Overflow),
                Option::Some(cx) => match cx.add(rhs.coefficient) {
                    Option::None => Err(SciError::Overflow),
                    Option::Some(c) => {
                        let dd = c.fract_digits();
                        Ok(
                            ScientificNotation {
                                coefficient: c,
                                exponent: rhs.exponent,
                                display_decimals: dd,
                            },
                        )
                    },
                },
            }
        }
    }

    /// Subtraction, aligned exactly as addition is.
    pub fn subtract(self, rhs: Self) -> (r: Result<Self, SciError>)
        requires
            self.wf(),
            rhs.wf(),
        ensures
            r == spec_sub(self, rhs),
            r matches Ok(v) ==> v.wf(),
    {
        if self.exponent <= rhs.exponent {
            let d = (rhs.exponent as i32 - self.exponent as i32) as u32;
            match rhs.coefficient.scale_up(d) {
                Option::None => Err(SciError::Overflow),
                Option::Some(cy) => match self.coefficient.sub(cy) {
                    Option::None => Err(SciError::Overflow),
                    Option::Some(c) => {
                        let dd = c.fract_digits();
                        Ok(
                            ScientificNotation {
                                coefficient: c,
                                exponent: self.exponent,
                                display_decimals: dd,
                            },
                        )
                    },
                },
            }
        } else {
            let d = (self.exponent as i32 - rhs.exponent as i32) as u32;
            match self.coefficient.scale_up(d) {
                Option::None => Err(SciError::Overflow),
                Option::Some(cx) => match cx.sub(rhs.coefficient) {
                    Option::None => Err(SciError::Overflow),
                    Option::Some(c) => {
                        let dd = c.fract_digits();
                        Ok(
                            ScientificNotation {
                                coefficient: c,
                                exponent: rhs.exponent,
                                display_decimals: dd,
                            },
                        )
                    },
                },
            }
        }
    }

    /// Multiplication: coefficients multiply exactly, exponents add.
    pub fn multiply(self, rhs: Self) -> (r: Result<Self, SciError>)
        requires
            self.wf(),
            rhs.wf(),
        ensures
            r == spec_mul(self, rhs),
            r matches Ok(v) ==> v.wf(),
    {
        let e = self.exponent as i32 + rhs.exponent as i32;
        if e < -32768 || e > 32767 {
            Err(SciError::Overflow)
        } else {
            match self.coefficient.mul(rhs.coefficient) {
                Option::None => Err(SciError::Overflow),
                Option::Some(c) => {
                    let dd = c.fract_digits();
                    Ok(
                        ScientificNotation {
                            coefficient: c,
                            exponent: e as i16,
                            display_decimals: dd,
                        },
                    )
                },
            }
        }
    }

    /// Division: coefficients divide under the documented policy, exponents
    /// subtract; a zero divisor coefficient fails first, whatever its
    /// exponent.
    pub fn divide(self, rhs: Self) -> (r: Result<Self, SciError>)
        requires
            self.wf(),
            rhs.wf(),
        ensures
            r == spec_div(self, rhs),
            r matches Ok(v) ==> v.wf(),
    {
        if rhs.coefficient.mantissa == 0 {
            Err(SciError::DivisionByZero)
        } else {
            let e = self.exponent as i32 - rhs.exponent as i32;
            if e < -32768 || e > 32767 {
                Err(SciError::Overflow)
            } else {
                match self.coefficient.div(rhs.coefficient) {
                    Option::None => Err(SciError::Overflow),
                    Option::Some(c) => {
                        let dd = c.fract_digits();
                        Ok(
                            ScientificNotation {
                                coefficient: c,
                                exponent: e as i16,
                                display_decimals: dd,
                            },
                        )
                    },
                }
            }
        }
    }
}

} // verus!
