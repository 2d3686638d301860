//! The general laws of this library, each proved once and for all: the
//! multiplicative identity, the division-by-zero rule, commutativity of
//! addition, and the parse/format round trip over canonical literals.

use vstd::prelude::*;

use crate::decimal::abs_i;
use crate::decimal::limit_of;
use crate::decimal::signed;
use crate::decimal::spec_dec_add;
use crate::decimal::spec_strip_fit;
use crate::decimal::spec_strip_scale;
use crate::decimal::Decimal;
use crate::decimal::MAX_SCALE;
use crate::digits::all_digits;
use crate::digits::digits_to_nat;
use crate::digits::pow10;
use crate::notation::spec_add;
use crate::notation::spec_default;
use crate::notation::spec_div;
use crate::notation::spec_mul;
use crate::notation::SciError;
use crate::notation::ScientificNotation;

verus! {

/// Packing a sign and a magnitude within range loses nothing.
pub proof fn lemma_signed_roundtrip(neg: bool, mag: nat)
    requires
        mag <= limit_of(neg),
    ensures
        (signed(neg, mag) as i64) as int == signed(neg, mag),
        abs_i(signed(neg, mag) as i64 as int) == mag,
        ((signed(neg, mag) as i64) < 0) <==> (neg && mag > 0),
{
}

/// Scaling a well-formed decimal by `10^0` changes nothing.
pub proof fn lemma_scale_up_zero(c: Decimal)
    requires
        c.wf(),
    ensures
        crate::decimal::spec_scale_up(c, 0) == Some(c),
{
    assert(pow10(0) == 1);
    assert(abs_i(c.mantissa as int) * 1 == abs_i(c.mantissa as int)) by (nonlinear_arith);
    assert(abs_i(c.mantissa as int) <= limit_of(c.mantissa < 0));
    lemma_signed_roundtrip(c.mantissa < 0, abs_i(c.mantissa as int));
    assert(signed(c.mantissa < 0, abs_i(c.mantissa as int)) == c.mantissa as int);
}

/// Exact decimal addition does not depend on the order of its operands.
pub proof fn lemma_dec_add_commutative(a: Decimal, b: Decimal)
    ensures
        spec_dec_add(a, b) == spec_dec_add(b, a),
{
    let s1: nat = if a.scale >= b.scale {
        a.scale as nat
    } else {
        b.scale as nat
    };
    let s2: nat = if b.scale >= a.scale {
        b.scale as nat
    } else {
        a.scale as nat
    };
    assert(s1 == s2);
    assert(a.mantissa * pow10((s1 - a.scale) as nat) + b.mantissa * pow10((s1 - b.scale) as nat)
        == b.mantissa * pow10((s2 - b.scale) as nat) + a.mantissa * pow10((s2 - a.scale) as nat));
}

/// Addition of scientific-notation values is commutative: for all valid
/// operands, `add(x, y)` and `add(y, x)` return the very same result, whether
/// that is a value or an overflow.
pub proof fn lemma_add_commutative(x: ScientificNotation, y: ScientificNotation)
    requires
        x.wf(),
        y.wf(),
    ensures
        spec_add(x, y) == spec_add(y, x),
{
    if x.exponent == y.exponent {
        lemma_scale_up_zero(x.coefficient);
        lemma_scale_up_zero(y.coefficient);
        lemma_dec_add_commutative(x.coefficient, y.coefficient);
    } else if x.exponent < y.exponent {
        match crate::decimal::spec_scale_up(y.coefficient, (y.exponent - x.exponent) as nat) {
            Option::None => {},
            Option::Some(cy) => {
                lemma_dec_add_commutative(x.coefficient, cy);
            },
        }
    } else {
        match crate::decimal::spec_scale_up(x.coefficient, (x.exponent - y.exponent) as nat) {
            Option::None => {},
            Option::Some(cx) => {
                lemma_dec_add_commutative(cx, y.coefficient);
            },
        }
    }
}

/// Multiplying by the default-built value — coefficient 1, exponent 0 —
/// changes neither the coefficient nor the exponent; the display precision is
/// re-derived from the unchanged coefficient, as every arithmetic result's is.
pub proof fn lemma_multiply_identity(x: ScientificNotation)
    requires
        x.wf(),
    ensures
        spec_mul(x, spec_default()) matches Ok(v) && v.coefficient == x.coefficient && v.exponent
            == x.exponent && v.display_decimals == x.coefficient.spec_fract_digits(),
{
    let u = spec_default();
    let mag = abs_i(x.coefficient.mantissa as int);
    assert(abs_i(1int) == 1);
    assert(mag * 1 == mag) by (nonlinear_arith);
    let s = (x.coefficient.scale + 0) as nat;
    assert(spec_strip_scale(mag, s) == (mag, s));
    assert(mag <= limit_of(x.coefficient.mantissa < 0));
    assert(spec_strip_fit(mag, s, limit_of(x.coefficient.mantissa < 0)) == (mag, s));
    lemma_signed_roundtrip(x.coefficient.mantissa < 0, mag);
    assert(signed(x.coefficient.mantissa < 0, mag) == x.coefficient.mantissa as int);
}

/// The separator search skips a region with no `'x'`.
proof fn lemma_find_sep_skip(s: Seq<char>, a: int, b: int)
    requires
        0 <= a <= b <= s.len(),
        forall|j: int| a <= j < b ==> #[trigger] s[j] != 'x',
    ensures
        crate::notation::find_sep(s, a) == crate::notation::find_sep(s, b),
    decreases b - a,
{
    if a < b {
        assert(!crate::notation::is_sep_at(s, a));
        if a + 4 > s.len() {
            assert(b + 4 > s.len());
            assert(crate::notation::find_sep(s, a) == -1);
            assert(crate::notation::find_sep(s, b) == -1);
        } else {
            assert(crate::notation::find_sep(s, a) == crate::notation::find_sep(s, a + 1));
            lemma_find_sep_skip(s, a + 1, b);
        }
    }
}

/// The dot search skips a region with no `'.'`.
proof fn lemma_first_dot_skip(s: Seq<char>, a: int, b: int)
    requires
        0 <= a <= b <= s.len(),
        forall|j: int| a <= j < b ==> #[trigger] s[j] != '.',
    ensures
        crate::notation::first_dot(s, a) == crate::notation::first_dot(s, b),
    decreases b - a,
{
    if a < b {
        assert(crate::notation::first_dot(s, a) == crate::notation::first_dot(s, a + 1));
        lemma_first_dot_skip(s, a + 1, b);
    }
}

/// A digit character is neither `'x'`, `'-'` nor `'.'`.
proof fn lemma_digit_is_plain(c: char)
    requires
        crate::digits::is_digit_char(c),
    ensures
        c != 'x' && c != '-' && c != '.',
{
    if c == 'x' {
        assert(c as u32 == 'x' as u32);
    }
    if c == '-' {
        assert(c as u32 == '-' as u32);
    }
    if c == '.' {
        assert(c as u32 == '.' as u32);
    }
}

/// A canonical coefficient text: digits without a leading zero, a minus sign
/// only on a nonzero value, a fractional part (if any) holding a nonzero
/// digit, and a magnitude within the mantissa range.
pub open spec fn canonical_coefficient(neg: bool, ip: Seq<char>, fp: Seq<char>) -> bool {
    &&& all_digits(ip)
    &&& all_digits(fp)
    &&& ip.len() >= 1
    &&& ip.len() == 1 || ip[0] != '0'
    &&& fp.len() == 0 || exists|i: int| 0 <= i < fp.len() && fp[i] != '0'
    &&& fp.len() <= MAX_SCALE
    &&& digits_to_nat(ip + fp) <= limit_of(neg)
    &&& neg ==> digits_to_nat(ip + fp) > 0
}

/// A canonical exponent text: digits without a leading zero, a minus sign
/// only on a nonzero value, within the 16-bit range.
pub open spec fn canonical_exponent(eneg: bool, ep: Seq<char>) -> bool {
    &&& all_digits(ep)
    &&& ep.len() >= 1
    &&& ep.len() == 1 || ep[0] != '0'
    &&& if eneg {
        1 <= digits_to_nat(ep) <= 32768
    } else {
        digits_to_nat(ep) <= 32767
    }
}

/// The literal spelled from its parts: `[-]ip[.fp]x10^[-]ep`.
pub open spec fn assemble_literal(
    neg: bool,
    ip: Seq<char>,
    fp: Seq<char>,
    eneg: bool,
    ep: Seq<char>,
) -> Seq<char> {
    coefficient_text(neg, ip, fp) + crate::notation::sep_seq() + exponent_text(eneg, ep)
}

pub open spec fn coefficient_text(neg: bool, ip: Seq<char>, fp: Seq<char>) -> Seq<char> {
    (if neg {
        seq!['-']
    } else {
        Seq::<char>::empty()
    }) + ip + (if fp.len() == 0 {
        Seq::<char>::empty()
    } else {
        seq!['.'] + fp
    })
}

pub open spec fn exponent_text(eneg: bool, ep: Seq<char>) -> Seq<char> {
    (if eneg {
        seq!['-']
    } else {
        Seq::<char>::empty()
    }) + ep
}

/// The value a canonical literal denotes.
pub open spec fn canonical_value(
    neg: bool,
    ip: Seq<char>,
    fp: Seq<char>,
    eneg: bool,
    ep: Seq<char>,
) -> ScientificNotation {
    ScientificNotation {
        coefficient: Decimal {
            mantissa: signed(neg, digits_to_nat(ip + fp)) as i64,
            scale: fp.len() as u32,
        },
        exponent: signed(eneg, digits_to_nat(ep)) as i16,
        display_decimals: if fp.len() == 0 {
            0
        } else {
            fp.len() as usize
        },
    }
}

/// Parsing a canonical decimal segment yields exactly its denoted decimal.
proof fn lemma_parse_decimal_canonical(neg: bool, ip: Seq<char>, fp: Seq<char>)
    requires
        canonical_coefficient(neg, ip, fp),
    ensures
        crate::notation::spec_parse_decimal(coefficient_text(neg, ip, fp)) == Some(
            Decimal {
                mantissa: signed(neg, digits_to_nat(ip + fp)) as i64,
                scale: fp.len() as u32,
            },
        ),
{
    let c = coefficient_text(neg, ip, fp);
    let sign_len: int = if neg {
        1
    } else {
        0
    };
    assert(c.len() == sign_len + ip.len() + (if fp.len() == 0 {
        0
    } else {
        1 + fp.len()
    }));
    if neg {
        assert(c[0] == '-');
    } else {
        assert(c[0] == ip[0]);
        lemma_digit_is_plain(ip[0]);
    }
    let body = if neg {
        c.skip(1)
    } else {
        c
    };
    assert(body =~= ip + (if fp.len() == 0 {
        Seq::<char>::empty()
    } else {
        seq!['.'] + fp
    }));
    assert(forall|j: int|
        0 <= j < ip.len() ==> #[trigger] body[j] != '.') by {
        assert forall|j: int| 0 <= j < ip.len() implies #[trigger] body[j] != '.' by {
            assert(body[j] == ip[j]);
            lemma_digit_is_plain(ip[j]);
        }
    }
    if fp.len() == 0 {
        lemma_first_dot_skip(body, 0, body.len() as int);
        assert(crate::notation::first_dot(body, body.len() as int) == -1);
        assert(crate::notation::first_dot(body, 0) == -1);
        assert(ip + fp =~= ip);
        assert(body =~= ip);
    } else {
        lemma_first_dot_skip(body, 0, ip.len() as int);
        assert(body[ip.len() as int] == '.');
        assert(crate::notation::first_dot(body, ip.len() as int) == ip.len());
        assert(crate::notation::first_dot(body, 0) == ip.len());
        assert(body.take(ip.len() as int) =~= ip);
        assert(body.skip(ip.len() + 1 as int) =~= fp);
    }
}

/// Parsing a canonical literal succeeds and yields exactly its denoted value.
pub proof fn lemma_parse_canonical(neg: bool, ip: Seq<char>, fp: Seq<char>, eneg: bool, ep: Seq<
    char,
>)
    requires
        canonical_coefficient(neg, ip, fp),
        canonical_exponent(eneg, ep),
    ensures
        crate::notation::spec_parse(assemble_literal(neg, ip, fp, eneg, ep)) == Ok::<
            ScientificNotation,
            SciError,
        >(canonical_value(neg, ip, fp, eneg, ep)),
{
    let ct = coefficient_text(neg, ip, fp);
    let et = exponent_text(eneg, ep);
    let lit = assemble_literal(neg, ip, fp, eneg, ep);
    let cl = ct.len() as int;
    let sign_len: int = if neg {
        1
    } else {
        0
    };
    assert forall|j: int| 0 <= j < cl implies #[trigger] lit[j] != 'x' by {
        assert(lit[j] == ct[j]);
        if neg && j == 0 {
            assert(ct[j] == '-');
            assert('-' as u32 != 'x' as u32);
        } else if j < sign_len + ip.len() {
            assert(ct[j] == ip[j - sign_len]);
            lemma_digit_is_plain(ip[j - sign_len]);
        } else if fp.len() > 0 && j == sign_len + ip.len() {
            assert(ct[j] == '.');
            assert('.' as u32 != 'x' as u32);
        } else {
            assert(ct[j] == fp[j - sign_len - ip.len() - 1]);
            lemma_digit_is_plain(fp[j - sign_len - ip.len() - 1]);
        }
    }
    lemma_find_sep_skip(lit, 0, cl);
    assert(lit[cl] == 'x');
    assert(lit[cl + 1] == '1');
    assert(lit[cl + 2] == '0');
    assert(lit[cl + 3] == '^');
    assert(crate::notation::is_sep_at(lit, cl));
    assert(crate::notation::find_sep(lit, cl) == cl);
    assert(crate::notation::find_sep(lit, 0) == cl);
    let el: int = lit.len() as int;
    assert forall|j: int| cl + 4 <= j < el implies #[trigger] lit[j] != 'x' by {
        assert(lit[j] == et[j - cl - 4]);
        if eneg && j == cl + 4 {
            assert(et[0] == '-');
            assert('-' as u32 != 'x' as u32);
        } else {
            let esign: int = if eneg {
                1
            } else {
                0
            };
            assert(et[j - cl - 4] == ep[j - cl - 4 - esign]);
            lemma_digit_is_plain(ep[j - cl - 4 - esign]);
        }
    }
    lemma_find_sep_skip(lit, cl + 4, el);
    assert(crate::notation::find_sep(lit, el) == -1);
    assert(crate::notation::find_sep(lit, cl + 4) == -1);
    assert(lit.take(cl) =~= ct);
    lemma_parse_decimal_canonical(neg, ip, fp);
    let mag = digits_to_nat(ip + fp);
    let c = Decimal { mantissa: signed(neg, mag) as i64, scale: fp.len() as u32 };
    assert(crate::notation::spec_parse_decimal(lit.take(cl)) == Some(c));
    let empty = Seq::<char>::empty();
    assert(et =~= coefficient_text(eneg, ep, empty));
    assert(ep + empty =~= ep);
    let mag_e = digits_to_nat(ep);
    assert(canonical_coefficient(eneg, ep, empty));
    lemma_parse_decimal_canonical(eneg, ep, empty);
    let e = Decimal { mantissa: signed(eneg, mag_e) as i64, scale: 0 };
    assert(lit.skip(cl + 4) =~= et);
    assert(crate::notation::spec_parse_decimal(lit.skip(cl + 4)) == Some(e));
    lemma_signed_roundtrip(eneg, mag_e);
    assert(pow10(0) == 1);
    assert(abs_i(e.mantissa as int) as int % 1int == 0) by (nonlinear_arith);
    assert(e.mantissa as int / 1int == e.mantissa as int) by (nonlinear_arith);
    let ev = e.mantissa as int;
    assert(ev == signed(eneg, mag_e));
    assert(-32768 <= ev <= 32767);
    lemma_signed_roundtrip(neg, mag);
    assert(abs_i(c.mantissa as int) == mag);
    if fp.len() == 0 {
        assert(mag as int % pow10(0) == 0) by (nonlinear_arith);
        assert(c.spec_fract_digits() == 0);
    } else {
        crate::digits::lemma_digits_to_nat_concat(ip, fp);
        crate::digits::lemma_digits_to_nat_bound(fp);
        crate::digits::lemma_pow10_pos(fp.len());
        vstd::arithmetic::div_mod::lemma_fundamental_div_mod_converse_mod(
            mag as int,
            pow10(fp.len()),
            digits_to_nat(ip) as int,
            digits_to_nat(fp) as int,
        );
        crate::digits::lemma_digits_to_nat_nonzero(fp);
        assert(c.spec_fract_digits() == fp.len());
    }
    assert(crate::notation::spec_parse(lit) == Ok::<ScientificNotation, SciError>(
        canonical_value(neg, ip, fp, eneg, ep),
    ));
}

/// Formatting the value a canonical literal denotes reproduces the literal.
pub proof fn lemma_format_canonical(neg: bool, ip: Seq<char>, fp: Seq<char>, eneg: bool, ep: Seq<
    char,
>)
    requires
        canonical_coefficient(neg, ip, fp),
        canonical_exponent(eneg, ep),
    ensures
        crate::notation::spec_format(canonical_value(neg, ip, fp, eneg, ep)) == assemble_literal(
            neg,
            ip,
            fp,
            eneg,
            ep,
        ),
{
    let v = canonical_value(neg, ip, fp, eneg, ep);
    let mag = digits_to_nat(ip + fp);
    lemma_signed_roundtrip(neg, mag);
    let c = v.coefficient;
    assert(crate::decimal::spec_round_htz(c, v.display_decimals as nat) == c);
    let p = pow10(fp.len());
    if fp.len() == 0 {
        assert(ip + fp =~= ip);
        assert(pow10(0) == 1);
        assert(mag as int / 1int == mag as int) by (nonlinear_arith);
        assert(abs_i(c.mantissa as int) as int / pow10(c.scale as nat) == mag as int);
        crate::digits::lemma_nat_to_digits_inverse(ip);
        assert(crate::notation::spec_render_decimal(c) =~= coefficient_text(neg, ip, fp));
    } else {
        crate::digits::lemma_digits_to_nat_concat(ip, fp);
        crate::digits::lemma_digits_to_nat_bound(fp);
        crate::digits::lemma_pow10_pos(fp.len());
        vstd::arithmetic::div_mod::lemma_fundamental_div_mod_converse(
            mag as int,
            p,
            digits_to_nat(ip) as int,
            digits_to_nat(fp) as int,
        );
        assert(abs_i(c.mantissa as int) as int / pow10(c.scale as nat) == digits_to_nat(ip));
        assert(abs_i(c.mantissa as int) as int % pow10(c.scale as nat) == digits_to_nat(fp));
        crate::digits::lemma_nat_to_digits_inverse(ip);
        crate::digits::lemma_pad_digits_inverse(fp);
        assert(crate::notation::spec_render_decimal(c) =~= coefficient_text(neg, ip, fp));
    }
    let mag_e = digits_to_nat(ep);
    lemma_signed_roundtrip(eneg, mag_e);
    let ev = v.exponent as int;
    assert(ev == signed(eneg, mag_e));
    crate::digits::lemma_nat_to_digits_inverse(ep);
    if eneg {
        assert(ev < 0);
        assert((-ev) as nat == mag_e);
        assert(crate::notation::spec_render_int(ev) =~= exponent_text(eneg, ep));
    } else {
        assert(ev >= 0);
        assert(ev as nat == mag_e);
        assert(crate::notation::spec_render_int(ev) =~= exponent_text(eneg, ep));
    }
    assert(crate::notation::spec_format(v) =~= assemble_literal(neg, ip, fp, eneg, ep));
}

/// The round-trip law: every canonical literal `[-]ip[.fp]x10^[-]ep` — digit
/// strings without leading zeros, a fractional part with a significant digit,
/// a coefficient within the mantissa range and an exponent within the 16-bit
/// range — parses successfully, and formatting the parsed value gives back
/// the literal, character for character.
pub proof fn lemma_parse_format_round_trip(
    neg: bool,
    ip: Seq<char>,
    fp: Seq<char>,
    eneg: bool,
    ep: Seq<char>,
)
    requires
        canonical_coefficient(neg, ip, fp),
        canonical_exponent(eneg, ep),
    ensures
        ({
            let lit = assemble_literal(neg, ip, fp, eneg, ep);
            &&& crate::notation::spec_parse(lit) is Ok
            &&& crate::notation::spec_format(crate::notation::spec_parse(lit)->Ok_0) == lit
        }),
{
    lemma_parse_canonical(neg, ip, fp, eneg, ep);
    lemma_format_canonical(neg, ip, fp, eneg, ep);
}

/// Division by a value whose coefficient is zero fails with
/// `DivisionByZero`, for every dividend and whatever the divisor's exponent.
pub proof fn lemma_divide_by_zero(x: ScientificNotation, y: ScientificNotation)
    requires
        y.coefficient.mantissa == 0,
    ensures
        spec_div(x, y) == Err::<ScientificNotation, SciError>(SciError::DivisionByZero),
{
}

} // verus!
