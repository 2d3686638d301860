//! Decimal digit strings and their correspondence with natural numbers:
//! spec-level conversions in both directions, the lemmas that make them
//! inverses of each other, and small verified executable helpers.

use vstd::prelude::*;

verus! {

/// 10^n as a mathematical integer.
pub open spec fn pow10(n: nat) -> int
    decreases n,
{
    if n == 0 {
        1
    } else {
        10 * pow10((n - 1) as nat)
    }
}

pub open spec fn is_digit_char(c: char) -> bool {
    '0' as u32 <= c as u32 <= '9' as u32
}

pub open spec fn all_digits(s: Seq<char>) -> bool {
    forall|i: int| 0 <= i < s.len() ==> is_digit_char(#[trigger] s[i])
}

/// The numeric value of one decimal digit character.
pub open spec fn digit_val(c: char) -> nat {
    (c as u32 - '0' as u32) as nat
}

/// The character for one decimal digit value.
pub open spec fn digit_char(n: nat) -> char {
    if n == 0 {
        '0'
    } else if n == 1 {
        '1'
    } else if n == 2 {
        '2'
    } else if n == 3 {
        '3'
    } else if n == 4 {
        '4'
    } else if n == 5 {
        '5'
    } else if n == 6 {
        '6'
    } else if n == 7 {
        '7'
    } else if n == 8 {
        '8'
    } else {
        '9'
    }
}

/// The number denoted by a digit string, most significant digit first.
pub open spec fn digits_to_nat(s: Seq<char>) -> nat
    decreases s.len(),
{
    if s.len() == 0 {
        0
    } else {
        digits_to_nat(s.drop_last()) * 10 + digit_val(s.last())
    }
}

/// The digit string of a number, without leading zeros (`0` itself is "0").
pub open spec fn nat_to_digits(n: nat) -> Seq<char>
    decreases n,
{
    if n < 10 {
        seq![digit_char(n)]
    } else {
        nat_to_digits(n / 10).push(digit_char(n % 10))
    }
}

/// The last `w` decimal digits of a number, left-padded with zeros to width `w`.
pub open spec fn pad_digits(n: nat, w: nat) -> Seq<char>
    decreases w,
{
    if w == 0 {
        Seq::<char>::empty()
    } else {
        pad_digits(n / 10, (w - 1) as nat).push(digit_char(n % 10))
    }
}

pub proof fn lemma_pow10_pos(n: nat)
    ensures
        pow10(n) >= 1,
    decreases n,
{
    if n > 0 {
        lemma_pow10_pos((n - 1) as nat);
    }
}

pub proof fn lemma_pow10_adds(a: nat, b: nat)
    ensures
        pow10(a + b) == pow10(a) * pow10(b),
    decreases a,
{
    if a == 0 {
    } else {
        lemma_pow10_adds((a - 1) as nat, b);
        assert(pow10(a + b) == 10 * pow10((a + b - 1) as nat));
        assert(10 * (pow10((a - 1) as nat) * pow10(b)) == (10 * pow10((a - 1) as nat)) * pow10(b))
            by (nonlinear_arith);
    }
}

pub proof fn lemma_pow10_increases(a: nat, b: nat)
    requires
        a <= b,
    ensures
        pow10(a) <= pow10(b),
    decreases b,
{
    if a < b {
        lemma_pow10_increases(a, (b - 1) as nat);
        lemma_pow10_pos((b - 1) as nat);
    }
}

pub proof fn lemma_digit_char_inverse(c: char)
    requires
        is_digit_char(c),
    ensures
        digit_char(digit_val(c)) == c,
{
}

/// A digit character other than `'0'` has a positive value.
pub proof fn lemma_digit_val_pos(c: char)
    requires
        is_digit_char(c),
        c != '0',
    ensures
        digit_val(c) >= 1,
{
}

/// A digit string of length `n` denotes a number below `10^n`.
pub proof fn lemma_digits_to_nat_bound(s: Seq<char>)
    requires
        all_digits(s),
    ensures
        digits_to_nat(s) < pow10(s.len()),
    decreases s.len(),
{
    if s.len() == 0 {
    } else {
        lemma_digits_to_nat_bound(s.drop_last());
        assert(is_digit_char(s.last()));
        assert(digit_val(s.last()) <= 9);
        assert(pow10(s.len()) == 10 * pow10((s.len() - 1) as nat));
    }
}

/// Splitting a digit string splits its value at the corresponding power of ten.
pub proof fn lemma_digits_to_nat_concat(s: Seq<char>, t: Seq<char>)
    ensures
        digits_to_nat(s + t) == digits_to_nat(s) * pow10(t.len()) + digits_to_nat(t),
    decreases t.len(),
{
    if t.len() == 0 {
        assert(s + t =~= s);
        assert(pow10(0) == 1);
        assert(digits_to_nat(t) == 0);
        assert(digits_to_nat(s) * 1 == digits_to_nat(s)) by (nonlinear_arith);
    } else {
        let t1 = t.drop_last();
        let dv = digit_val(t.last());
        let p1 = pow10((t.len() - 1) as nat);
        lemma_digits_to_nat_concat(s, t1);
        assert((s + t).drop_last() =~= s + t1);
        assert((s + t).last() == t.last());
        assert(digits_to_nat(s + t) == digits_to_nat(s + t1) * 10 + dv);
        assert(digits_to_nat(s + t1) == digits_to_nat(s) * p1 + digits_to_nat(t1));
        assert(digits_to_nat(t) == digits_to_nat(t1) * 10 + dv);
        assert(pow10(t.len()) == 10 * p1);
        assert((digits_to_nat(s) * p1 + digits_to_nat(t1)) * 10 + dv == digits_to_nat(s) * (10
            * p1) + (digits_to_nat(t1) * 10 + dv)) by (nonlinear_arith);
        assert(digits_to_nat(s) * pow10(t.len()) == digits_to_nat(s) * (10 * p1));
        assert(digits_to_nat(s + t) == digits_to_nat(s) * pow10(t.len()) + digits_to_nat(t));
    }
}

/// A digit string that starts with a nonzero digit denotes at least `10^(len-1)`.
pub proof fn lemma_digits_to_nat_leading(s: Seq<char>)
    requires
        all_digits(s),
        s.len() >= 1,
        s[0] != '0',
    ensures
        digits_to_nat(s) >= pow10((s.len() - 1) as nat),
        digits_to_nat(s) >= 1,
    decreases s.len(),
{
    assert(is_digit_char(s[0]));
    lemma_digit_val_pos(s[0]);
    if s.len() == 1 {
        assert(digits_to_nat(s) == digits_to_nat(s.drop_last()) * 10 + digit_val(s.last()));
        assert(s.drop_last().len() == 0);
        lemma_pow10_pos(0);
    } else {
        lemma_digits_to_nat_leading(s.drop_last());
        assert(s.drop_last()[0] == s[0]);
        assert(digits_to_nat(s) == digits_to_nat(s.drop_last()) * 10 + digit_val(s.last()));
        assert(pow10((s.len() - 1) as nat) == 10 * pow10((s.len() - 2) as nat));
        assert(digits_to_nat(s.drop_last()) * 10 >= pow10((s.len() - 2) as nat) * 10)
            by (nonlinear_arith)
            requires
                digits_to_nat(s.drop_last()) >= pow10((s.len() - 2) as nat),
        ;
    }
}

/// A digit string with some nonzero digit denotes a nonzero number.
pub proof fn lemma_digits_to_nat_nonzero(s: Seq<char>)
    requires
        all_digits(s),
        exists|i: int| 0 <= i < s.len() && s[i] != '0',
    ensures
        digits_to_nat(s) > 0,
    decreases s.len(),
{
    let i = choose|i: int| 0 <= i < s.len() && s[i] != '0';
    if i == s.len() - 1 {
        assert(is_digit_char(s.last()));
        lemma_digit_val_pos(s.last());
    } else {
        assert(s.drop_last()[i] == s[i]);
        lemma_digits_to_nat_nonzero(s.drop_last());
    }
}

/// Rendering with a fixed width inverts the value of any digit string of that width.
pub proof fn lemma_pad_digits_inverse(s: Seq<char>)
    requires
        all_digits(s),
    ensures
        pad_digits(digits_to_nat(s), s.len()) == s,
    decreases s.len(),
{
    if s.len() == 0 {
        assert(pad_digits(0, 0) =~= s);
    } else {
        let v = digits_to_nat(s);
        let d = digit_val(s.last());
        assert(is_digit_char(s.last()));
        assert(d < 10);
        assert(v == digits_to_nat(s.drop_last()) * 10 + d);
        assert(v % 10 == d && v / 10 == digits_to_nat(s.drop_last())) by (nonlinear_arith)
            requires
                v == digits_to_nat(s.drop_last()) * 10 + d,
                0 <= d < 10,
        ;
        lemma_pad_digits_inverse(s.drop_last());
        lemma_digit_char_inverse(s.last());
        assert(pad_digits(v, s.len()) =~= s);
    }
}

/// Unpadded rendering inverts the value of a digit string without leading zeros.
pub proof fn lemma_nat_to_digits_inverse(s: Seq<char>)
    requires
        all_digits(s),
        s.len() >= 1,
        s.len() == 1 || s[0] != '0',
    ensures
        nat_to_digits(digits_to_nat(s)) == s,
    decreases s.len(),
{
    let v = digits_to_nat(s);
    let d = digit_val(s.last());
    assert(is_digit_char(s.last()));
    assert(d < 10);
    assert(v == digits_to_nat(s.drop_last()) * 10 + d);
    if s.len() == 1 {
        assert(s.drop_last().len() == 0);
        assert(v == d);
        lemma_digit_char_inverse(s.last());
        assert(nat_to_digits(v) =~= s);
    } else {
        lemma_digits_to_nat_leading(s.drop_last());
        assert(digits_to_nat(s.drop_last()) >= 1);
        assert(v >= 10);
        assert(v % 10 == d && v / 10 == digits_to_nat(s.drop_last())) by (nonlinear_arith)
            requires
                v == digits_to_nat(s.drop_last()) * 10 + d,
                0 <= d < 10,
        ;
        assert(s.drop_last()[0] == s[0]);
        lemma_nat_to_digits_inverse(s.drop_last());
        lemma_digit_char_inverse(s.last());
        assert(nat_to_digits(v) =~= s);
    }
}

/// The value reached by folding the digits of `s` onto an accumulator that
/// already holds `start`.
pub open spec fn accum_value(start: nat, s: Seq<char>) -> nat {
    (start * pow10(s.len()) + digits_to_nat(s)) as nat
}

/// The accumulated value written out as an integer expression.
pub proof fn lemma_accum_value_unfold(start: nat, s: Seq<char>)
    ensures
        accum_value(start, s) == start * pow10(s.len()) + digits_to_nat(s),
{
    lemma_pow10_pos(s.len());
    assert(start * pow10(s.len()) >= 0) by (nonlinear_arith)
        requires
            start >= 0,
            pow10(s.len()) >= 0,
    ;
}

/// Folding more digits never decreases the accumulated value.
pub proof fn lemma_accum_prefix(start: nat, s: Seq<char>, k: int)
    requires
        0 <= k <= s.len(),
    ensures
        accum_value(start, s) >= accum_value(start, s.take(k)),
{
    let pre = s.take(k);
    let post = s.skip(k);
    assert(s =~= pre + post);
    lemma_digits_to_nat_concat(pre, post);
    lemma_pow10_adds(k as nat, (s.len() - k) as nat);
    lemma_pow10_pos((s.len() - k) as nat);
    lemma_pow10_pos(k as nat);
    lemma_accum_value_unfold(start, s);
    lemma_accum_value_unfold(start, pre);
    assert(start * (pow10(k as nat) * pow10((s.len() - k) as nat)) + (digits_to_nat(pre) * pow10(
        (s.len() - k) as nat,
    ) + digits_to_nat(post)) >= start * pow10(k as nat) + digits_to_nat(pre)) by (nonlinear_arith)
        requires
            pow10((s.len() - k) as nat) >= 1,
            start >= 0,
            digits_to_nat(pre) >= 0,
            digits_to_nat(post) >= 0,
            pow10(k as nat) >= 0,
    ;
}

/// Folding a concatenation is folding one part and then the other.
pub proof fn lemma_accum_concat(start: nat, s: Seq<char>, t: Seq<char>)
    ensures
        accum_value(start, s + t) == accum_value(accum_value(start, s), t),
{
    lemma_digits_to_nat_concat(s, t);
    lemma_pow10_adds(s.len(), t.len());
    lemma_accum_value_unfold(start, s + t);
    lemma_accum_value_unfold(start, s);
    lemma_accum_value_unfold(accum_value(start, s), t);
    assert(start * (pow10(s.len()) * pow10(t.len())) + (digits_to_nat(s) * pow10(t.len())
        + digits_to_nat(t)) == (start * pow10(s.len()) + digits_to_nat(s)) * pow10(t.len())
        + digits_to_nat(t)) by (nonlinear_arith);
}

} // verus!
