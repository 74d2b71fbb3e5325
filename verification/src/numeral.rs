//! Decimal numerals: how unsigned integers and fixed-point numbers are written
//! as characters, and how they are read back.
//!
//! A fixed-point number is an unsigned count of millionths. Its numeral is the
//! shortest one: the whole part and, where the fraction is not zero, a point
//! and the fraction digits up to the last that is not zero.

use crate::text::{find, lemma_position, position};
use vstd::prelude::*;

verus! {

/// How many millionths make one: the scale of fixed-point numbers.
pub const SCALE: u64 = 1_000_000;

/// How many fraction digits a fixed-point number has: as many as its numeral
/// has at most, and as many as are read.
pub const FRACTION_DIGITS: usize = 6;

/// Whether `c` is one of the ten decimal digits.
pub open spec fn is_digit(c: char) -> bool {
    '0' as int <= c as int <= '9' as int
}

/// The number that the digit `c` stands for.
pub open spec fn digit_value(c: char) -> nat {
    (c as int - '0' as int) as nat
}

/// The digit that stands for `d`, for `d` below ten.
pub open spec fn digit_char(d: nat) -> char {
    (d + '0' as int) as char
}

/// Whether `s` holds digits only.
pub open spec fn all_digits(s: Seq<char>) -> bool {
    forall|i: int| 0 <= i < s.len() ==> is_digit(#[trigger] s[i])
}

/// The number that a run of digits denotes, most significant digit first.
/// Leading zeros are allowed; the empty run denotes zero.
pub open spec fn numeral_value(s: Seq<char>) -> nat
    decreases s.len(),
{
    if s.len() == 0 {
        0
    } else {
        numeral_value(s.drop_last()) * 10 + digit_value(s.last())
    }
}

/// The shortest numeral of `n`: no leading zero, and `0` for zero.
pub open spec fn numeral(n: nat) -> Seq<char>
    decreases n,
{
    if n < 10 {
        seq![digit_char(n)]
    } else {
        numeral(n / 10).push(digit_char(n % 10))
    }
}

/// The last `width` digits of `n`, with leading zeros where `n` is short.
pub open spec fn fixed(n: nat, width: nat) -> Seq<char>
    decreases width,
{
    if width == 0 {
        Seq::empty()
    } else {
        fixed(n / 10, (width - 1) as nat).push(digit_char(n % 10))
    }
}

/// Ten to the power `e`.
pub open spec fn pow10(e: nat) -> nat
    decreases e,
{
    if e == 0 {
        1
    } else {
        10 * pow10((e - 1) as nat)
    }
}

/// A run of `n` zeros.
pub open spec fn zeros(n: nat) -> Seq<char> {
    Seq::new(n, |i: int| '0')
}

/// What `s` denotes as an unsigned integer of 64 bits: an optional `+` and then
/// one or more digits. `None` where `s` has another shape, or denotes a number
/// above `u64::MAX`.
pub open spec fn long_of(s: Seq<char>) -> Option<u64> {
    let digits = if s.len() > 0 && s[0] == '+' {
        s.drop_first()
    } else {
        s
    };
    if digits.len() > 0 && all_digits(digits) && numeral_value(digits) <= u64::MAX {
        Some(numeral_value(digits) as u64)
    } else {
        None
    }
}

/// The whole part of a fixed-point numeral: what stands before the first point.
pub open spec fn whole_part(s: Seq<char>) -> Seq<char> {
    s.take(position(s, '.'))
}

/// The fraction part of a fixed-point numeral: what stands after the first
/// point; empty where there is no point.
pub open spec fn fraction_part(s: Seq<char>) -> Seq<char> {
    if position(s, '.') < s.len() {
        s.skip(position(s, '.') + 1)
    } else {
        Seq::empty()
    }
}

/// The millionths that a run of fraction digits denotes: its first six digits,
/// a short run counted as if zeros followed it.
pub open spec fn millionths(fraction: Seq<char>) -> nat {
    numeral_value((fraction + zeros(FRACTION_DIGITS as nat)).take(FRACTION_DIGITS as int))
}

/// What `s` denotes as a fixed-point number, in millionths: one or more digits,
/// then optionally a point and any number of digits. Digits after the sixth
/// fraction digit are dropped. `None` where `s` has another shape, or denotes
/// more than `u64::MAX` millionths.
pub open spec fn float_of(s: Seq<char>) -> Option<u64> {
    let whole = whole_part(s);
    let fraction = fraction_part(s);
    let value = numeral_value(whole) * SCALE + millionths(fraction);
    if whole.len() > 0 && all_digits(whole) && all_digits(fraction) && value <= u64::MAX {
        Some(value as u64)
    } else {
        None
    }
}

/// `s` without the zeros it ends with.
pub open spec fn without_trailing_zeros(s: Seq<char>) -> Seq<char>
    decreases s.len(),
{
    if s.len() > 0 && s.last() == '0' {
        without_trailing_zeros(s.drop_last())
    } else {
        s
    }
}

/// The fraction digits of `micro` millionths, up to the last that is not zero.
pub open spec fn fraction_text(micro: nat) -> Seq<char> {
    without_trailing_zeros(fixed(micro, FRACTION_DIGITS as nat))
}

/// The numeral of a fixed-point number of `v` millionths: the numeral of the
/// whole part and, where the fraction is not zero, a point and the fraction
/// digits up to the last that is not zero.
pub open spec fn float_text(v: u64) -> Seq<char> {
    if v % SCALE == 0 {
        numeral((v / SCALE) as nat)
    } else {
        numeral((v / SCALE) as nat) + seq!['.'] + fraction_text((v % SCALE) as nat)
    }
}

/// The numeral of a signed integer: a `-` before the numeral of its magnitude
/// where it is negative.
pub open spec fn signed_numeral(n: int) -> Seq<char> {
    if n < 0 {
        seq!['-'] + numeral((-n) as nat)
    } else {
        numeral(n as nat)
    }
}

/// A numeral is a non-empty run of digits that denotes its number.
pub proof fn lemma_numeral(n: nat)
    ensures
        numeral(n).len() >= 1,
        all_digits(numeral(n)),
        numeral_value(numeral(n)) == n,
    decreases n,
{
    if n < 10 {
        let s = numeral(n);
        assert(s.drop_last() =~= Seq::<char>::empty());
        assert(numeral_value(s.drop_last()) == 0);
        assert(s.last() == digit_char(n));
    } else {
        lemma_numeral(n / 10);
        let s = numeral(n);
        assert(s.drop_last() =~= numeral(n / 10));
        assert(s.last() == digit_char(n % 10));
    }
}

/// A fixed-width numeral holds exactly `width` digits, and denotes its number
/// where that number has no more digits than the width.
pub proof fn lemma_fixed(n: nat, width: nat)
    ensures
        fixed(n, width).len() == width,
        all_digits(fixed(n, width)),
        n < pow10(width) ==> numeral_value(fixed(n, width)) == n,
    decreases width,
{
    if width > 0 {
        lemma_fixed(n / 10, (width - 1) as nat);
        let s = fixed(n, width);
        assert(s.drop_last() =~= fixed(n / 10, (width - 1) as nat));
        assert(s.last() == digit_char(n % 10));
    }
}

/// A run of digits denotes no less than any of its prefixes does.
pub proof fn lemma_value_grows(s: Seq<char>, k: int)
    requires
        0 <= k <= s.len(),
    ensures
        numeral_value(s.take(k)) <= numeral_value(s),
    decreases s.len(),
{
    if k == s.len() {
        assert(s.take(k) =~= s);
    } else {
        lemma_value_grows(s.drop_last(), k);
        assert(s.drop_last().take(k) =~= s.take(k));
    }
}

/// A run of digits denotes less than ten to the power of its length.
pub proof fn lemma_value_bound(s: Seq<char>)
    requires
        all_digits(s),
    ensures
        numeral_value(s) < pow10(s.len()),
    decreases s.len(),
{
    if s.len() > 0 {
        assert(all_digits(s.drop_last())) by {
            assert forall|i: int| 0 <= i < s.drop_last().len() implies is_digit(
                #[trigger] s.drop_last()[i],
            ) by {
                assert(s.drop_last()[i] == s[i]);
            }
        }
        lemma_value_bound(s.drop_last());
        assert(is_digit(s[s.len() - 1]));
    }
}

/// Powers of ten are positive and grow with the exponent.
pub proof fn lemma_pow10_grows(a: nat, b: nat)
    requires
        a <= b,
    ensures
        0 < pow10(a) <= pow10(b),
    decreases b,
{
    if a < b {
        lemma_pow10_grows(a, (b - 1) as nat);
    } else if a > 0 {
        lemma_pow10_grows((a - 1) as nat, (a - 1) as nat);
    }
}

/// Ten to the power of the number of fraction digits is the scale.
pub proof fn lemma_pow10_scale()
    ensures
        pow10(FRACTION_DIGITS as nat) == SCALE,
{
    reveal_with_fuel(pow10, 7);
}

/// Reading the numeral of an unsigned integer gives that integer back.
pub proof fn lemma_long_round_trip(n: u64)
    ensures
        long_of(numeral(n as nat)) == Some(n),
{
    lemma_numeral(n as nat);
    assert(is_digit(numeral(n as nat)[0]));
}

/// A run of zeros denotes zero.
pub proof fn lemma_zeros_value(n: nat)
    ensures
        numeral_value(zeros(n)) == 0,
    decreases n,
{
    if n > 0 {
        lemma_zeros_value((n - 1) as nat);
        assert(zeros(n).drop_last() =~= zeros((n - 1) as nat));
    }
}

/// What is left of `s` without its trailing zeros begins `s`, and zeros make up
/// the rest; it does not end with a zero.
pub proof fn lemma_trailing_zeros(s: Seq<char>)
    ensures
        without_trailing_zeros(s).len() <= s.len(),
        s == without_trailing_zeros(s) + zeros((s.len() - without_trailing_zeros(s).len()) as nat),
        without_trailing_zeros(s).len() > 0 ==> without_trailing_zeros(s).last() != '0',
    decreases s.len(),
{
    let t = without_trailing_zeros(s);
    if s.len() > 0 && s.last() == '0' {
        let d = s.drop_last();
        lemma_trailing_zeros(d);
        let joined = t + zeros((s.len() - t.len()) as nat);
        assert forall|i: int| 0 <= i < s.len() implies s[i] == joined[i] by {
            if i < d.len() {
                assert(s[i] == d[i]);
                assert(d[i] == (t + zeros((d.len() - t.len()) as nat))[i]);
            }
        }
        assert(s =~= joined);
    } else {
        assert(s =~= t + zeros(0));
    }
}

/// The fraction digits of a fraction that is not zero: at least one and at most
/// six digits, the last of them not a zero, which denote the fraction when
/// zeros follow them.
pub proof fn lemma_fraction_text(micro: nat)
    requires
        0 < micro < SCALE,
    ensures
        0 < fraction_text(micro).len() <= FRACTION_DIGITS,
        all_digits(fraction_text(micro)),
        fraction_text(micro).last() != '0',
        millionths(fraction_text(micro)) == micro,
{
    let width = FRACTION_DIGITS as nat;
    let full = fixed(micro, width);
    let t = fraction_text(micro);
    lemma_pow10_scale();
    lemma_fixed(micro, width);
    lemma_trailing_zeros(full);
    if t.len() == 0 {
        assert(full =~= zeros(width));
        lemma_zeros_value(width);
    }
    assert forall|i: int| 0 <= i < t.len() implies is_digit(#[trigger] t[i]) by {
        assert(t[i] == full[i]);
    }
    assert((t + zeros(width)).take(width as int) =~= full);
}

/// The numeral of a fixed-point number is not empty, holds digits and at most
/// one point, and ends with a digit.
pub proof fn lemma_float_text(v: u64)
    ensures
        float_text(v).len() > 0,
        forall|i: int|
            0 <= i < float_text(v).len() ==> is_digit(#[trigger] float_text(v)[i]) || float_text(
                v,
            )[i] == '.',
        is_digit(float_text(v).last()),
{
    let units = numeral((v / SCALE) as nat);
    let s = float_text(v);
    lemma_numeral((v / SCALE) as nat);
    if v % SCALE != 0 {
        let t = fraction_text((v % SCALE) as nat);
        lemma_fraction_text((v % SCALE) as nat);
        assert forall|i: int| 0 <= i < s.len() implies is_digit(#[trigger] s[i]) || s[i]
            == '.' by {
            if i < units.len() {
                assert(is_digit(units[i]));
            } else if i > units.len() {
                assert(is_digit(t[i - units.len() - 1]));
            }
        }
        assert(s.last() == t.last());
        assert(is_digit(t[t.len() - 1]));
    } else {
        assert(is_digit(units[units.len() - 1]));
        assert forall|i: int| 0 <= i < s.len() implies is_digit(#[trigger] s[i]) || s[i]
            == '.' by {
            assert(is_digit(units[i]));
        }
    }
}

/// Reading the numeral of a fixed-point number gives that number back.
pub proof fn lemma_float_round_trip(v: u64)
    ensures
        float_of(float_text(v)) == Some(v),
{
    let units = (v / SCALE) as nat;
    let micro = (v % SCALE) as nat;
    let width = FRACTION_DIGITS as nat;
    let s = float_text(v);
    lemma_numeral(units);
    assert forall|i: int| 0 <= i < numeral(units).len() implies s[i] != '.' by {
        assert(is_digit(numeral(units)[i]));
    }
    lemma_position(s, '.', numeral(units).len() as int);
    assert(whole_part(s) =~= numeral(units));
    if micro == 0 {
        assert(fraction_part(s) =~= Seq::<char>::empty());
        assert((fraction_part(s) + zeros(width)).take(width as int) =~= zeros(width));
        lemma_zeros_value(width);
    } else {
        lemma_fraction_text(micro);
        assert(fraction_part(s) =~= fraction_text(micro));
    }
}

/// The number that `c` stands for, where `c` is a digit.
pub fn digit(c: char) -> (r: Option<u64>)
    ensures
        r is Some <==> is_digit(c),
        r matches Some(d) ==> d == digit_value(c) && d < 10,
{
    let code = c as u32;
    if 48 <= code && code <= 57 {
        Some((code - 48) as u64)
    } else {
        None
    }
}

/// The digit that stands for `d`.
pub fn digit_to_char(d: u64) -> (c: char)
    requires
        d < 10,
    ensures
        c == digit_char(d as nat),
{
    (d as u8 + 48) as char
}

/// Reads the characters of `v` from `lo` up to `hi` as a run of digits.
pub fn parse_digits(v: &Vec<char>, lo: usize, hi: usize) -> (r: Option<u64>)
    requires
        lo <= hi <= v.len(),
    ensures
        match r {
            Some(n) => all_digits(v@.subrange(lo as int, hi as int)) && n == numeral_value(
                v@.subrange(lo as int, hi as int),
            ),
            None => !all_digits(v@.subrange(lo as int, hi as int)) || numeral_value(
                v@.subrange(lo as int, hi as int),
            ) > u64::MAX,
        },
{
    let ghost digits = v@.subrange(lo as int, hi as int);
    let mut acc: u64 = 0;
    let mut i = lo;
    assert(digits.take(0) =~= Seq::<char>::empty());
    while i < hi
        invariant
            lo <= i <= hi <= v.len(),
            digits == v@.subrange(lo as int, hi as int),
            all_digits(digits.take(i - lo)),
            acc == numeral_value(digits.take(i - lo)),
        decreases hi - i,
    {
        let ghost k = i - lo;
        assert(digits.take(k + 1).drop_last() =~= digits.take(k));
        assert(digits.take(k + 1).last() == v@[i as int]);
        proof {
            lemma_value_grows(digits, k + 1);
        }
        let d = match digit(v[i]) {
            Some(d) => d,
            None => {
                assert(!is_digit(digits[k]));
                return None;
            },
        };
        let tens = match acc.checked_mul(10) {
            Some(tens) => tens,
            None => {
                return None;
            },
        };
        acc = match tens.checked_add(d) {
            Some(sum) => sum,
            None => {
                return None;
            },
        };
        i = i + 1;
    }
    assert(digits.take(i - lo) =~= digits);
    Some(acc)
}

/// Reads the characters of `v` from `lo` up to `hi` as an unsigned integer.
pub fn parse_long(v: &Vec<char>, lo: usize, hi: usize) -> (r: Option<u64>)
    requires
        lo <= hi <= v.len(),
    ensures
        r == long_of(v@.subrange(lo as int, hi as int)),
{
    let ghost s = v@.subrange(lo as int, hi as int);
    let start = if lo < hi && v[lo] == '+' {
        lo + 1
    } else {
        lo
    };
    assert(v@.subrange(start as int, hi as int) =~= if s.len() > 0 && s[0] == '+' {
        s.drop_first()
    } else {
        s
    });
    if start == hi {
        None
    } else {
        parse_digits(v, start, hi)
    }
}

/// Reads the characters of `v` from `lo` up to `hi` as a fixed-point number,
/// in millionths.
pub fn parse_float(v: &Vec<char>, lo: usize, hi: usize) -> (r: Option<u64>)
    requires
        lo <= hi <= v.len(),
    ensures
        r == float_of(v@.subrange(lo as int, hi as int)),
{
    let ghost s = v@.subrange(lo as int, hi as int);
    let dot = find(v, lo, hi, '.');
    let ghost whole = whole_part(s);
    let ghost fraction = fraction_part(s);
    let ghost padded = (fraction + zeros(FRACTION_DIGITS as nat)).take(FRACTION_DIGITS as int);
    let from = if dot < hi {
        dot + 1
    } else {
        hi
    };
    assert(whole =~= v@.subrange(lo as int, dot as int));
    assert(fraction =~= v@.subrange(from as int, hi as int));
    if dot == lo {
        return None;
    }
    let units = match parse_digits(v, lo, dot) {
        Some(units) => units,
        None => {
            return None;
        },
    };
    let mut micro: u64 = 0;
    let mut j: usize = 0;
    assert(padded.take(0) =~= Seq::<char>::empty());
    while j < FRACTION_DIGITS
        invariant
            j <= FRACTION_DIGITS,
            lo <= from <= hi <= v.len(),
            s == v@.subrange(lo as int, hi as int),
            fraction == fraction_part(s),
            fraction == v@.subrange(from as int, hi as int),
            padded == (fraction + zeros(FRACTION_DIGITS as nat)).take(FRACTION_DIGITS as int),
            all_digits(padded.take(j as int)),
            forall|i: int| 0 <= i < j && i < fraction.len() ==> is_digit(fraction[i]),
            micro == numeral_value(padded.take(j as int)),
        decreases FRACTION_DIGITS - j,
    {
        assert(padded.take(j + 1).drop_last() =~= padded.take(j as int));
        assert(padded.take(j + 1).last() == padded[j as int]);
        proof {
            lemma_value_bound(padded.take(j as int));
            lemma_pow10_grows((j + 1) as nat, FRACTION_DIGITS as nat);
            lemma_pow10_scale();
        }
        let d = if j < hi - from {
            match digit(v[from + j]) {
                Some(d) => d,
                None => {
                    assert(!is_digit(fraction[j as int]));
                    return None;
                },
            }
        } else {
            0
        };
        micro = micro * 10 + d;
        j = j + 1;
    }
    assert(padded.take(FRACTION_DIGITS as int) =~= padded);
    let mut i = if hi - from > FRACTION_DIGITS {
        from + FRACTION_DIGITS
    } else {
        hi
    };
    while i < hi
        invariant
            lo <= from <= i <= hi <= v.len(),
            s == v@.subrange(lo as int, hi as int),
            fraction == fraction_part(s),
            fraction == v@.subrange(from as int, hi as int),
            forall|k: int|
                0 <= k < fraction.len() && (k < FRACTION_DIGITS || k < i - from) ==> is_digit(
                    fraction[k],
                ),
        decreases hi - i,
    {
        if digit(v[i]).is_none() {
            assert(!is_digit(fraction[i - from]));
            return None;
        }
        i = i + 1;
    }
    assert(all_digits(fraction));
    match units.checked_mul(SCALE) {
        Some(scaled) => scaled.checked_add(micro),
        None => None,
    }
}

/// Appends the shortest numeral of `n` to `out`.
pub fn push_numeral(out: &mut String, n: u64)
    ensures
        final(out)@ == old(out)@ + numeral(n as nat),
    decreases n,
{
    if n >= 10 {
        push_numeral(out, n / 10);
    }
    out.push(digit_to_char(n % 10));
    assert(out@ =~= old(out)@ + numeral(n as nat));
}

/// Appends the last `width` digits of `n` to `out`, with leading zeros where
/// `n` is short.
pub fn push_fixed(out: &mut String, n: u64, width: usize)
    ensures
        final(out)@ == old(out)@ + fixed(n as nat, width as nat),
    decreases width,
{
    if width > 0 {
        push_fixed(out, n / 10, width - 1);
        out.push(digit_to_char(n % 10));
    }
    assert(out@ =~= old(out)@ + fixed(n as nat, width as nat));
}

/// Appends the numeral of the fixed-point number of `v` millionths to `out`.
pub fn push_float(out: &mut String, v: u64)
    ensures
        final(out)@ == old(out)@ + float_text(v),
{
    push_numeral(out, v / SCALE);
    let micro = v % SCALE;
    if micro != 0 {
        out.push('.');
        let mut rest = micro;
        let mut width = FRACTION_DIGITS;
        proof {
            lemma_pow10_scale();
        }
        while rest % 10 == 0
            invariant
                0 < rest < pow10(width as nat),
                width <= FRACTION_DIGITS,
                fraction_text(micro as nat) == without_trailing_zeros(
                    fixed(rest as nat, width as nat),
                ),
            decreases width,
        {
            assert(width > 0);
            assert(fixed(rest as nat, width as nat).last() == '0');
            assert(fixed(rest as nat, width as nat).drop_last() =~= fixed(
                (rest / 10) as nat,
                (width - 1) as nat,
            ));
            rest = rest / 10;
            width = width - 1;
        }
        assert(width > 0);
        assert(fixed(rest as nat, width as nat).last() == digit_char((rest % 10) as nat));
        push_fixed(out, rest, width);
    }
    assert(out@ =~= old(out)@ + float_text(v));
}

} // verus!
