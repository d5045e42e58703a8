//! Measurements as exact fixed-point decimals.
//!
//! A measurement is held as a whole number of thousandths, so `-47.5` is
//! `-47500`. Its text is a decimal number: an optional sign, digits with
//! an optional point among them, and optionally an exponent, as in `7`,
//! `-47.5`, `.5`, `5.`, `+0.0001` or `1.5e2`. There has to be a digit
//! before the exponent, and the exponent has to have one.
//!
//! What the text names beyond the third digit after the point is cut off:
//! the measurement is the whole number of thousandths nearest to the
//! number named that is no farther from zero. Text is no measurement when
//! it is no decimal number, or when its thousandths do not fit in 64 bits.
use vstd::prelude::*;

verus! {

/// How many units of a measurement make up one.
pub const UNITS_PER_ONE: i64 = 1000;

/// The decimal point.
pub const POINT: u8 = 46;

/// The sign of a negative measurement.
pub const MINUS: u8 = 45;

/// The sign that a positive measurement may carry.
pub const PLUS: u8 = 43;

/// The digit zero; the other digits follow it.
pub const ZERO: u8 = 48;

/// The size of the smallest measurement, in thousandths: two to the power
/// of 63. The largest measurement is one thousandth smaller in size.
pub const MAX_SIZE: u128 = 0x8000_0000_0000_0000;

/// Beyond this size an exponent is as good as infinite.
const MAX_EXPONENT: u128 = 1_000_000_000_000_000_000_000_000_000_000;

/// `b` is one of the ten decimal digits.
pub open spec fn is_digit(b: u8) -> bool {
    48 <= b <= 57
}

/// Every byte of `s` is a decimal digit.
pub open spec fn all_digits(s: Seq<u8>) -> bool {
    forall|i: int| 0 <= i < s.len() ==> is_digit(#[trigger] s[i])
}

/// The number that the digits of `s` spell when they follow the digits of
/// `start`.
pub open spec fn digits_from(start: nat, s: Seq<u8>) -> nat
    decreases s.len(),
{
    if s.len() == 0 {
        start
    } else {
        digits_from(start, s.drop_last()) * 10 + (s.last() - 48) as nat
    }
}

/// The number that the digits of `s` spell.
pub open spec fn digits_value(s: Seq<u8>) -> nat {
    digits_from(0, s)
}

/// Ten to the power of `n`.
pub open spec fn pow10(n: nat) -> nat
    decreases n,
{
    if n == 0 {
        1
    } else {
        10 * pow10((n - 1) as nat)
    }
}

/// The number that the first `places` digits of `digits` spell, with zeros
/// in the places for which there is no digit; zero where there is no place
/// at all.
pub open spec fn digits_upto(digits: Seq<u8>, places: int) -> nat {
    if places <= 0 {
        0
    } else if places <= digits.len() {
        digits_value(digits.take(places))
    } else {
        digits_value(digits) * pow10((places - digits.len()) as nat)
    }
}

/// The first index at or after `i` at which `s` holds `byte`; the length of
/// `s` (or `i`, if that is larger) when there is none.
pub open spec fn index_from(s: Seq<u8>, byte: u8, i: int) -> int
    decreases s.len() - i,
{
    if i >= s.len() || s[i] == byte {
        i
    } else {
        index_from(s, byte, i + 1)
    }
}

/// The first index at which `s` holds `byte`, or the length of `s` when it
/// holds none.
pub open spec fn first_index_of(s: Seq<u8>, byte: u8) -> int {
    index_from(s, byte, 0)
}

/// `b` begins an exponent: it is the letter `e`, small or capital.
pub open spec fn is_exponent_mark(b: u8) -> bool {
    b == 101 || b == 69
}

/// The first index at or after `i` at which `s` holds an exponent mark; the
/// length of `s` (or `i`, if that is larger) when there is none.
pub open spec fn mark_from(s: Seq<u8>, i: int) -> int
    decreases s.len() - i,
{
    if i >= s.len() || is_exponent_mark(s[i]) {
        i
    } else {
        mark_from(s, i + 1)
    }
}

/// The first index at which `s` holds an exponent mark, or the length of
/// `s` when it holds none.
pub open spec fn exponent_mark(s: Seq<u8>) -> int {
    mark_from(s, 0)
}

/// The exponent that `text` names, if it names one: an optional sign and
/// at least one digit.
pub open spec fn exponent_of(text: Seq<u8>) -> Option<int> {
    let signed = text.len() > 0 && (text[0] == MINUS || text[0] == PLUS);
    let digits = if signed {
        text.subrange(1, text.len() as int)
    } else {
        text
    };
    if digits.len() >= 1 && all_digits(digits) {
        if signed && text[0] == MINUS {
            Some(-(digits_value(digits) as int))
        } else {
            Some(digits_value(digits) as int)
        }
    } else {
        None
    }
}

/// The thousandths that unsigned decimal text names, if it is well-formed.
///
/// With `w` digits before the point and an exponent of `e`, the point of
/// the number stands after `w + e` of its digits, and its thousandths are
/// spelled by the three digits more: whatever follows them is cut off.
pub open spec fn unsigned_units(s: Seq<u8>) -> Option<nat> {
    let mark = exponent_mark(s);
    let mantissa = s.subrange(0, mark);
    let point = first_index_of(mantissa, POINT);
    let whole = mantissa.subrange(0, point);
    let fraction = if point < mantissa.len() {
        mantissa.subrange(point + 1, mantissa.len() as int)
    } else {
        Seq::<u8>::empty()
    };
    let exponent = if mark < s.len() {
        exponent_of(s.subrange(mark + 1, s.len() as int))
    } else {
        Some(0int)
    };
    if all_digits(whole) && all_digits(fraction) && whole.len() + fraction.len() >= 1 {
        match exponent {
            Some(e) => Some(digits_upto(whole + fraction, whole.len() + e + 3)),
            None => None,
        }
    } else {
        None
    }
}

/// The measurement that `s` names, if it names one that fits.
pub open spec fn measurement_of(s: Seq<u8>) -> Option<int> {
    let negative = s.len() > 0 && s[0] == MINUS;
    let signed = negative || (s.len() > 0 && s[0] == PLUS);
    let body = if signed {
        s.subrange(1, s.len() as int)
    } else {
        s
    };
    match unsigned_units(body) {
        Some(units) => if negative {
            if units <= MAX_SIZE {
                Some(-(units as int))
            } else {
                None
            }
        } else {
            if units < MAX_SIZE {
                Some(units as int)
            } else {
                None
            }
        },
        None => None,
    }
}

/// `index_from` names the first occurrence at or after `i`.
pub proof fn lemma_index_from(s: Seq<u8>, byte: u8, i: int)
    requires
        0 <= i <= s.len(),
    ensures
        i <= index_from(s, byte, i) <= s.len(),
        index_from(s, byte, i) < s.len() ==> s[index_from(s, byte, i)] == byte,
        forall|j: int| i <= j < index_from(s, byte, i) ==> s[j] != byte,
    decreases s.len() - i,
{
    if i < s.len() && s[i] != byte {
        lemma_index_from(s, byte, i + 1);
    }
}

/// An index that holds `byte`, or the end, with no `byte` before it, is
/// what `first_index_of` names.
pub proof fn lemma_first_index_is(s: Seq<u8>, byte: u8, at: int)
    requires
        0 <= at <= s.len(),
        at < s.len() ==> s[at] == byte,
        forall|j: int| 0 <= j < at ==> s[j] != byte,
    ensures
        first_index_of(s, byte) == at,
{
    lemma_index_from(s, byte, 0);
}

/// `mark_from` names the first exponent mark at or after `i`.
pub proof fn lemma_mark_from(s: Seq<u8>, i: int)
    requires
        0 <= i <= s.len(),
    ensures
        i <= mark_from(s, i) <= s.len(),
        mark_from(s, i) < s.len() ==> is_exponent_mark(s[mark_from(s, i)]),
        forall|j: int| i <= j < mark_from(s, i) ==> !is_exponent_mark(s[j]),
    decreases s.len() - i,
{
    if i < s.len() && !is_exponent_mark(s[i]) {
        lemma_mark_from(s, i + 1);
    }
}

/// Digits after digits spell the number of all of them.
pub proof fn lemma_digits_from_concat(start: nat, a: Seq<u8>, b: Seq<u8>)
    ensures
        digits_from(start, a + b) == digits_from(digits_from(start, a), b),
    decreases b.len(),
{
    if b.len() == 0 {
        assert(a + b =~= a);
    } else {
        assert((a + b).drop_last() =~= a + b.drop_last());
        lemma_digits_from_concat(start, a, b.drop_last());
    }
}

/// Digits spell a number that grows with every digit appended.
pub proof fn lemma_digits_from_grows(start: nat, s: Seq<u8>, k: int)
    requires
        all_digits(s),
        0 <= k <= s.len(),
    ensures
        start <= digits_from(start, s.take(k)) <= digits_from(start, s),
    decreases s.len(),
{
    if s.len() == 0 {
        assert(s.take(k) =~= s);
    } else if k == s.len() {
        assert(s.take(k) =~= s);
        assert(is_digit(s.last()));
        assert(s.drop_last().take(k - 1) =~= s.drop_last());
        assert forall|j: int| 0 <= j < s.drop_last().len() implies is_digit(
            #[trigger] s.drop_last()[j],
        ) by {
            assert(s.drop_last()[j] == s[j]);
        }
        lemma_digits_from_grows(start, s.drop_last(), k - 1);
    } else {
        assert(is_digit(s.last()));
        assert(s.drop_last().take(k) =~= s.take(k));
        assert forall|j: int| 0 <= j < s.drop_last().len() implies is_digit(
            #[trigger] s.drop_last()[j],
        ) by {
            assert(s.drop_last()[j] == s[j]);
        }
        lemma_digits_from_grows(start, s.drop_last(), k);
    }
}

/// Powers of ten are positive and grow with the exponent, and the
/// nineteenth is beyond every measurement.
pub proof fn lemma_pow10_grows(a: nat, b: nat)
    requires
        a <= b,
    ensures
        1 <= pow10(a) <= pow10(b),
        b >= 19 ==> pow10(b) > MAX_SIZE,
    decreases b,
{
    if a < b {
        lemma_pow10_grows(a, (b - 1) as nat);
        if b > 19 {
            lemma_pow10_grows(19, (b - 1) as nat);
        }
    } else if a > 0 {
        lemma_pow10_grows((a - 1) as nat, (a - 1) as nat);
    }
    if b == 19 {
        reveal_with_fuel(pow10, 20);
        assert(pow10(19) == 10_000_000_000_000_000_000);
    }
}

/// Cutting digits off at the end is dividing by a power of ten and
/// dropping the remainder: the first `k` digits spell the number of all the
/// digits over ten to the number of those left out, rounded down.
pub proof fn lemma_digits_cut_off(s: Seq<u8>, k: int)
    requires
        all_digits(s),
        0 <= k <= s.len(),
    ensures
        digits_value(s.take(k)) == digits_value(s) / pow10((s.len() - k) as nat),
    decreases s.len() - k,
{
    if k == s.len() {
        assert(s.take(k) =~= s);
        assert(pow10(0) == 1);
        assert(digits_value(s) / pow10((s.len() - k) as nat) == digits_value(s)) by {
            vstd::arithmetic::div_mod::lemma_div_basics(digits_value(s) as int);
        }
    } else {
        let body = s.drop_last();
        let left = (s.len() - k) as nat;
        let digit = (s.last() - 48) as int;
        assert(is_digit(s.last()));
        assert forall|j: int| 0 <= j < body.len() implies is_digit(#[trigger] body[j]) by {
            assert(body[j] == s[j]);
        }
        assert(body.take(k) =~= s.take(k));
        lemma_digits_cut_off(body, k);
        lemma_pow10_grows(0, (left - 1) as nat);
        let value = digits_value(s) as int;
        let shorter = digits_value(body) as int;
        let power = pow10((left - 1) as nat) as int;
        assert(value == shorter * 10 + digit);
        assert(pow10(left) == 10 * power);
        assert((body.len() - k) as nat == (left - 1) as nat);
        vstd::arithmetic::div_mod::lemma_fundamental_div_mod_converse(value, 10, shorter, digit);
        assert(value / 10 == shorter);
        vstd::arithmetic::div_mod::lemma_div_denominator(value, 10, power);
        assert(shorter / power == value / (10 * power));
        assert(digits_value(body.take(k)) == shorter / power);
        assert(digits_value(s) / pow10(left) == value / (10 * power));
    }
}

/// The thousandths of a number are the number cut off toward zero: with
/// the digits `digits` and its point after `places - 3` of them, they are
/// the digits read as one number, times or over the power of ten that
/// moves the point, rounded down.
pub proof fn law_units_cut_off(digits: Seq<u8>, places: int)
    requires
        all_digits(digits),
    ensures
        places >= digits.len() ==> digits_upto(digits, places) == digits_value(digits) * pow10(
            (places - digits.len()) as nat,
        ),
        places <= digits.len() ==> digits_upto(digits, places) == digits_value(digits) / pow10(
            (digits.len() - places) as nat,
        ),
{
    let value = digits_value(digits) as int;
    if places == digits.len() {
        assert(digits.take(places) =~= digits);
        assert(pow10(0) == 1);
        assert(value * pow10(0) == value) by (nonlinear_arith)
            requires
                pow10(0) == 1,
        ;
        if places <= 0 {
            assert(digits =~= Seq::<u8>::empty());
        }
    } else if 0 < places < digits.len() {
        lemma_digits_cut_off(digits, places);
    } else if places <= 0 {
        let all = pow10(digits.len()) as int;
        let more = pow10((digits.len() - places) as nat) as int;
        lemma_digits_cut_off(digits, 0);
        assert(digits.take(0) =~= Seq::<u8>::empty());
        lemma_pow10_grows(digits.len(), (digits.len() - places) as nat);
        vstd::arithmetic::div_mod::lemma_fundamental_div_mod(value, all);
        vstd::arithmetic::div_mod::lemma_mod_bound(value, all);
        assert(all * 0 == 0);
        vstd::arithmetic::div_mod::lemma_basic_div(value, more);
    }
}

/// Digits with a point among them, however many digits follow the point,
/// are decimal text: they name the thousandths that the digits spell up to
/// the third one after the point.
pub proof fn law_plain_decimal(whole: Seq<u8>, fraction: Seq<u8>)
    requires
        all_digits(whole),
        all_digits(fraction),
        whole.len() + fraction.len() >= 1,
    ensures
        unsigned_units(whole + seq![POINT] + fraction) == Some(
            digits_upto(whole + fraction, whole.len() as int + 3),
        ),
        whole.len() >= 1 ==> unsigned_units(whole) == Some(
            digits_upto(whole, whole.len() as int + 3),
        ),
{
    let text = whole + seq![POINT] + fraction;
    let at = whole.len() as int;
    assert forall|j: int| 0 <= j < text.len() implies !is_exponent_mark(#[trigger] text[j]) by {
        if j < at {
            assert(is_digit(whole[j]));
        } else if j > at {
            assert(is_digit(fraction[j - at - 1]));
        }
    }
    lemma_mark_from(text, 0);
    assert(text.subrange(0, text.len() as int) =~= text);
    assert forall|j: int| 0 <= j < at implies text[j] != POINT by {
        assert(is_digit(whole[j]));
    }
    lemma_first_index_is(text, POINT, at);
    assert(text.subrange(0, at) =~= whole);
    assert(text.subrange(at + 1, text.len() as int) =~= fraction);
    if whole.len() >= 1 {
        assert forall|j: int| 0 <= j < whole.len() implies !is_exponent_mark(#[trigger] whole[j])
            && whole[j] != POINT by {
            assert(is_digit(whole[j]));
        }
        lemma_mark_from(whole, 0);
        assert(whole.subrange(0, whole.len() as int) =~= whole);
        lemma_first_index_is(whole, POINT, whole.len() as int);
        assert(whole + Seq::<u8>::empty() =~= whole);
    }
}

/// An exponent beyond all bounds may be taken for one at the bound: the
/// thousandths are the same, or beyond every measurement both times.
proof fn lemma_bounded_exponent(digits: Seq<u8>, whole: int, exponent: int, bounded: int)
    requires
        all_digits(digits),
        0 <= whole <= digits.len() <= u64::MAX,
        bounded == if exponent > MAX_EXPONENT {
            MAX_EXPONENT as int
        } else if exponent < -MAX_EXPONENT {
            -MAX_EXPONENT
        } else {
            exponent
        },
    ensures
        digits_upto(digits, whole + bounded + 3) <= MAX_SIZE ==> digits_upto(
            digits,
            whole + exponent + 3,
        ) == digits_upto(digits, whole + bounded + 3),
        digits_upto(digits, whole + bounded + 3) > MAX_SIZE ==> digits_upto(
            digits,
            whole + exponent + 3,
        ) > MAX_SIZE,
{
    if exponent > MAX_EXPONENT {
        let near = (whole + bounded + 3 - digits.len()) as nat;
        let far = (whole + exponent + 3 - digits.len()) as nat;
        let value = digits_value(digits);
        lemma_pow10_grows(near, far);
        lemma_pow10_grows(19, near);
        if value == 0 {
            assert(value * pow10(near) == 0) by (nonlinear_arith)
                requires
                    value == 0,
            ;
            assert(value * pow10(far) == 0) by (nonlinear_arith)
                requires
                    value == 0,
            ;
        } else {
            assert(value * pow10(near) >= pow10(near)) by (nonlinear_arith)
                requires
                    value >= 1,
            ;
            assert(value * pow10(far) >= pow10(far)) by (nonlinear_arith)
                requires
                    value >= 1,
            ;
        }
    }
}

/// Returns the first index at which `s` holds `byte`, or its length.
pub fn find_byte(s: &[u8], byte: u8) -> (at: usize)
    ensures
        at == first_index_of(s@, byte),
        at <= s@.len(),
{
    let mut i: usize = 0;
    while i < s.len() && s[i] != byte
        invariant
            i <= s@.len(),
            forall|j: int| 0 <= j < i ==> s@[j] != byte,
        decreases s@.len() - i,
    {
        i = i + 1;
    }
    proof {
        lemma_first_index_is(s@, byte, i as int);
    }
    i
}

/// Returns the first index at which `s` holds an exponent mark, or its
/// length.
fn find_mark(s: &[u8]) -> (at: usize)
    ensures
        at == exponent_mark(s@),
        at <= s@.len(),
{
    let mut i: usize = 0;
    while i < s.len() && s[i] != 101 && s[i] != 69
        invariant
            i <= s@.len(),
            mark_from(s@, 0) == mark_from(s@, i as int),
        decreases s@.len() - i,
    {
        i = i + 1;
    }
    proof {
        lemma_mark_from(s@, i as int);
    }
    i
}

/// Tells whether `s` holds digits only.
fn is_all_digits(s: &[u8]) -> (digits: bool)
    ensures
        digits == all_digits(s@),
{
    let mut i: usize = 0;
    while i < s.len()
        invariant
            i <= s@.len(),
            forall|j: int| 0 <= j < i ==> is_digit(#[trigger] s@[j]),
        decreases s@.len() - i,
    {
        if s[i] < ZERO || s[i] > 57 {
            assert(!is_digit(s@[i as int]));
            return false;
        }
        i = i + 1;
    }
    true
}

/// Reads the digits of `s` on to the number `start`, as long as the number
/// stays within `limit`.
fn extend_digits(start: u128, s: &[u8], limit: u128) -> (value: Option<u128>)
    requires
        all_digits(s@),
        start <= limit <= MAX_EXPONENT,
    ensures
        match value {
            Some(v) => v == digits_from(start as nat, s@) && v <= limit,
            None => digits_from(start as nat, s@) > limit,
        },
{
    let mut total: u128 = start;
    let mut i: usize = 0;
    proof {
        assert(s@.take(0) =~= Seq::<u8>::empty());
    }
    while i < s.len()
        invariant
            i <= s@.len(),
            all_digits(s@),
            limit <= MAX_EXPONENT,
            total == digits_from(start as nat, s@.take(i as int)),
            total <= limit,
        decreases s@.len() - i,
    {
        let byte: u8 = s[i];
        assert(is_digit(s@[i as int]));
        let next: u128 = total * 10 + (byte - ZERO) as u128;
        proof {
            let longer = s@.take(i + 1);
            assert(longer.drop_last() =~= s@.take(i as int));
            assert(longer.last() == byte);
            if next > limit {
                lemma_digits_from_grows(start as nat, s@, i + 1);
            }
        }
        if next > limit {
            return None;
        }
        total = next;
        i = i + 1;
    }
    proof {
        assert(s@.take(i as int) =~= s@);
    }
    Some(total)
}

/// Reads the text of an exponent. An exponent beyond `MAX_EXPONENT` in
/// size comes back as one of that size.
fn parse_exponent(text: &[u8]) -> (exponent: Option<i128>)
    ensures
        match exponent {
            Some(e) => exponent_of(text@) matches Some(x) && e == (if x > MAX_EXPONENT {
                MAX_EXPONENT as int
            } else if x < -MAX_EXPONENT {
                -MAX_EXPONENT
            } else {
                x
            }),
            None => exponent_of(text@).is_none(),
        },
{
    let len: usize = text.len();
    let negative: bool = len > 0 && text[0] == MINUS;
    let signed: bool = negative || (len > 0 && text[0] == PLUS);
    let digits: &[u8] = if signed {
        &text[1..len]
    } else {
        text
    };
    if digits.len() == 0 || !is_all_digits(digits) {
        return None;
    }
    let size: u128 = match extend_digits(0, digits, MAX_EXPONENT) {
        Some(size) => size,
        None => MAX_EXPONENT,
    };
    if negative {
        Some(-(size as i128))
    } else {
        Some(size as i128)
    }
}

/// Spells out the first `places` digits of the digits before and after the
/// point, with zeros where the digits run out.
fn units_upto(whole: &[u8], fraction: &[u8], places: i128) -> (units: Option<u64>)
    requires
        all_digits(whole@),
        all_digits(fraction@),
        -2 * MAX_EXPONENT <= places <= 2 * MAX_EXPONENT,
    ensures
        match units {
            Some(u) => u == digits_upto(whole@ + fraction@, places as int) && u <= MAX_SIZE,
            None => digits_upto(whole@ + fraction@, places as int) > MAX_SIZE,
        },
{
    let ghost digits = whole@ + fraction@;
    let ghost target = digits_upto(digits, places as int);
    if places <= 0 {
        return Some(0);
    }
    let before: i128 = whole.len() as i128;
    let after: i128 = fraction.len() as i128;
    let from_whole: usize = if places < before {
        places as usize
    } else {
        whole.len()
    };
    let in_whole: Option<u128> = extend_digits(0, &whole[0..from_whole], MAX_SIZE);
    let from_fraction: usize = if places <= before {
        0
    } else if places - before < after {
        (places - before) as usize
    } else {
        fraction.len()
    };
    let ghost taken = whole@.take(from_whole as int) + fraction@.take(from_fraction as int);
    proof {
        lemma_digits_from_concat(
            0,
            whole@.take(from_whole as int),
            fraction@.take(from_fraction as int),
        );
        lemma_digits_from_grows(
            digits_value(whole@.take(from_whole as int)),
            fraction@.take(from_fraction as int),
            0,
        );
        if places <= digits.len() {
            assert(digits.take(places as int) =~= taken);
        } else {
            assert(digits =~= taken);
            lemma_pow10_grows(0, (places - digits.len()) as nat);
            assert(target >= digits_value(digits)) by (nonlinear_arith)
                requires
                    target == digits_value(digits) * pow10((places - digits.len()) as nat),
                    pow10((places - digits.len()) as nat) >= 1,
            ;
        }
        assert(whole@.subrange(0, from_whole as int) =~= whole@.take(from_whole as int));
        assert(fraction@.subrange(0, from_fraction as int) =~= fraction@.take(
            from_fraction as int,
        ));
    }
    let so_far: u128 = match in_whole {
        Some(value) => value,
        None => {
            return None;
        },
    };
    let mut size: u128 = match extend_digits(so_far, &fraction[0..from_fraction], MAX_SIZE) {
        Some(value) => value,
        None => {
            return None;
        },
    };
    let mut zeros: i128 = if places > before + after {
        places - before - after
    } else {
        0
    };
    proof {
        if zeros == 0 {
            assert(pow10(0) == 1);
            assert(size == target);
            assert(size * pow10(zeros as nat) == target) by (nonlinear_arith)
                requires
                    size == target,
                    pow10(zeros as nat) == 1,
            ;
        } else {
            assert(zeros == places - digits.len());
            assert(size == digits_value(digits));
        }
    }
    while zeros > 0 && size > 0
        invariant
            0 <= zeros,
            size <= MAX_SIZE,
            size * pow10(zeros as nat) == target,
            target == digits_upto(whole@ + fraction@, places as int),
        decreases zeros,
    {
        let next: u128 = size * 10;
        proof {
            lemma_pow10_grows(0, (zeros - 1) as nat);
            assert(next * pow10((zeros - 1) as nat) == target) by (nonlinear_arith)
                requires
                    next == size * 10,
                    size * pow10(zeros as nat) == target,
                    pow10(zeros as nat) == 10 * pow10((zeros - 1) as nat),
            ;
            assert(next * pow10((zeros - 1) as nat) >= next) by (nonlinear_arith)
                requires
                    pow10((zeros - 1) as nat) >= 1,
            ;
        }
        if next > MAX_SIZE {
            return None;
        }
        size = next;
        zeros = zeros - 1;
    }
    proof {
        if size == 0 {
            assert(size * pow10(zeros as nat) == 0) by (nonlinear_arith)
                requires
                    size == 0,
            ;
        } else {
            assert(pow10(0) == 1);
            assert(size * pow10(zeros as nat) == size) by (nonlinear_arith)
                requires
                    pow10(zeros as nat) == 1,
            ;
        }
    }
    Some(size as u64)
}

/// Reads unsigned decimal text as thousandths, as far as they are within
/// the size of a measurement.
fn parse_unsigned(s: &[u8]) -> (units: Option<u64>)
    ensures
        match units {
            Some(u) => unsigned_units(s@) == Some(u as nat) && u <= MAX_SIZE,
            None => unsigned_units(s@) matches Some(v) ==> v > MAX_SIZE,
        },
{
    let len: usize = s.len();
    let mark: usize = find_mark(s);
    let exponent: i128 = if mark < len {
        match parse_exponent(&s[mark + 1..len]) {
            Some(exponent) => exponent,
            None => {
                return None;
            },
        }
    } else {
        0
    };
    let mantissa: &[u8] = &s[0..mark];
    let point: usize = find_byte(mantissa, POINT);
    let whole: &[u8] = &mantissa[0..point];
    let fraction: &[u8] = if point < mark {
        &mantissa[point + 1..mark]
    } else {
        &mantissa[point..point]
    };
    proof {
        if point >= mark {
            assert(fraction@ =~= Seq::<u8>::empty());
        }
    }
    if !is_all_digits(whole) || !is_all_digits(fraction) {
        return None;
    }
    if whole.len() == 0 && fraction.len() == 0 {
        return None;
    }
    let places: i128 = whole.len() as i128 + exponent + 3;
    proof {
        let named = if mark < len {
            exponent_of(s@.subrange(mark + 1, len as int)).unwrap()
        } else {
            0
        };
        lemma_bounded_exponent(whole@ + fraction@, whole@.len() as int, named, exponent as int);
    }
    units_upto(whole, fraction, places)
}

/// Reads the text of a measurement.
///
/// Returns the measurement in thousandths, or `None` when `s` is not the
/// text of one.
pub fn parse_measurement(s: &[u8]) -> (value: Option<i64>)
    ensures
        match value {
            Some(v) => measurement_of(s@) == Some(v as int),
            None => measurement_of(s@).is_none(),
        },
{
    let len: usize = s.len();
    let negative: bool = len > 0 && s[0] == MINUS;
    let signed: bool = negative || (len > 0 && s[0] == PLUS);
    let body: &[u8] = if signed {
        &s[1..len]
    } else {
        s
    };
    match parse_unsigned(body) {
        Some(units) => if negative {
            if units == 0x8000_0000_0000_0000 {
                Some(i64::MIN)
            } else {
                Some(-(units as i64))
            }
        } else {
            if units == 0x8000_0000_0000_0000 {
                None
            } else {
                Some(units as i64)
            }
        },
        None => None,
    }
}

} // verus!
