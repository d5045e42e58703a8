//! Results as text: measurements to one decimal place, and durations.
use vstd::prelude::*;
use vstd::string::StringExecFns;
use crate::helpers::StationInfo;
use crate::measurement::{MINUS, POINT, ZERO};

verus! {

/// The sign between a station name and its numbers.
pub const EQUALS: u8 = 61;

/// The sign between two numbers of one station.
pub const SLASH: u8 = 47;

/// The decimal digits of `n`, without leading zeros.
pub open spec fn decimal_text(n: nat) -> Seq<u8>
    decreases n,
{
    if n < 10 {
        seq![(48 + n) as u8]
    } else {
        decimal_text(n / 10).push((48 + n % 10) as u8)
    }
}

/// The size of `value` in tenths, rounded to the nearest tenth; a value
/// halfway between two tenths goes to the one farther from zero.
pub open spec fn rounded_tenths(value: int) -> nat {
    if value < 0 {
        ((-value + 50) / 100) as nat
    } else {
        ((value + 50) / 100) as nat
    }
}

/// A measurement of `value` thousandths with one decimal place: a minus
/// sign if the value is negative, the whole part, a point and one digit.
pub open spec fn measurement_text(value: int) -> Seq<u8> {
    let tenths = rounded_tenths(value);
    let sign = if value < 0 {
        seq![MINUS]
    } else {
        Seq::<u8>::empty()
    };
    sign + decimal_text(tenths / 10).push(POINT).push((48 + tenths % 10) as u8)
}

/// The line of one station: the name, an equals sign, and the smallest, the
/// mean and the largest measurement with slashes between them.
pub open spec fn station_text(info: StationInfo) -> Seq<u8> {
    info.name@ + seq![EQUALS] + measurement_text(info.min as int) + seq![SLASH] + measurement_text(
        info.avg as int,
    ) + seq![SLASH] + measurement_text(info.max as int)
}

/// The milliseconds of a duration: at least three digits, with zeros in
/// front where the number has fewer.
pub open spec fn padded_millis(millis: nat) -> Seq<u8> {
    if millis < 10 {
        seq![ZERO, ZERO] + decimal_text(millis)
    } else if millis < 100 {
        seq![ZERO] + decimal_text(millis)
    } else {
        decimal_text(millis)
    }
}

/// A duration as seconds and milliseconds, such as `3s 042ms`.
pub open spec fn duration_text(seconds: nat, millis: nat) -> Seq<u8> {
    decimal_text(seconds) + seq![115u8, 32u8] + padded_millis(millis) + seq![109u8, 115u8]
}

/// The characters that the bytes of plain text stand for.
pub open spec fn as_chars(bytes: Seq<u8>) -> Seq<char> {
    Seq::new(bytes.len(), |i: int| bytes[i] as char)
}

/// A byte that the text of a duration may hold: a digit, a space, or one
/// of the letters of its units.
pub open spec fn is_duration_byte(byte: u8) -> bool {
    48 <= byte <= 57 || byte == 32 || byte == 109 || byte == 115
}

/// Decimal text holds digits only.
pub proof fn lemma_decimal_text_digits(n: nat)
    ensures
        decimal_text(n).len() >= 1,
        forall|i: int|
            0 <= i < decimal_text(n).len() ==> 48 <= #[trigger] decimal_text(n)[i] <= 57,
    decreases n,
{
    if n >= 10 {
        lemma_decimal_text_digits(n / 10);
    }
}

/// Appends the decimal digits of `n` to `out`.
pub fn push_decimal(out: &mut Vec<u8>, n: u64)
    ensures
        final(out)@ == old(out)@ + decimal_text(n as nat),
    decreases n,
{
    if n >= 10 {
        push_decimal(out, n / 10);
    }
    out.push(ZERO + (n % 10) as u8);
    proof {
        assert(final(out)@ =~= old(out)@ + decimal_text(n as nat));
    }
}

/// Appends a measurement to `out`, rounded to one decimal place.
pub fn push_measurement(out: &mut Vec<u8>, value: i64)
    ensures
        final(out)@ == old(out)@ + measurement_text(value as int),
{
    let size: u64 = if value < 0 {
        (-(value + 1)) as u64 + 1
    } else {
        value as u64
    };
    let tenths: u64 = (size + 50) / 100;
    if value < 0 {
        out.push(MINUS);
    }
    push_decimal(out, tenths / 10);
    out.push(POINT);
    out.push(ZERO + (tenths % 10) as u8);
    proof {
        assert(tenths == rounded_tenths(value as int));
        assert(final(out)@ =~= old(out)@ + measurement_text(value as int));
    }
}

impl StationInfo {
    /// The line of this station as text, its numbers rounded to one decimal
    /// place.
    pub fn render(&self) -> (text: Vec<u8>)
        ensures
            text@ == station_text(*self),
    {
        let mut text: Vec<u8> = Vec::new();
        text.extend_from_slice(self.name.as_slice());
        text.push(EQUALS);
        push_measurement(&mut text, self.min);
        text.push(SLASH);
        push_measurement(&mut text, self.avg);
        text.push(SLASH);
        push_measurement(&mut text, self.max);
        proof {
            assert(text@ =~= station_text(*self));
        }
        text
    }
}

/// The text of one byte of a duration.
fn duration_byte_text(byte: u8) -> (text: &'static str)
    requires
        is_duration_byte(byte),
    ensures
        text@ == seq![byte as char],
{
    proof {
        reveal_strlit("0");
        reveal_strlit("1");
        reveal_strlit("2");
        reveal_strlit("3");
        reveal_strlit("4");
        reveal_strlit("5");
        reveal_strlit("6");
        reveal_strlit("7");
        reveal_strlit("8");
        reveal_strlit("9");
        reveal_strlit(" ");
        reveal_strlit("m");
        reveal_strlit("s");
    }
    let text: &'static str = if byte == 48 {
        "0"
    } else if byte == 49 {
        "1"
    } else if byte == 50 {
        "2"
    } else if byte == 51 {
        "3"
    } else if byte == 52 {
        "4"
    } else if byte == 53 {
        "5"
    } else if byte == 54 {
        "6"
    } else if byte == 55 {
        "7"
    } else if byte == 56 {
        "8"
    } else if byte == 57 {
        "9"
    } else if byte == 32 {
        " "
    } else if byte == 109 {
        "m"
    } else {
        "s"
    };
    assert(text@ =~= seq![byte as char]);
    text
}

/// Formats a duration of `seconds` whole seconds and `millis` milliseconds
/// beyond them: the seconds, `s`, a space, the milliseconds in at least
/// three digits, and `ms`.
pub fn fmt_duration(seconds: u64, millis: u32) -> (text: String)
    ensures
        text@ == as_chars(duration_text(seconds as nat, millis as nat)),
{
    let mut bytes: Vec<u8> = Vec::new();
    push_decimal(&mut bytes, seconds);
    bytes.push(115);
    bytes.push(32);
    if millis < 100 {
        bytes.push(ZERO);
    }
    if millis < 10 {
        bytes.push(ZERO);
    }
    push_decimal(&mut bytes, millis as u64);
    bytes.push(109);
    bytes.push(115);
    proof {
        lemma_decimal_text_digits(seconds as nat);
        lemma_decimal_text_digits(millis as nat);
        assert(bytes@ =~= duration_text(seconds as nat, millis as nat));
    }
    let mut text = String::new();
    let mut i: usize = 0;
    while i < bytes.len()
        invariant
            i <= bytes@.len(),
            forall|j: int| 0 <= j < bytes@.len() ==> is_duration_byte(#[trigger] bytes@[j]),
            text@ == as_chars(bytes@.take(i as int)),
        decreases bytes@.len() - i,
    {
        text.append(duration_byte_text(bytes[i]));
        proof {
            assert(text@ =~= as_chars(bytes@.take(i + 1)));
        }
        i = i + 1;
    }
    proof {
        assert(bytes@.take(i as int) =~= bytes@);
    }
    text
}

} // verus!
