use onebrc::measurement::{find_byte, parse_measurement};
use onebrc::record::parse_record;

#[test]
fn measurements_are_thousandths() {
    assert_eq!(parse_measurement(b"0"), Some(0));
    assert_eq!(parse_measurement(b"7"), Some(7000));
    assert_eq!(parse_measurement(b"-47.5"), Some(-47500));
    assert_eq!(parse_measurement(b"+47.5"), Some(47500));
    assert_eq!(parse_measurement(b"30.3"), Some(30300));
    assert_eq!(parse_measurement(b"1.25"), Some(1250));
    assert_eq!(parse_measurement(b"1.255"), Some(1255));
    assert_eq!(parse_measurement(b"007.050"), Some(7050));
    assert_eq!(parse_measurement(b"-0.0"), Some(0));
    assert_eq!(parse_measurement(b"-0.001"), Some(-1));
}

#[test]
fn a_digit_on_one_side_of_the_point_is_enough() {
    assert_eq!(parse_measurement(b".5"), Some(500));
    assert_eq!(parse_measurement(b"5."), Some(5000));
    assert_eq!(parse_measurement(b"-.25"), Some(-250));
    assert_eq!(parse_measurement(b"+12."), Some(12000));
    assert_eq!(parse_measurement(b"."), None);
    assert_eq!(parse_measurement(b"-."), None);
}

#[test]
fn digits_beyond_the_thousandths_are_cut_off() {
    assert_eq!(parse_measurement(b"0.0001"), Some(0));
    assert_eq!(parse_measurement(b"1.2345"), Some(1234));
    assert_eq!(parse_measurement(b"1.2349999999999999999999999999"), Some(1234));
    assert_eq!(parse_measurement(b"-1.2349"), Some(-1234));
    assert_eq!(parse_measurement(b"-0.0009"), Some(0));
    assert_eq!(parse_measurement(b"26.65000000000000000000000000000000000000"), Some(26650));
    assert_eq!(
        parse_measurement(b"0.00000000000000000000000000000000000000000000001"),
        Some(0)
    );
}

#[test]
fn exponents_move_the_point() {
    assert_eq!(parse_measurement(b"1e3"), Some(1_000_000));
    assert_eq!(parse_measurement(b"1E3"), Some(1_000_000));
    assert_eq!(parse_measurement(b"1e+3"), Some(1_000_000));
    assert_eq!(parse_measurement(b"1.5e2"), Some(150_000));
    assert_eq!(parse_measurement(b"-1.5e2"), Some(-150_000));
    assert_eq!(parse_measurement(b"1e0"), Some(1000));
    assert_eq!(parse_measurement(b"1e-0"), Some(1000));
    assert_eq!(parse_measurement(b"1e-3"), Some(1));
    assert_eq!(parse_measurement(b"1e-4"), Some(0));
    assert_eq!(parse_measurement(b"12345e-2"), Some(123450));
    assert_eq!(parse_measurement(b"12345e-7"), Some(1));
    assert_eq!(parse_measurement(b"12345e-8"), Some(0));
    assert_eq!(parse_measurement(b"123.456789e3"), Some(123_456_789));
    assert_eq!(parse_measurement(b".5e1"), Some(5000));
    assert_eq!(parse_measurement(b"5.e1"), Some(50000));
    assert_eq!(parse_measurement(b"1e0000000000000000000000000000000000002"), Some(100_000));
    assert_eq!(
        parse_measurement(b"10000000000000000000000000000000000000000e-40"),
        Some(1000)
    );
}

#[test]
fn exponents_beyond_all_bounds() {
    assert_eq!(
        parse_measurement(b"0e99999999999999999999999999999999999999999999"),
        Some(0)
    );
    assert_eq!(
        parse_measurement(b"0.000e99999999999999999999999999999999999999999999"),
        Some(0)
    );
    assert_eq!(
        parse_measurement(b"1e99999999999999999999999999999999999999999999"),
        None
    );
    assert_eq!(
        parse_measurement(b"-0.001e99999999999999999999999999999999999999999999"),
        None
    );
    assert_eq!(
        parse_measurement(b"987e-99999999999999999999999999999999999999999999"),
        Some(0)
    );
    assert_eq!(parse_measurement(b"1e16"), None);
    assert_eq!(parse_measurement(b"1e15"), Some(1_000_000_000_000_000_000));
}

#[test]
fn measurements_at_the_limit() {
    assert_eq!(parse_measurement(b"9223372036854775.807"), Some(i64::MAX));
    assert_eq!(parse_measurement(b"9223372036854775.8079"), Some(i64::MAX));
    assert_eq!(parse_measurement(b"9223372036854775.808"), None);
    assert_eq!(parse_measurement(b"-9223372036854775.808"), Some(i64::MIN));
    assert_eq!(parse_measurement(b"-9223372036854775.8089"), Some(i64::MIN));
    assert_eq!(parse_measurement(b"-9223372036854775.809"), None);
    assert_eq!(parse_measurement(b"9223372036854775807e-3"), Some(i64::MAX));
    assert_eq!(parse_measurement(b"10000000000000000"), None);
    assert_eq!(parse_measurement(b"99999999999999999999999999999999"), None);
    assert_eq!(parse_measurement(b"-99999999999999999999999999999999"), None);
}

#[test]
fn text_that_is_no_measurement() {
    for text in [
        &b""[..],
        b"-",
        b"+",
        b".",
        b"e5",
        b".e5",
        b"+.e1",
        b"1e",
        b"1e+",
        b"1e-",
        b"1e5.5",
        b"1e5e5",
        b"1e 5",
        b"1..2",
        b"1.2.3",
        b"--1",
        b"+-1",
        b"1e--1",
        b"NaN",
        b"nan",
        b"inf",
        b"Infinity",
        b"-inf",
        b" 1.0",
        b"1.0 ",
        b"1.0\r",
        b"1,0",
        b"12a",
        b"1.-2",
        b"0x10",
        b"1_000",
    ] {
        assert_eq!(parse_measurement(text), None, "{:?}", text);
    }
}

#[test]
fn find_byte_names_the_first_or_the_end() {
    assert_eq!(find_byte(b"a;b;c", b';'), 1);
    assert_eq!(find_byte(b";", b';'), 0);
    assert_eq!(find_byte(b"abc", b';'), 3);
    assert_eq!(find_byte(b"", b';'), 0);
}

#[test]
fn records_split_at_the_first_separator() {
    assert_eq!(
        parse_record("Aïn el Mediour;47.6".as_bytes()),
        Some(("Aïn el Mediour".as_bytes(), 47600))
    );
    assert_eq!(parse_record(b"a;-1"), Some((&b"a"[..], -1000)));
    assert_eq!(parse_record(b" a ;1"), Some((&b" a "[..], 1000)));
}

#[test]
fn malformed_records() {
    assert_eq!(parse_record(b""), None);
    assert_eq!(parse_record(b"no separator"), None);
    assert_eq!(parse_record(b";1.0"), None);
    assert_eq!(parse_record(b"a;"), None);
    assert_eq!(parse_record(b"a;b"), None);
    assert_eq!(parse_record(b"a;1.0;2.0"), None);
    assert_eq!(parse_record(b"a;1.0;"), None);
    assert_eq!(parse_record(b"a; 1.0"), None);
    assert_eq!(parse_record(b"a;NaN"), None);
    assert_eq!(parse_record(b"a;inf"), None);
}
