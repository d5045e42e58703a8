use onebrc::display::{fmt_duration, push_decimal, push_measurement};
use onebrc::helpers::StationInfo;
use onebrc::order::{key_order, KeyOrder};

fn shown(value: i64) -> String {
    let mut out = Vec::new();
    push_measurement(&mut out, value);
    String::from_utf8(out).unwrap()
}

#[test]
fn durations_show_seconds_and_padded_milliseconds() {
    assert_eq!(fmt_duration(0, 0), "0s 000ms");
    assert_eq!(fmt_duration(3, 42), "3s 042ms");
    assert_eq!(fmt_duration(12, 7), "12s 007ms");
    assert_eq!(fmt_duration(1, 999), "1s 999ms");
    assert_eq!(fmt_duration(0, 1000), "0s 1000ms");
    assert_eq!(
        fmt_duration(u64::MAX, u32::MAX),
        "18446744073709551615s 4294967295ms"
    );
}

#[test]
fn decimal_digits() {
    let mut out = b"n=".to_vec();
    push_decimal(&mut out, 0);
    push_decimal(&mut out, 10);
    push_decimal(&mut out, 907);
    assert_eq!(out, b"n=010907");
}

#[test]
fn measurements_show_one_decimal_place() {
    assert_eq!(shown(0), "0.0");
    assert_eq!(shown(5700), "5.7");
    assert_eq!(shown(-47500), "-47.5");
    assert_eq!(shown(26650), "26.7");
    assert_eq!(shown(26649), "26.6");
    assert_eq!(shown(-20450), "-20.5");
    assert_eq!(shown(-20449), "-20.4");
    assert_eq!(shown(49), "0.0");
    assert_eq!(shown(50), "0.1");
    assert_eq!(shown(-49), "-0.0");
    assert_eq!(shown(999950), "1000.0");
    assert_eq!(shown(i64::MAX), "9223372036854775.8");
    assert_eq!(shown(i64::MIN), "-9223372036854775.8");
}

#[test]
fn a_station_shows_name_smallest_mean_and_largest() {
    let info = StationInfo::new("Aïn el Mediour".as_bytes().to_vec(), 5700, 47600, 26650);
    assert_eq!(
        String::from_utf8(info.render()).unwrap(),
        "Aïn el Mediour=5.7/26.7/47.6"
    );
    assert_eq!(info.name(), "Aïn el Mediour".as_bytes());
    assert_eq!(info.min(), 5700);
    assert_eq!(info.max(), 47600);
    assert_eq!(info.avg(), 26650);
}

#[test]
fn stations_are_equal_by_name() {
    let one = StationInfo::new(b"a".to_vec(), 1, 2, 3);
    let same = StationInfo::new(b"a".to_vec(), 4, 5, 6);
    let other = StationInfo::new(b"b".to_vec(), 1, 2, 3);
    assert_eq!(one, same);
    assert_ne!(one, other);
}

#[test]
fn names_are_ordered_byte_by_byte() {
    assert_eq!(key_order(b"", b""), KeyOrder::Same);
    assert_eq!(key_order(b"", b"a"), KeyOrder::Before);
    assert_eq!(key_order(b"a", b""), KeyOrder::After);
    assert_eq!(key_order(b"abc", b"abd"), KeyOrder::Before);
    assert_eq!(key_order(b"abc", b"ab"), KeyOrder::After);
    assert_eq!(key_order(b"abc", b"abc"), KeyOrder::Same);
    assert_eq!(key_order("Z".as_bytes(), "Å".as_bytes()), KeyOrder::Before);
    assert_eq!(key_order(b"b", b"abc"), KeyOrder::After);
}

#[test]
fn stations_are_ordered_by_name() {
    let a = StationInfo::new(b"a".to_vec(), 9, 9, 9);
    let ab = StationInfo::new(b"ab".to_vec(), 1, 1, 1);
    let b = StationInfo::new(b"b".to_vec(), 5, 5, 5);
    assert!(a < ab && ab < b && a < b);
    assert!(b > a && !(a > b) && a <= a && a >= a);
    assert_eq!(a.partial_cmp(&b), Some(std::cmp::Ordering::Less));
    assert_eq!(b.partial_cmp(&ab), Some(std::cmp::Ordering::Greater));
    assert_eq!(
        a.partial_cmp(&StationInfo::new(b"a".to_vec(), 0, 0, 0)),
        Some(std::cmp::Ordering::Equal)
    );
}
