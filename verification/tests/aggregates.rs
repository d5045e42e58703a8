use onebrc::engine::aggregate;
use onebrc::helpers::ChallengeError;
use onebrc::station::StationData;
use onebrc::table::{merge_all, AggregationMap};

fn fields(data: &StationData) -> (i64, i64, i128, u64) {
    (data.min, data.max, data.sum, data.count)
}

#[test]
fn a_new_summary_holds_one_measurement() {
    let data = StationData::new(-47500);
    assert_eq!(fields(&data), (-47500, -47500, -47500, 1));
    assert_eq!(data.avg(), -47500);
}

#[test]
fn push_keeps_extremes_total_and_count() {
    let mut data = StationData::new(30300);
    data.push(74900);
    data.push(27500);
    data.push(20900);
    assert_eq!(fields(&data), (20900, 74900, 153600, 4));
    assert_eq!(data.avg(), 38400);
}

#[test]
fn the_mean_is_cut_off_toward_zero() {
    let mut data = StationData::new(1);
    data.push(2);
    assert_eq!(data.avg(), 1);
    let mut data = StationData::new(-1);
    data.push(-2);
    assert_eq!(data.avg(), -1);
    let mut data = StationData::new(-3);
    data.push(-3);
    assert_eq!(data.avg(), -3);
    let mut data = StationData::new(-1);
    data.push(2);
    data.push(0);
    assert_eq!(data.avg(), 0);
    let mut data = StationData::new(-2);
    data.push(1);
    data.push(0);
    assert_eq!(data.avg(), 0);
    let mut data = StationData::new(-5);
    data.push(0);
    data.push(0);
    assert_eq!(data.avg(), -1);
}

#[test]
fn the_shown_mean_is_the_exact_mean_rounded() {
    let mut data = StationData::new(-10000);
    for _ in 0..200 {
        data.push(0);
    }
    assert_eq!(data.count, 201);
    assert_eq!(data.avg(), -49);
    let mut shown = Vec::new();
    onebrc::display::push_measurement(&mut shown, data.avg());
    assert_eq!(shown, b"-0.0");
    let mut data = StationData::new(-10050);
    for _ in 0..200 {
        data.push(0);
    }
    assert_eq!(data.avg(), -50);
    let mut shown = Vec::new();
    onebrc::display::push_measurement(&mut shown, data.avg());
    assert_eq!(shown, b"-0.1");
}

#[test]
fn the_mean_lies_between_the_extremes() {
    let mut data = StationData::new(i64::MIN);
    assert_eq!(data.avg(), i64::MIN);
    data.push(i64::MIN);
    data.push(i64::MAX);
    assert!(data.min <= data.avg() && data.avg() <= data.max);
    assert!(data.count >= 1);
    let mut data = StationData::new(i64::MAX);
    data.push(i64::MAX);
    assert_eq!(data.avg(), i64::MAX);
}

#[test]
fn merge_combines_two_summaries() {
    let mut a = StationData::new(5);
    a.push(9);
    let mut b = StationData::new(-3);
    b.push(7);
    b.push(1);
    let merged = a.merge(b);
    assert_eq!(fields(&merged), (-3, 9, 19, 5));
    assert_eq!(fields(&b.merge(a)), fields(&merged));
    let mut pushed = a;
    pushed.push(4);
    assert_eq!(fields(&a.merge(StationData::new(4))), fields(&pushed));
}

#[test]
fn the_map_keeps_one_summary_for_each_station() {
    let mut map = AggregationMap::new();
    assert!(map.get(b"b").is_none());
    map.record(b"b", 1000);
    map.record(b"a", 2000);
    map.record(b"b", 3000);
    map.record(b"c", -4000);
    assert_eq!(fields(&map.get(b"a").unwrap()), (2000, 2000, 2000, 1));
    assert_eq!(fields(&map.get(b"b").unwrap()), (1000, 3000, 4000, 2));
    assert_eq!(fields(&map.get(b"c").unwrap()), (-4000, -4000, -4000, 1));
    assert!(map.get(b"").is_none());
    assert!(map.get(b"ab").is_none());
}

#[test]
fn the_listing_is_ordered_by_name() {
    let mut map = AggregationMap::new();
    for name in ["b", "ab", "", "a", "ba", "Å", "B", "aa"] {
        map.record(name.as_bytes(), 1000);
    }
    let names: Vec<Vec<u8>> = map.finalize().iter().map(|s| s.name().to_vec()).collect();
    let mut sorted = names.clone();
    sorted.sort();
    assert_eq!(names, sorted);
    assert_eq!(names.len(), 8);
    assert_eq!(names[0], b"");
    assert_eq!(names[7], "Å".as_bytes());
}

#[test]
fn the_listing_reports_smallest_mean_and_largest() {
    let mut map = AggregationMap::new();
    map.record(b"x", 5700);
    map.record(b"x", 47600);
    let listing = map.finalize();
    assert_eq!(listing.len(), 1);
    assert_eq!(listing[0].name(), b"x");
    assert_eq!(listing[0].min(), 5700);
    assert_eq!(listing[0].avg(), 26650);
    assert_eq!(listing[0].max(), 47600);
    assert!(listing[0].min() <= listing[0].avg() && listing[0].avg() <= listing[0].max());
    assert_eq!(AggregationMap::new().finalize().len(), 0);
}

fn map_of(buffer: &[u8]) -> AggregationMap {
    let mut map = AggregationMap::new();
    aggregate(&mut map, buffer, 0).unwrap();
    map
}

fn listing_of(map: &AggregationMap) -> Vec<(Vec<u8>, i64, i64, i64)> {
    map.finalize()
        .iter()
        .map(|s| (s.name().to_vec(), s.min(), s.avg(), s.max()))
        .collect()
}

#[test]
fn merging_shards_gives_the_summaries_of_the_whole() {
    let whole = b"a;1\nb;2\na;3\nc;-4\nb;5.5\na;0.1\n";
    let first = map_of(b"a;1\nb;2\n");
    let second = map_of(b"a;3\nc;-4\n");
    let third = map_of(b"b;5.5\na;0.1\n");
    let expected = map_of(whole);
    let merged = merge_all(&vec![first, second, third]);
    assert_eq!(listing_of(&merged), listing_of(&expected));
    for name in [&b"a"[..], b"b", b"c"] {
        assert_eq!(
            fields(&merged.get(name).unwrap()),
            fields(&expected.get(name).unwrap())
        );
    }
    assert_eq!(fields(&merged.get(b"a").unwrap()), (100, 3000, 4100, 3));
}

#[test]
fn merging_does_not_depend_on_the_order_of_the_shards() {
    let one = merge_all(&vec![map_of(b"a;1\nb;2\n"), map_of(b"b;7\n"), map_of(b"")]);
    let other = merge_all(&vec![map_of(b""), map_of(b"b;7\n"), map_of(b"a;1\nb;2\n")]);
    assert_eq!(listing_of(&one), listing_of(&other));
    let pair = map_of(b"a;1\nb;2\n").merge(&map_of(b"b;7\nz;0\n"));
    let riap = map_of(b"b;7\nz;0\n").merge(&map_of(b"a;1\nb;2\n"));
    assert_eq!(listing_of(&pair), listing_of(&riap));
    assert_eq!(listing_of(&merge_all(&Vec::new())), Vec::new());
}

#[test]
fn aggregate_stops_at_the_first_malformed_line() {
    let mut map = AggregationMap::new();
    let outcome = aggregate(&mut map, b"a;1\nb;2\nbad\nc;3\nworse\n", 100);
    assert_eq!(outcome, Err(ChallengeError::MalformedRecord(108)));
    assert!(map.get(b"a").is_some());
    assert!(map.get(b"b").is_some());
    assert!(map.get(b"c").is_none());
}

#[test]
fn aggregate_leaves_a_partial_line_alone() {
    let mut map = AggregationMap::new();
    assert_eq!(aggregate(&mut map, b"a;1\nb;2", 0), Ok(()));
    assert!(map.get(b"a").is_some());
    assert!(map.get(b"b").is_none());
    assert_eq!(aggregate(&mut map, b"", 0), Ok(()));
    assert_eq!(
        aggregate(&mut map, b"\n", 7),
        Err(ChallengeError::MalformedRecord(7))
    );
}

#[test]
fn the_order_of_the_records_does_not_matter() {
    let one = map_of(b"a;1\nb;2\na;3\nc;-4\nb;5.5\na;0.1\n");
    let other = map_of(b"b;5.5\na;0.1\nc;-4\na;3\na;1\nb;2\n");
    assert_eq!(listing_of(&one), listing_of(&other));
    for name in [&b"a"[..], b"b", b"c"] {
        assert_eq!(
            fields(&one.get(name).unwrap()),
            fields(&other.get(name).unwrap())
        );
    }
}
