use onebrc::helpers::{ChallengeError, ChallengeRunner, StationInfo};
use onebrc::planner::Segment;
use onebrc::runners::parallel_chunks::{aggregate_segment, collect_shards};
use onebrc::runners::{bigbuf, chunks, parallel_chunks, Baseline, BigBuf, Chunks, ParallelChunks};

const TEST_DATA: &str = "Glens Falls;-47.5
Shimanto;30.3
Zverevo;98.1
Shimanto;74.9
Zverevo;87.6
Aïn el Mediour;47.6
Paidiipalli;91.1
Shimanto;27.5
Aïn el Mediour;5.7
Shimanto;20.9
Glens Falls;6.6
";

fn station(name: &str, min: i64, max: i64, avg: i64) -> StationInfo {
    StationInfo::new(name.as_bytes().to_vec(), min, max, avg)
}

/// The listing that every runner is held to, in thousandths: name, smallest,
/// largest, mean. Results are equal when they name the same station.
fn expected_result() -> Vec<StationInfo> {
    vec![
        station("Aïn el Mediour", 5700, 47600, 26650),
        station("Glens Falls", -47500, 6600, -20450),
        station("Paidiipalli", 91100, 91100, 91100),
        station("Shimanto", 20900, 74900, 38400),
        station("Zverevo", 87600, 87600, 87600),
    ]
}

/// What the measurements of the test data come to, station by station.
fn summaries() -> Vec<StationInfo> {
    vec![
        station("Aïn el Mediour", 5700, 47600, 26650),
        station("Glens Falls", -47500, 6600, -20450),
        station("Paidiipalli", 91100, 91100, 91100),
        station("Shimanto", 20900, 74900, 38400),
        station("Zverevo", 87600, 98100, 92850),
    ]
}

fn assert_same(actual: &[StationInfo], expected: &[StationInfo]) {
    assert_eq!(actual.len(), expected.len());
    for (a, e) in actual.iter().zip(expected.iter()) {
        assert_eq!(a.name(), e.name());
        assert_eq!(a.min(), e.min());
        assert_eq!(a.max(), e.max());
        assert_eq!(a.avg(), e.avg());
    }
}

#[test]
fn bigbuf_correctness() {
    let input = TEST_DATA.as_bytes();

    let actual = BigBuf::run(input).unwrap();
    assert_eq!(
        actual,
        expected_result(),
        "actual != expected for chunks runner"
    );
}

#[test]
fn rustc_hash_correctness() {
    let input = TEST_DATA.as_bytes();

    let actual = Baseline::run(input).unwrap();
    assert_eq!(
        actual,
        expected_result(),
        "actual != expected for baseline runner"
    );
}

#[test]
fn end_to_end_summaries() {
    let input = TEST_DATA.as_bytes();
    assert_same(&Baseline::run(input).unwrap(), &summaries());
    assert_same(&BigBuf::run(input).unwrap(), &summaries());
    let lines: Vec<String> = BigBuf::run(input)
        .unwrap()
        .iter()
        .map(|info| String::from_utf8(info.render()).unwrap())
        .collect();
    assert_eq!(
        lines,
        vec![
            "Aïn el Mediour=5.7/26.7/47.6",
            "Glens Falls=-47.5/-20.5/6.6",
            "Paidiipalli=91.1/91.1/91.1",
            "Shimanto=20.9/38.4/74.9",
            "Zverevo=87.6/92.9/98.1",
        ]
    );
}

#[test]
fn every_capacity_gives_the_same_result() {
    let input = TEST_DATA.as_bytes();
    for capacity in 0..(input.len() + 2) {
        let actual = bigbuf::run_with_capacity(input, capacity).unwrap();
        assert_same(&actual, &summaries());
    }
}

#[test]
fn parallel_equals_sequential() {
    let input = TEST_DATA.as_bytes();
    let sequential = BigBuf::run(input).unwrap();
    for n in [1usize, 2, 3, 7] {
        let parallel = parallel_chunks::run_with_chunks(input, n).unwrap();
        assert_same(&parallel, &sequential);
        let chunked = chunks::run_with_chunks(input, n).unwrap();
        assert_same(&chunked, &sequential);
    }
    assert_same(&Chunks::run(input).unwrap(), &sequential);
    assert_same(&ParallelChunks::run(input).unwrap(), &sequential);
}

#[test]
fn the_number_of_workers_does_not_change_the_result() {
    let input = TEST_DATA.as_bytes();
    for n in [1usize, 2, 3, 7] {
        for workers in [0usize, 1, 2, 5, 100] {
            let parallel = parallel_chunks::run_with_workers(input, n, workers).unwrap();
            assert_same(&parallel, &summaries());
        }
    }
    let segments = onebrc::planner::plan(input, 3).unwrap();
    let in_turn = parallel_chunks::aggregate_segments_in_turn(input, &segments);
    let maps = collect_shards(in_turn).unwrap();
    assert_same(&onebrc::table::merge_all(&maps).finalize(), &summaries());
}

#[test]
fn empty_input_gives_empty_result() {
    assert_eq!(Baseline::run(b"").unwrap().len(), 0);
    assert_eq!(BigBuf::run(b"").unwrap().len(), 0);
    assert_eq!(bigbuf::run_with_capacity(b"", 0).unwrap().len(), 0);
    assert_eq!(parallel_chunks::run_with_chunks(b"", 1).unwrap().len(), 0);
}

#[test]
fn missing_final_newline_is_truncated() {
    let input = b"a;1.0\nb;2.0";
    assert_eq!(Baseline::run(input).unwrap_err(), ChallengeError::TruncatedRecord);
    assert_eq!(
        bigbuf::run_with_capacity(input, 3).unwrap_err(),
        ChallengeError::TruncatedRecord
    );
    assert_eq!(
        parallel_chunks::run_with_chunks(input, 1).unwrap_err(),
        ChallengeError::TruncatedRecord
    );
    assert_eq!(
        chunks::run_with_chunks(input, 1).unwrap_err(),
        ChallengeError::TruncatedRecord
    );
    let accepted = Baseline::run(b"a;1.0\nb;2.0\n").unwrap();
    assert_eq!(accepted.len(), 2);
}

#[test]
fn line_without_separator_is_malformed() {
    assert_eq!(
        Baseline::run(b"no separator here\n").unwrap_err(),
        ChallengeError::MalformedRecord(0)
    );
    let input = b"a;1.0\nbroken\nc;3.0\n";
    for capacity in 1..input.len() + 1 {
        assert_eq!(
            bigbuf::run_with_capacity(input, capacity).unwrap_err(),
            ChallengeError::MalformedRecord(6)
        );
    }
}

#[test]
fn line_longer_than_the_buffer_is_kept_whole() {
    let input = b"A station with quite a long name;12.5\nB;1\n";
    let actual = bigbuf::run_with_capacity(input, 4).unwrap();
    assert_same(
        &actual,
        &[
            station("A station with quite a long name", 12500, 12500, 12500),
            station("B", 1000, 1000, 1000),
        ],
    );
}

#[test]
fn malformed_line_in_a_later_segment_keeps_its_offset() {
    let input = b"a;1\nb;2\nc;3\nd;x\ne;5\nf;6\n";
    let sequential = Baseline::run(input).unwrap_err();
    assert_eq!(sequential, ChallengeError::MalformedRecord(12));
    for n in [1usize, 2, 3] {
        assert_eq!(parallel_chunks::run_with_chunks(input, n).unwrap_err(), sequential);
        assert_eq!(chunks::run_with_chunks(input, n).unwrap_err(), sequential);
    }
}

#[test]
fn probe_without_newline_finds_no_boundary() {
    let input = b"a long first line;1.0\nb;2\n";
    assert_eq!(
        parallel_chunks::run_with_chunks(input, 4).unwrap_err(),
        ChallengeError::NoBoundaryFound(0)
    );
    assert_eq!(
        chunks::run_with_chunks(input, 4).unwrap_err(),
        ChallengeError::NoBoundaryFound(0)
    );
    assert_eq!(
        parallel_chunks::run_with_chunks(b"", 2).unwrap_err(),
        ChallengeError::NoBoundaryFound(0)
    );
}

#[test]
fn a_segment_is_aggregated_as_an_input_of_its_own() {
    let input = b"a;1\nb;2\nc;x\nd;4";
    let map = aggregate_segment(input, Segment { start: 4, end: 8 }).unwrap();
    assert!(map.get(b"a").is_none());
    assert_eq!(map.get(b"b").unwrap().sum, 2000);
    assert_eq!(
        aggregate_segment(input, Segment { start: 4, end: 12 }).err(),
        Some(ChallengeError::MalformedRecord(8))
    );
    assert_eq!(
        aggregate_segment(input, Segment { start: 12, end: 15 }).err(),
        Some(ChallengeError::TruncatedRecord)
    );
    assert!(aggregate_segment(input, Segment { start: 4, end: 4 }).is_ok());
}

#[test]
fn the_first_failed_segment_decides() {
    let input = b"a;1\nb;2\n";
    let whole = Segment { start: 0, end: 8 };
    let maps = collect_shards(vec![
        aggregate_segment(input, whole),
        aggregate_segment(input, whole),
    ])
    .unwrap();
    assert_eq!(maps.len(), 2);
    let failed = collect_shards(vec![
        aggregate_segment(input, whole),
        Err(ChallengeError::MalformedRecord(3)),
        Err(ChallengeError::TruncatedRecord),
    ]);
    assert_eq!(failed.err(), Some(ChallengeError::MalformedRecord(3)));
    assert_eq!(collect_shards(Vec::new()).unwrap().len(), 0);
}

#[test]
fn every_decimal_number_is_a_value() {
    let input = b"a;0.0001\n";
    let listing = Baseline::run(input).unwrap();
    assert_same(&listing, &[station("a", 0, 0, 0)]);
    let input = b"b;1e2\na;0.0001\nb;.5\nb;-2.\na;7.12345\n";
    let expected = [station("a", 0, 7123, 3561), station("b", -2000, 100000, 32833)];
    assert_same(&Baseline::run(input).unwrap(), &expected);
    assert_same(&bigbuf::run_with_capacity(input, 3).unwrap(), &expected);
    assert_same(&parallel_chunks::run_with_chunks(input, 2).unwrap(), &expected);
}
