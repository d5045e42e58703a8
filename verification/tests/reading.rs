use onebrc::helpers::ChallengeError;
use onebrc::lines::{find_last_newline, get_measurement_lines, last_chunk_newline_idx};
use onebrc::planner::{find_chunk_boundaries, plan, Segment};
use onebrc::reader::ChunkReader;

#[test]
fn the_last_newline_is_found_from_the_end() {
    assert_eq!(find_last_newline(b""), None);
    assert_eq!(find_last_newline(b"abc"), None);
    assert_eq!(find_last_newline(b"\n"), Some(0));
    assert_eq!(find_last_newline(b"a\nb\nc"), Some(3));
    assert_eq!(last_chunk_newline_idx(b"a\nb\nc"), 3);
    assert_eq!(last_chunk_newline_idx(b"a\n"), 1);
}

#[test]
fn splitting_an_empty_buffer_gives_two_empty_parts() {
    let (complete, partial) = get_measurement_lines(b"");
    assert!(complete.is_empty());
    assert!(partial.is_empty());
}

#[test]
fn splitting_the_joined_parts_reproduces_them() {
    for buffer in [&b"a;1\nb;2\nc;"[..], b"a;1\n", b"abc", b"", b"\n\n", b"\nx"] {
        let (complete, partial) = get_measurement_lines(buffer);
        let joined = [complete, partial].concat();
        assert_eq!(joined, buffer);
        let (again_complete, again_partial) = get_measurement_lines(&joined);
        assert_eq!(again_complete, complete);
        assert_eq!(again_partial, partial);
    }
}

#[test]
fn the_reader_carries_partial_lines_over() {
    let mut reader = ChunkReader::new();
    assert!(reader.leftover().is_empty());
    reader.feed(b"Shim").unwrap();
    assert_eq!(reader.leftover(), b"Shim");
    reader.feed(b"anto;30").unwrap();
    assert_eq!(reader.leftover(), b"Shimanto;30");
    reader.feed(b".3\nZver").unwrap();
    assert_eq!(reader.leftover(), b"Zver");
    reader.feed(b"evo;98.1\n").unwrap();
    assert!(reader.leftover().is_empty());
    reader.feed(b"").unwrap();
    let map = reader.finish().unwrap();
    assert_eq!(map.get(b"Shimanto").unwrap().sum, 30300);
    assert_eq!(map.get(b"Zverevo").unwrap().sum, 98100);
}

#[test]
fn the_reader_rejects_an_unfinished_last_line() {
    let mut reader = ChunkReader::new();
    reader.feed(b"a;1\nb;2").unwrap();
    assert_eq!(reader.finish().err(), Some(ChallengeError::TruncatedRecord));
    let mut reader = ChunkReader::new();
    reader.feed(b"a;1\nb;2\n").unwrap();
    assert!(reader.finish().is_ok());
    assert!(ChunkReader::new().finish().is_ok());
}

#[test]
fn the_reader_reports_malformed_lines_by_their_offset() {
    let mut reader = ChunkReader::new();
    reader.feed(b"a;1\nbro").unwrap();
    assert_eq!(
        reader.feed(b"ken\nc;3\n"),
        Err(ChallengeError::MalformedRecord(4))
    );
}

#[test]
fn boundaries_fall_after_newlines() {
    let input = b"a;1\nb;2\nc;3\nd;4\ne;5\nf;6\n";
    assert_eq!(find_chunk_boundaries(input, 1), Ok(vec![0]));
    assert_eq!(find_chunk_boundaries(input, 2), Ok(vec![0, 12]));
    assert_eq!(find_chunk_boundaries(input, 3), Ok(vec![0, 8, 16]));
    assert_eq!(find_chunk_boundaries(input, 4), Ok(vec![0, 4, 8, 12]));
    assert_eq!(
        plan(input, 3),
        Ok(vec![
            Segment { start: 0, end: 8 },
            Segment { start: 8, end: 16 },
            Segment { start: 16, end: 24 },
        ])
    );
    assert_eq!(plan(input, 1), Ok(vec![Segment { start: 0, end: 24 }]));
}

#[test]
fn segments_partition_the_source() {
    let input = b"first;1\nsecond line;2\n3;3\nfourth;4.4\nfifth;5\nsixth one;6\nseventh;7\n";
    for n in 1..input.len() + 2 {
        match plan(input, n) {
            Ok(segments) => {
                assert_eq!(segments.len(), n);
                assert_eq!(segments[0].start, 0);
                assert_eq!(segments[n - 1].end, input.len());
                for i in 0..n {
                    assert!(segments[i].start <= segments[i].end);
                    if i + 1 < n {
                        assert_eq!(segments[i].end, segments[i + 1].start);
                    }
                    if segments[i].start > 0 {
                        assert_eq!(input[segments[i].start - 1], b'\n');
                    }
                }
            }
            Err(error) => assert!(matches!(error, ChallengeError::NoBoundaryFound(_))),
        }
    }
}

#[test]
fn a_probe_without_newline_fails_the_plan() {
    let input = b"a;1\na very long second line;2\nc;3\n";
    assert_eq!(
        find_chunk_boundaries(input, 4),
        Err(ChallengeError::NoBoundaryFound(1))
    );
    assert_eq!(plan(input, 4), Err(ChallengeError::NoBoundaryFound(1)));
    assert_eq!(plan(b"abc", 2), Err(ChallengeError::NoBoundaryFound(0)));
    assert_eq!(plan(b"", 3), Err(ChallengeError::NoBoundaryFound(0)));
    assert_eq!(plan(b"", 1), Ok(vec![Segment { start: 0, end: 0 }]));
    assert_eq!(plan(b"abc", 1), Ok(vec![Segment { start: 0, end: 3 }]));
}
