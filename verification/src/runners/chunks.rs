//! The chunked runner: the input cut into a few large segments, taken one
//! after the other.
use vstd::prelude::*;
use crate::engine::lemma_first_malformed_stays;
use crate::helpers::{ChallengeResult, ChallengeRunner, meets_chunked_challenge};
use crate::planner::{
    Segment,
    boundary,
    lemma_boundaries_ascend,
    missing_boundary,
    partitions,
    plan,
};
use crate::reader::ChunkReader;

verus! {

/// Into how many segments the runner cuts the input unless it is told
/// otherwise.
pub const NUM_CHUNKS: usize = 3;

/// Cuts the input into `NUM_CHUNKS` segments.
pub struct Runner;

/// Cuts `input` into `n` segments at line ends and takes them through one
/// chunk reader, one segment to a read.
pub fn run_with_chunks(input: &[u8], n: usize) -> (outcome: ChallengeResult)
    requires
        n >= 1,
    ensures
        meets_chunked_challenge(outcome, input@, n as nat),
{
    let segments: Vec<Segment> = match plan(input, n) {
        Ok(segments) => segments,
        Err(error) => {
            return Err(error);
        },
    };
    let ghost len = input@.len() as int;
    let mut reader = ChunkReader::new();
    let mut i: usize = 0;
    proof {
        assert(input@.take(0) =~= Seq::<u8>::empty());
    }
    while i < n
        invariant
            i <= n,
            len == input@.len(),
            segments@.len() == n,
            partitions(segments@, len),
            missing_boundary(input@, n as nat).is_none(),
            reader.wf(),
            reader.seen() == input@.take(boundary(segments@, len, i as int)),
        decreases n - i,
    {
        let segment: Segment = segments[i];
        proof {
            vstd::slice::axiom_spec_len(input);
            if i + 1 < n {
                assert(segments@[i as int].end == segments@[i + 1].start);
            }
            lemma_boundaries_ascend(segments@, len, i as int, i + 1);
            assert(input@.take(segment.start as int) + input@.subrange(
                segment.start as int,
                segment.end as int,
            ) =~= input@.take(segment.end as int));
        }
        match reader.feed(&input[segment.start..segment.end]) {
            Ok(()) => {},
            Err(error) => {
                proof {
                    lemma_first_malformed_stays(input@, segment.end as int);
                }
                return Err(error);
            },
        }
        i = i + 1;
    }
    proof {
        assert(input@.take(len) =~= input@);
    }
    match reader.finish() {
        Ok(map) => Ok(map.finalize()),
        Err(error) => Err(error),
    }
}

impl ChallengeRunner for Runner {
    open spec fn segments() -> nat {
        NUM_CHUNKS as nat
    }

    fn run(input: &[u8]) -> (outcome: ChallengeResult)
        ensures
            meets_chunked_challenge(outcome, input@, NUM_CHUNKS as nat),
    {
        run_with_chunks(input, NUM_CHUNKS)
    }
}

} // verus!
