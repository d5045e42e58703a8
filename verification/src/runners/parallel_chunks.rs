//! The parallel runner: the input cut into segments, every segment
//! aggregated by a worker of its own, and the shards merged at the end.
use rayon::iter::{IntoParallelRefIterator, ParallelIterator};
use vstd::prelude::*;
use crate::engine::{
    first_malformed,
    lemma_first_malformed_concat,
    lemma_first_malformed_stays,
    lemma_records_bounded,
    lemma_records_concat,
    records_of,
    tally_of,
};
use crate::helpers::{ChallengeError, ChallengeResult, ChallengeRunner, meets_chunked_challenge};
use crate::laws::law_two_shards;
use crate::lines::ends_lines;
use crate::planner::{
    Segment,
    boundary,
    lemma_boundaries_ascend,
    partitions,
    plan,
};
use crate::reader::ChunkReader;
use crate::table::{AggregationMap, merge_all, tally_merge_all, total_records, views};

verus! {

/// Into how many segments the runner cuts the input unless it is told
/// otherwise.
pub const NUM_CHUNKS: usize = 4;

/// How many segments are aggregated at the same time unless the runner is
/// told otherwise.
pub const PARALLEL_CHUNKS: usize = 2;

/// Cuts the input into `NUM_CHUNKS` segments and aggregates them side by
/// side, `PARALLEL_CHUNKS` at a time.
pub struct Runner;

/// A pool of worker threads, as rayon keeps it.
#[verifier::external_type_specification]
#[verifier::external_body]
pub struct ExThreadPool(rayon::ThreadPool);

/// Why rayon could not set up a pool.
#[verifier::external_type_specification]
#[verifier::external_body]
pub struct ExThreadPoolBuildError(rayon::ThreadPoolBuildError);

/// `outcome` is what the aggregation of one segment of `input`, taken as
/// an input of its own, owes: its summaries, or the first thing wrong with
/// it. A malformed line is reported by its offset in `input`.
pub open spec fn is_segment_outcome(
    outcome: Result<AggregationMap, ChallengeError>,
    input: Seq<u8>,
    segment: Segment,
) -> bool {
    let part = input.subrange(segment.start as int, segment.end as int);
    match first_malformed(part) {
        Some(at) => outcome matches Err(ChallengeError::MalformedRecord(offset)) && offset
            == segment.start + at,
        None => if ends_lines(part) {
            &&& outcome matches Ok(map)
            &&& map.wf()
            &&& map@ == tally_of(records_of(part))
            &&& map.records() == records_of(part).len()
        } else {
            outcome matches Err(ChallengeError::TruncatedRecord)
        },
    }
}

/// Aggregates one segment of `input` with a chunk reader of its own, which
/// starts without a partial line.
pub fn aggregate_segment(input: &[u8], segment: Segment) -> (outcome: Result<
    AggregationMap,
    ChallengeError,
>)
    requires
        segment.start <= segment.end <= input@.len(),
    ensures
        is_segment_outcome(outcome, input@, segment),
{
    let mut reader = ChunkReader::new();
    let part: &[u8] = &input[segment.start..segment.end];
    proof {
        assert(reader.seen() + part@ =~= part@);
        lemma_records_bounded(part@);
    }
    match reader.feed(part) {
        Ok(()) => {},
        Err(error) => match error {
            ChallengeError::MalformedRecord(offset) => {
                return Err(ChallengeError::MalformedRecord(segment.start + offset));
            },
            _ => {
                return Err(error);
            },
        },
    }
    reader.finish()
}

/// Asks rayon for a pool of its own with
/// `ThreadPoolBuilder::new().num_threads(workers).build()`. With `workers`
/// at zero rayon chooses the number of threads itself. Whether the threads
/// can be had is up to the machine, so nothing is claimed of the outcome.
#[verifier::external_body]
fn build_pool(workers: usize) -> (pool: Result<rayon::ThreadPool, rayon::ThreadPoolBuildError>) {
    rayon::ThreadPoolBuilder::new().num_threads(workers).build()
}

/// Hands every segment to rayon's `par_iter().map(..).collect()` inside
/// `ThreadPool::install`, which runs `aggregate_segment` on each of them on
/// the threads of `pool` and collects what they return into a vector. The
/// contract claims of rayon that the vector holds one outcome for each
/// segment, in the order of the segments, and that each is what
/// `aggregate_segment` returned for that segment.
#[verifier::external_body]
fn aggregate_segments(pool: &rayon::ThreadPool, input: &[u8], segments: &Vec<Segment>) -> (shards:
    Vec<Result<AggregationMap, ChallengeError>>)
    requires
        forall|i: int|
            0 <= i < segments@.len() ==> (#[trigger] segments@[i]).start <= segments@[i].end
                <= input@.len(),
    ensures
        shards@.len() == segments@.len(),
        forall|i: int|
            0 <= i < shards@.len() ==> is_segment_outcome(
                #[trigger] shards@[i],
                input@,
                segments@[i],
            ),
{
    pool.install(|| segments.par_iter().map(|segment| aggregate_segment(input, *segment)).collect())
}

/// Aggregates the segments one after the other on the calling thread.
pub fn aggregate_segments_in_turn(input: &[u8], segments: &Vec<Segment>) -> (shards: Vec<
    Result<AggregationMap, ChallengeError>,
>)
    requires
        forall|i: int|
            0 <= i < segments@.len() ==> (#[trigger] segments@[i]).start <= segments@[i].end
                <= input@.len(),
    ensures
        shards@.len() == segments@.len(),
        forall|i: int|
            0 <= i < shards@.len() ==> is_segment_outcome(
                #[trigger] shards@[i],
                input@,
                segments@[i],
            ),
{
    let mut shards: Vec<Result<AggregationMap, ChallengeError>> = Vec::new();
    let mut i: usize = 0;
    while i < segments.len()
        invariant
            i <= segments@.len(),
            shards@.len() == i,
            forall|j: int|
                0 <= j < segments@.len() ==> (#[trigger] segments@[j]).start <= segments@[j].end
                    <= input@.len(),
            forall|j: int|
                0 <= j < i ==> is_segment_outcome(#[trigger] shards@[j], input@, segments@[j]),
        decreases segments@.len() - i,
    {
        shards.push(aggregate_segment(input, segments[i]));
        i = i + 1;
    }
    shards
}

/// Takes the maps out of the outcomes of the workers, or the first error
/// in the order of the segments.
pub fn collect_shards(shards: Vec<Result<AggregationMap, ChallengeError>>) -> (outcome: Result<
    Vec<AggregationMap>,
    ChallengeError,
>)
    ensures
        match outcome {
            Ok(maps) => {
                &&& maps@.len() == shards@.len()
                &&& forall|i: int| 0 <= i < maps@.len() ==> shards@[i] == Ok::<
                    AggregationMap,
                    ChallengeError,
                >(#[trigger] maps@[i])
            },
            Err(error) => exists|i: int|
                {
                    &&& 0 <= i < shards@.len()
                    &&& #[trigger] shards@[i] == Err::<AggregationMap, ChallengeError>(error)
                    &&& forall|j: int| 0 <= j < i ==> (#[trigger] shards@[j]).is_ok()
                },
        },
{
    let mut maps: Vec<AggregationMap> = Vec::new();
    for shard in iter: shards
        invariant
            iter.seq() == shards@,
            maps@.len() == iter.index(),
            forall|j: int|
                0 <= j < maps@.len() ==> shards@[j] == Ok::<AggregationMap, ChallengeError>(
                    #[trigger] maps@[j],
                ),
    {
        match shard {
            Ok(map) => {
                maps.push(map);
            },
            Err(error) => {
                proof {
                    let at = maps@.len() as int;
                    assert(shards@[at] == Err::<AggregationMap, ChallengeError>(error));
                    assert forall|j: int| 0 <= j < at implies (#[trigger] shards@[j]).is_ok() by {
                        assert(shards@[j] == Ok::<AggregationMap, ChallengeError>(maps@[j]));
                    }
                }
                return Err(error);
            },
        }
    }
    Ok(maps)
}

/// The workers' outcomes belong to a plan for `input`: the segments
/// partition it, each begins at the beginning of a line, and each has the
/// outcome of its own aggregation.
pub open spec fn shards_of_plan(
    shards: Seq<Result<AggregationMap, ChallengeError>>,
    segments: Seq<Segment>,
    input: Seq<u8>,
) -> bool {
    &&& shards.len() == segments.len()
    &&& partitions(segments, input.len() as int)
    &&& forall|i: int|
        0 <= i < segments.len() ==> ends_lines(input.take((#[trigger] segments[i]).start as int))
    &&& forall|i: int|
        0 <= i < shards.len() ==> is_segment_outcome(#[trigger] shards[i], input, segments[i])
}

/// The segment of index `i` reaches from its boundary to the next, so the
/// input up to the next boundary is the input up to this one followed by
/// the segment.
proof fn lemma_segment_extends(segments: Seq<Segment>, input: Seq<u8>, i: int)
    requires
        partitions(segments, input.len() as int),
        0 <= i < segments.len(),
    ensures
        segments[i].start == boundary(segments, input.len() as int, i),
        segments[i].end == boundary(segments, input.len() as int, i + 1),
        segments[i].start <= segments[i].end <= input.len(),
        input.take(segments[i].end as int) == input.take(segments[i].start as int)
            + input.subrange(segments[i].start as int, segments[i].end as int),
{
    if i + 1 < segments.len() {
        assert(segments[i].end == segments[i + 1].start);
    }
    lemma_boundaries_ascend(segments, input.len() as int, i, i + 1);
    assert(input.take(segments[i].end as int) =~= input.take(segments[i].start as int)
        + input.subrange(segments[i].start as int, segments[i].end as int));
}

/// As long as the workers of the first `i` segments succeeded, the input
/// up to the boundary of index `i` holds complete, well-formed lines only.
proof fn lemma_prefix_well_formed(
    shards: Seq<Result<AggregationMap, ChallengeError>>,
    segments: Seq<Segment>,
    input: Seq<u8>,
    i: int,
)
    requires
        shards_of_plan(shards, segments, input),
        0 <= i <= segments.len(),
        forall|j: int| 0 <= j < i ==> (#[trigger] shards[j]).is_ok(),
    ensures
        first_malformed(input.take(boundary(segments, input.len() as int, i))).is_none(),
        ends_lines(input.take(boundary(segments, input.len() as int, i))),
    decreases i,
{
    if i == 0 {
        assert(segments[0].start == 0);
    } else {
        let segment = segments[i - 1];
        let front = input.take(segment.start as int);
        let part = input.subrange(segment.start as int, segment.end as int);
        lemma_prefix_well_formed(shards, segments, input, i - 1);
        lemma_segment_extends(segments, input, i - 1);
        lemma_first_malformed_concat(front, part);
        assert(shards[i - 1].is_ok());
        if part.len() > 0 {
            assert((front + part).last() == part.last());
        } else {
            assert(front + part =~= front);
        }
    }
}

/// An error of the first worker that failed is the error that the input
/// as a whole owes.
proof fn lemma_failed_shard(
    shards: Seq<Result<AggregationMap, ChallengeError>>,
    segments: Seq<Segment>,
    input: Seq<u8>,
    i: int,
    error: ChallengeError,
)
    requires
        shards_of_plan(shards, segments, input),
        0 <= i < shards.len(),
        shards[i] == Err::<AggregationMap, ChallengeError>(error),
        forall|j: int| 0 <= j < i ==> (#[trigger] shards[j]).is_ok(),
    ensures
        crate::helpers::meets_challenge(Err(error), input),
{
    let segment = segments[i];
    let front = input.take(segment.start as int);
    let part = input.subrange(segment.start as int, segment.end as int);
    lemma_prefix_well_formed(shards, segments, input, i);
    lemma_segment_extends(segments, input, i);
    lemma_first_malformed_concat(front, part);
    assert(is_segment_outcome(shards[i], input, segment));
    if first_malformed(part).is_some() {
        lemma_first_malformed_stays(input, segment.end as int);
    } else {
        assert(part.len() > 0);
        assert((front + part).last() == part.last());
        if i + 1 < segments.len() {
            assert(ends_lines(input.take(segments[i + 1].start as int)));
        }
        assert(input.take(input.len() as int) =~= input);
    }
}

/// When every worker succeeded, the shards of the first `i` segments
/// merge to the summaries of the input up to the boundary of index `i`.
proof fn lemma_prefix_tallies(
    shards: Seq<Result<AggregationMap, ChallengeError>>,
    maps: Seq<AggregationMap>,
    segments: Seq<Segment>,
    input: Seq<u8>,
    i: int,
)
    requires
        shards_of_plan(shards, segments, input),
        maps.len() == shards.len(),
        forall|j: int|
            0 <= j < maps.len() ==> shards[j] == Ok::<AggregationMap, ChallengeError>(
                #[trigger] maps[j],
            ),
        0 <= i <= segments.len(),
    ensures
        tally_merge_all(views(maps.take(i))) == tally_of(
            records_of(input.take(boundary(segments, input.len() as int, i))),
        ),
        total_records(maps.take(i)) == records_of(
            input.take(boundary(segments, input.len() as int, i)),
        ).len(),
        forall|j: int| 0 <= j < maps.len() ==> (#[trigger] maps[j]).wf(),
    decreases i,
{
    assert forall|j: int| 0 <= j < maps.len() implies (#[trigger] maps[j]).wf() by {
        assert(is_segment_outcome(shards[j], input, segments[j]));
    }
    if i == 0 {
        assert(segments[0].start == 0);
        assert(views(maps.take(0)) =~= Seq::empty());
    } else {
        let segment = segments[i - 1];
        let front = input.take(segment.start as int);
        let part = input.subrange(segment.start as int, segment.end as int);
        lemma_prefix_tallies(shards, maps, segments, input, i - 1);
        assert forall|j: int| 0 <= j < i implies (#[trigger] shards[j]).is_ok() by {
            assert(shards[j] == Ok::<AggregationMap, ChallengeError>(maps[j]));
        }
        lemma_prefix_well_formed(shards, segments, input, i - 1);
        lemma_segment_extends(segments, input, i - 1);
        lemma_records_concat(front, part);
        law_two_shards(records_of(front), records_of(part));
        assert(is_segment_outcome(shards[i - 1], input, segment));
        assert(maps.take(i).drop_last() =~= maps.take(i - 1));
        assert(views(maps.take(i)).drop_last() =~= views(maps.take(i - 1)));
        assert(views(maps.take(i)).last() == maps[i - 1]@);
    }
}

/// Cuts `input` into `n` segments at line ends, aggregates the segments on
/// at most `workers` threads, merges the shards and lists the result. If
/// an aggregation fails, the run fails with the error of the first segment
/// that has one.
///
/// More workers than segments are of no use, so `workers` counts up to `n`
/// only; zero leaves the number of threads to rayon. Where no pool of
/// threads can be had, the segments are aggregated one after the other:
/// the workers decide how fast a run is, never what comes out.
pub fn run_with_workers(input: &[u8], n: usize, workers: usize) -> (outcome: ChallengeResult)
    requires
        n >= 1,
    ensures
        meets_chunked_challenge(outcome, input@, n as nat),
{
    let segments: Vec<Segment> = match plan(input, n) {
        Ok(segments) => segments,
        Err(error) => {
            return Err(error);
        },
    };
    proof {
        assert forall|i: int| 0 <= i < segments@.len() implies (#[trigger] segments@[i]).start
            <= segments@[i].end <= input@.len() by {
            lemma_segment_extends(segments@, input@, i);
        }
    }
    let threads: usize = if workers > n {
        n
    } else {
        workers
    };
    let shards = match build_pool(threads) {
        Ok(pool) => aggregate_segments(&pool, input, &segments),
        Err(_) => aggregate_segments_in_turn(input, &segments),
    };
    let ghost outcomes = shards@;
    match collect_shards(shards) {
        Ok(maps) => {
            proof {
                vstd::slice::axiom_spec_len(input);
                lemma_prefix_tallies(outcomes, maps@, segments@, input@, n as int);
                assert forall|j: int| 0 <= j < n implies (#[trigger] outcomes[j]).is_ok() by {
                    assert(outcomes[j] == Ok::<AggregationMap, ChallengeError>(maps@[j]));
                }
                lemma_prefix_well_formed(outcomes, segments@, input@, n as int);
                assert(maps@.take(n as int) =~= maps@);
                assert(input@.take(input@.len() as int) =~= input@);
                lemma_records_bounded(input@);
            }
            let merged = merge_all(&maps);
            Ok(merged.finalize())
        },
        Err(error) => {
            proof {
                let i = choose|i: int|
                    {
                        &&& 0 <= i < outcomes.len()
                        &&& #[trigger] outcomes[i] == Err::<AggregationMap, ChallengeError>(error)
                        &&& forall|j: int| 0 <= j < i ==> (#[trigger] outcomes[j]).is_ok()
                    };
                lemma_failed_shard(outcomes, segments@, input@, i, error);
            }
            Err(error)
        },
    }
}

/// Cuts `input` into `n` segments and aggregates them `PARALLEL_CHUNKS` at
/// a time.
pub fn run_with_chunks(input: &[u8], n: usize) -> (outcome: ChallengeResult)
    requires
        n >= 1,
    ensures
        meets_chunked_challenge(outcome, input@, n as nat),
{
    run_with_workers(input, n, PARALLEL_CHUNKS)
}

impl ChallengeRunner for Runner {
    open spec fn segments() -> nat {
        NUM_CHUNKS as nat
    }

    fn run(input: &[u8]) -> (outcome: ChallengeResult)
        ensures
            meets_chunked_challenge(outcome, input@, NUM_CHUNKS as nat),
    {
        run_with_chunks(input, NUM_CHUNKS)
    }
}

} // verus!
