//! The chunk boundary planner: where to cut a source into segments so that
//! no line is cut in two.
use vstd::prelude::*;
use crate::helpers::ChallengeError;
use crate::lines::{
    NEWLINE,
    complete_len,
    ends_lines,
    find_last_newline,
    last_newline,
    lemma_last_newline,
};

verus! {

/// A half-open range of bytes of the source: from `start` up to, but not
/// including, `end`.
#[derive(Clone, Copy, Debug, PartialEq, Eq, Structural)]
pub struct Segment {
    pub start: usize,
    pub end: usize,
}

/// The size of the probes that look for the end of a segment: the `n`-th
/// part of the source, rounded down.
pub open spec fn target_size(source: Seq<u8>, n: nat) -> int {
    source.len() as int / n as int
}

/// The bytes in which the end of a segment that begins at `cursor` is
/// looked for.
pub open spec fn probe(source: Seq<u8>, n: nat, cursor: int) -> Seq<u8> {
    source.subrange(cursor, cursor + target_size(source, n))
}

/// Where the segment of index `i` begins: the first at the start of the
/// source, every other one after the last newline in the probe of the one
/// before it.
pub open spec fn cut(source: Seq<u8>, n: nat, i: nat) -> int
    decreases i,
{
    if i == 0 {
        0
    } else {
        let before = cut(source, n, (i - 1) as nat);
        before + complete_len(probe(source, n, before))
    }
}

/// The probe of the segment of index `i` holds a newline.
pub open spec fn boundary_found(source: Seq<u8>, n: nat, i: nat) -> bool {
    last_newline(probe(source, n, cut(source, n, i))) >= 0
}

/// The index of the first segment at or after `i`, the last one aside,
/// whose probe holds no newline.
pub open spec fn missing_boundary_from(source: Seq<u8>, n: nat, i: nat) -> Option<nat>
    decreases n - i,
{
    if i + 1 >= n {
        None
    } else if !boundary_found(source, n, i) {
        Some(i)
    } else {
        missing_boundary_from(source, n, i + 1)
    }
}

/// The index of the first segment for which no boundary can be found, if
/// there is one. The last segment needs none: it ends where the source
/// ends.
pub open spec fn missing_boundary(source: Seq<u8>, n: nat) -> Option<nat> {
    missing_boundary_from(source, n, 0)
}

/// The segments partition the first `len` bytes: the first begins at
/// zero, each one ends where the next begins, and the last ends at `len`.
pub open spec fn partitions(segments: Seq<Segment>, len: int) -> bool {
    &&& segments.len() >= 1
    &&& segments[0].start == 0
    &&& segments.last().end == len
    &&& forall|i: int| 0 <= i < segments.len() ==> (#[trigger] segments[i]).start <= segments[i].end
    &&& forall|i: int, j: int|
        0 <= i && j == i + 1 && j < segments.len() ==> (#[trigger] segments[i]).end == (
        #[trigger] segments[j]).start
}

/// Where the segment of index `i` begins, and where the input ends for an
/// index past the last segment.
pub open spec fn boundary(segments: Seq<Segment>, len: int, i: int) -> int {
    if i < segments.len() {
        segments[i].start as int
    } else {
        len
    }
}

/// In a partition the boundaries ascend and none lies beyond the end.
pub proof fn lemma_boundaries_ascend(segments: Seq<Segment>, len: int, i: int, j: int)
    requires
        partitions(segments, len),
        0 <= i <= j <= segments.len(),
    ensures
        boundary(segments, len, i) <= boundary(segments, len, j) <= len,
    decreases segments.len() - i,
{
    if i < segments.len() {
        assert(segments[i].start <= segments[i].end);
        if i + 1 < segments.len() {
            assert(segments[i].end == segments[i + 1].start);
        }
        assert(segments[i].end == boundary(segments, len, i + 1));
        if i < j {
            lemma_boundaries_ascend(segments, len, i + 1, j);
        } else {
            lemma_boundaries_ascend(segments, len, i + 1, segments.len() as int);
        }
    }
}

/// A probe never reaches beyond the source, and a cut that was found lies
/// just after a newline.
pub proof fn lemma_cut(source: Seq<u8>, n: nat, i: nat)
    requires
        1 <= n,
        i < n,
    ensures
        0 <= cut(source, n, i) <= i * target_size(source, n),
        cut(source, n, i) + target_size(source, n) <= source.len(),
        i >= 1 ==> cut(source, n, (i - 1) as nat) <= cut(source, n, i),
        i >= 1 && boundary_found(source, n, (i - 1) as nat) ==> cut(source, n, (i - 1) as nat)
            < cut(source, n, i) && source[cut(source, n, i) - 1] == NEWLINE,
    decreases i,
{
    let target = target_size(source, n);
    let len = source.len() as int;
    vstd::arithmetic::div_mod::lemma_fundamental_div_mod(len, n as int);
    vstd::arithmetic::div_mod::lemma_mod_bound(len, n as int);
    assert(0 <= target) by (nonlinear_arith)
        requires
            len >= 0,
            n >= 1,
            target == len / (n as int),
    ;
    assert((i + 1) * target <= n * target) by (nonlinear_arith)
        requires
            i + 1 <= n,
            0 <= target,
    ;
    assert(i * target + target == (i + 1) * target) by (nonlinear_arith);
    if i >= 1 {
        let j = (i - 1) as nat;
        lemma_cut(source, n, j);
        let before = cut(source, n, j);
        let window = probe(source, n, before);
        lemma_last_newline(window);
        assert(j * target + target == (j + 1) * target) by (nonlinear_arith);
        if last_newline(window) >= 0 {
            assert(window[last_newline(window)] == source[before + last_newline(window)]);
        }
    }
}

/// As long as every boundary before `i` was found, the first missing
/// boundary is the first one missing from `i` on.
proof fn lemma_missing_from(source: Seq<u8>, n: nat, i: nat)
    requires
        i + 1 < n,
        missing_boundary(source, n) == missing_boundary_from(source, n, i),
        boundary_found(source, n, i),
    ensures
        missing_boundary(source, n) == missing_boundary_from(source, n, i + 1),
{
}

/// When no boundary is missing from `from` on, the boundary of every
/// later segment but the last is found.
pub proof fn lemma_boundaries_found(source: Seq<u8>, n: nat, from: nat, i: nat)
    requires
        missing_boundary_from(source, n, from).is_none(),
        from <= i,
        i + 1 < n,
    ensures
        boundary_found(source, n, i),
    decreases i - from,
{
    if from < i {
        lemma_boundaries_found(source, n, from + 1, i);
    }
}

/// Finds where each of `n` segments of `input` begins.
///
/// Every segment but the last ends after the last newline among the
/// `input.len() / n` bytes that follow its beginning. Fails with
/// `NoBoundaryFound` and the index of the segment whose end is looked for
/// when those bytes hold no newline.
pub fn find_chunk_boundaries(input: &[u8], n: usize) -> (outcome: Result<
    Vec<usize>,
    ChallengeError,
>)
    requires
        n >= 1,
    ensures
        match missing_boundary(input@, n as nat) {
            Some(index) => outcome matches Err(ChallengeError::NoBoundaryFound(at)) && at == index,
            None => outcome matches Ok(starts) && starts@.len() == n && forall|i: int|
                0 <= i < n ==> #[trigger] starts@[i] == cut(input@, n as nat, i as nat),
        },
{
    let len: usize = input.len();
    let target: usize = len / n;
    let mut starts: Vec<usize> = Vec::new();
    let mut cursor: usize = 0;
    let mut i: usize = 0;
    starts.push(0);
    while i < n - 1
        invariant
            n >= 1,
            len == input@.len(),
            target == target_size(input@, n as nat),
            i <= n - 1,
            cursor == cut(input@, n as nat, i as nat),
            starts@.len() == i + 1,
            forall|j: int| 0 <= j <= i ==> #[trigger] starts@[j] == cut(input@, n as nat, j as nat),
            missing_boundary(input@, n as nat) == missing_boundary_from(
                input@,
                n as nat,
                i as nat,
            ),
        decreases n - 1 - i,
    {
        proof {
            lemma_cut(input@, n as nat, i as nat);
        }
        match find_last_newline(&input[cursor..cursor + target]) {
            Some(at) => {
                proof {
                    lemma_missing_from(input@, n as nat, i as nat);
                    lemma_cut(input@, n as nat, (i + 1) as nat);
                }
                cursor = cursor + at + 1;
                starts.push(cursor);
            },
            None => {
                return Err(ChallengeError::NoBoundaryFound(i));
            },
        }
        i = i + 1;
    }
    Ok(starts)
}

/// Cuts `input` into `n` segments for as many workers.
///
/// The segments partition the input, and every one of them begins at the
/// beginning of a line. Fails as `find_chunk_boundaries` does.
pub fn plan(input: &[u8], n: usize) -> (outcome: Result<Vec<Segment>, ChallengeError>)
    requires
        n >= 1,
    ensures
        match missing_boundary(input@, n as nat) {
            Some(index) => outcome matches Err(ChallengeError::NoBoundaryFound(at)) && at == index,
            None => {
                &&& outcome matches Ok(segments)
                &&& segments@.len() == n
                &&& partitions(segments@, input@.len() as int)
                &&& forall|i: int|
                    0 <= i < n ==> (#[trigger] segments@[i]).start == cut(
                        input@,
                        n as nat,
                        i as nat,
                    )
                &&& forall|i: int|
                    0 <= i < n ==> ends_lines(input@.take((#[trigger] segments@[i]).start as int))
            },
        },
{
    let len: usize = input.len();
    let starts: Vec<usize> = match find_chunk_boundaries(input, n) {
        Ok(starts) => starts,
        Err(error) => {
            return Err(error);
        },
    };
    let mut segments: Vec<Segment> = Vec::new();
    let mut i: usize = 0;
    while i < n
        invariant
            n >= 1,
            i <= n,
            len == input@.len(),
            starts@.len() == n,
            missing_boundary(input@, n as nat).is_none(),
            forall|j: int| 0 <= j < n ==> #[trigger] starts@[j] == cut(input@, n as nat, j as nat),
            segments@.len() == i,
            forall|j: int|
                0 <= j < i ==> (#[trigger] segments@[j]).start == starts@[j] && segments@[j].end
                    == (if j + 1 < n {
                    starts@[j + 1]
                } else {
                    len
                }),
            forall|j: int|
                0 <= j < i ==> segments@[j].start <= (#[trigger] segments@[j]).end <= len
                    && ends_lines(input@.take(segments@[j].start as int)),
        decreases n - i,
    {
        let start: usize = starts[i];
        let end: usize = if i + 1 < n {
            starts[i + 1]
        } else {
            len
        };
        proof {
            lemma_cut(input@, n as nat, i as nat);
            if i + 1 < n {
                lemma_cut(input@, n as nat, (i + 1) as nat);
            }
            if i >= 1 {
                lemma_cut(input@, n as nat, (i - 1) as nat);
                lemma_boundaries_found(input@, n as nat, 0, (i - 1) as nat);
                assert(input@.take(start as int).last() == input@[start - 1]);
            }
        }
        segments.push(Segment { start, end });
        i = i + 1;
    }
    Ok(segments)
}

} // verus!
