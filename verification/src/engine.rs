//! The aggregation engine: from buffers of complete lines to summaries.
use vstd::prelude::*;
use crate::helpers::ChallengeError;
use crate::lines::{
    NEWLINE,
    complete_len,
    ends_lines,
    last_newline,
    lemma_last_newline,
    lemma_last_newline_is,
    partial_part,
};
use crate::record::{parse_record, record_of};
use crate::station::Tally;
use crate::table::{AggregationMap, tally_push};

verus! {

/// The records of the well-formed complete lines of `s`, in their order.
/// Every newline of `s` ends one line, which begins after the newline
/// before it; what follows the last newline is no line yet.
pub open spec fn records_of(s: Seq<u8>) -> Seq<(Seq<u8>, int)>
    decreases s.len(),
{
    if s.len() == 0 {
        Seq::empty()
    } else if s.last() == NEWLINE {
        match record_of(partial_part(s.drop_last())) {
            Some(record) => records_of(s.drop_last()).push(record),
            None => records_of(s.drop_last()),
        }
    } else {
        records_of(s.drop_last())
    }
}

/// The offset at which the first malformed complete line of `s` begins, if
/// `s` holds a malformed line.
pub open spec fn first_malformed(s: Seq<u8>) -> Option<int>
    decreases s.len(),
{
    if s.len() == 0 {
        None
    } else {
        match first_malformed(s.drop_last()) {
            Some(at) => Some(at),
            None => if s.last() == NEWLINE && record_of(partial_part(s.drop_last())).is_none() {
                Some(complete_len(s.drop_last()))
            } else {
                None
            },
        }
    }
}

/// The summaries `m` after the records of `records`, taken in one by one.
pub open spec fn tally_extend(m: Map<Seq<u8>, Tally>, records: Seq<(Seq<u8>, int)>) -> Map<
    Seq<u8>,
    Tally,
>
    decreases records.len(),
{
    if records.len() == 0 {
        m
    } else {
        tally_push(tally_extend(m, records.drop_last()), records.last().0, records.last().1)
    }
}

/// The summaries of `records` alone.
pub open spec fn tally_of(records: Seq<(Seq<u8>, int)>) -> Map<Seq<u8>, Tally> {
    tally_extend(Map::empty(), records)
}

/// Bytes without a newline, after a prefix of complete lines, add no line:
/// they are the partial line at the end.
pub proof fn lemma_partial_tail(s: Seq<u8>, start: int)
    requires
        0 <= start <= s.len(),
        ends_lines(s.take(start)),
        forall|j: int| start <= j < s.len() ==> s[j] != NEWLINE,
    ensures
        complete_len(s) == start,
        partial_part(s) == s.subrange(start, s.len() as int),
        records_of(s) == records_of(s.take(start)),
        first_malformed(s) == first_malformed(s.take(start)),
    decreases s.len() - start,
{
    if start > 0 {
        assert(s.take(start).last() == s[start - 1]);
    }
    lemma_last_newline_is(s, start - 1);
    if start < s.len() {
        let body = s.drop_last();
        assert(body.take(start) =~= s.take(start));
        lemma_partial_tail(body, start);
    } else {
        assert(s.take(start) =~= s);
    }
}

/// There are no more records than bytes, and a malformed line begins
/// within the bytes.
pub proof fn lemma_records_bounded(s: Seq<u8>)
    ensures
        records_of(s).len() <= s.len(),
        first_malformed(s) matches Some(at) ==> 0 <= at < s.len(),
    decreases s.len(),
{
    if s.len() > 0 {
        lemma_records_bounded(s.drop_last());
        lemma_last_newline(s.drop_last());
    }
}

/// A malformed line stays the first malformed line however the input
/// goes on.
pub proof fn lemma_first_malformed_stays(s: Seq<u8>, k: int)
    requires
        0 <= k <= s.len(),
        first_malformed(s.take(k)).is_some(),
    ensures
        first_malformed(s) == first_malformed(s.take(k)),
    decreases s.len() - k,
{
    if k < s.len() {
        assert(s.drop_last().take(k) =~= s.take(k));
        lemma_first_malformed_stays(s.drop_last(), k);
    } else {
        assert(s.take(k) =~= s);
    }
}

/// After complete lines, the last newline of what follows is the last
/// newline of the whole.
pub proof fn lemma_last_newline_concat(a: Seq<u8>, b: Seq<u8>)
    requires
        ends_lines(a),
    ensures
        last_newline(a + b) == a.len() + last_newline(b),
        complete_len(a + b) == a.len() + complete_len(b),
        partial_part(a + b) == partial_part(b),
{
    lemma_last_newline(b);
    let at = a.len() + last_newline(b);
    assert forall|j: int| at < j < (a + b).len() implies (a + b)[j] != NEWLINE by {
        assert((a + b)[j] == b[j - a.len()]);
    }
    if last_newline(b) >= 0 {
        assert((a + b)[at] == b[last_newline(b)]);
    } else if a.len() > 0 {
        assert((a + b)[at] == a.last());
    }
    lemma_last_newline_is(a + b, at);
    assert(partial_part(a + b) =~= partial_part(b));
}

/// The records of two buffers, the first of which ends with a complete
/// line, are the records of the first followed by those of the second.
pub proof fn lemma_records_concat(a: Seq<u8>, b: Seq<u8>)
    requires
        ends_lines(a),
    ensures
        records_of(a + b) == records_of(a) + records_of(b),
    decreases b.len(),
{
    if b.len() == 0 {
        assert(a + b =~= a);
        assert(records_of(a) + records_of(b) =~= records_of(a));
    } else {
        let shorter = b.drop_last();
        assert((a + b).drop_last() =~= a + shorter);
        assert((a + b).last() == b.last());
        lemma_records_concat(a, shorter);
        lemma_last_newline_concat(a, shorter);
        if b.last() == NEWLINE {
            match record_of(partial_part(shorter)) {
                Some(record) => {
                    assert(records_of(a + b) =~= records_of(a) + records_of(b));
                },
                None => {},
            }
        }
    }
}

/// The first malformed line of two buffers, the first of which ends with a
/// complete line, is that of the first buffer or else that of the second.
pub proof fn lemma_first_malformed_concat(a: Seq<u8>, b: Seq<u8>)
    requires
        ends_lines(a),
    ensures
        first_malformed(a + b) == match first_malformed(a) {
            Some(at) => Some(at),
            None => match first_malformed(b) {
                Some(at) => Some(a.len() + at),
                None => None,
            },
        },
    decreases b.len(),
{
    if b.len() == 0 {
        assert(a + b =~= a);
    } else {
        let shorter = b.drop_last();
        assert((a + b).drop_last() =~= a + shorter);
        assert((a + b).last() == b.last());
        lemma_first_malformed_concat(a, shorter);
        lemma_last_newline_concat(a, shorter);
    }
}

/// Taking in two runs of records one after the other is taking in both
/// as one run.
pub proof fn lemma_tally_extend_concat(
    m: Map<Seq<u8>, Tally>,
    first: Seq<(Seq<u8>, int)>,
    second: Seq<(Seq<u8>, int)>,
)
    ensures
        tally_extend(m, first + second) == tally_extend(tally_extend(m, first), second),
    decreases second.len(),
{
    if second.len() == 0 {
        assert(first + second =~= first);
    } else {
        assert((first + second).drop_last() =~= first + second.drop_last());
        lemma_tally_extend_concat(m, first, second.drop_last());
    }
}

/// Takes the complete lines of `buffer` into `map`, one by one, and stops
/// at the first malformed line. `base` is the offset of `buffer` in the
/// input, by which a malformed line is reported. What follows the last
/// newline of `buffer` is left alone.
pub fn aggregate(map: &mut AggregationMap, buffer: &[u8], base: usize) -> (outcome: Result<
    (),
    ChallengeError,
>)
    requires
        old(map).wf(),
        old(map).records() + buffer@.len() <= u64::MAX,
        base + buffer@.len() <= usize::MAX,
    ensures
        final(map).wf(),
        match outcome {
            Ok(()) => {
                &&& first_malformed(buffer@).is_none()
                &&& final(map)@ == tally_extend(old(map)@, records_of(buffer@))
                &&& final(map).records() == old(map).records() + records_of(buffer@).len()
            },
            Err(error) => {
                &&& first_malformed(buffer@) matches Some(at)
                &&& error matches ChallengeError::MalformedRecord(offset)
                &&& offset == base + at
                &&& final(map)@ == tally_extend(old(map)@, records_of(buffer@.take(at)))
                &&& final(map).records() == old(map).records() + records_of(
                    buffer@.take(at),
                ).len()
            },
        },
{
    let len: usize = buffer.len();
    let mut start: usize = 0;
    proof {
        assert(buffer@.take(0) =~= Seq::<u8>::empty());
    }
    loop
        invariant
            len == buffer@.len(),
            start <= len,
            ends_lines(buffer@.take(start as int)),
            first_malformed(buffer@.take(start as int)).is_none(),
            map.wf(),
            map@ == tally_extend(old(map)@, records_of(buffer@.take(start as int))),
            map.records() == old(map).records() + records_of(buffer@.take(start as int)).len(),
            old(map).records() + buffer@.len() <= u64::MAX,
            base + buffer@.len() <= usize::MAX,
        decreases len - start,
    {
        let mut end: usize = start;
        while end < len && buffer[end] != NEWLINE
            invariant
                len == buffer@.len(),
                start <= end <= len,
                forall|j: int| start <= j < end ==> buffer@[j] != NEWLINE,
            decreases len - end,
        {
            end = end + 1;
        }
        let ghost seen = buffer@.take(end as int);
        proof {
            assert(seen.take(start as int) =~= buffer@.take(start as int));
            lemma_partial_tail(seen, start as int);
            assert(seen.subrange(start as int, end as int) =~= buffer@.subrange(
                start as int,
                end as int,
            ));
        }
        if end == len {
            proof {
                assert(seen =~= buffer@);
            }
            return Ok(());
        }
        let ghost closed = buffer@.take(end + 1);
        proof {
            assert(closed.drop_last() =~= seen);
            assert(closed.last() == NEWLINE);
            lemma_records_bounded(buffer@.take(start as int));
        }
        match parse_record(&buffer[start..end]) {
            Some((name, value)) => {
                map.record(name, value);
                proof {
                    let earlier = records_of(seen);
                    let record = (name@, value as int);
                    assert(records_of(closed) == earlier.push(record));
                    assert(earlier.push(record).drop_last() =~= earlier);
                }
            },
            None => {
                proof {
                    lemma_first_malformed_stays(buffer@, end + 1);
                }
                return Err(ChallengeError::MalformedRecord(base + start));
            },
        }
        start = end + 1;
    }
}

} // verus!
