//! The chunk reader: raw reads in, complete lines on to the aggregation.
//!
//! A read ends wherever the source pleases, most often in the middle of a
//! line. The reader keeps the partial line at the end of each read and puts
//! it in front of the next one, so that the aggregation only ever sees
//! complete lines, and the summaries are those of the input as a whole.
//!
//! An input that ends in the middle of a line is an error: the reader does
//! not take a last line without its newline for a record.
use vstd::prelude::*;
use vstd::slice::slice_to_vec;
use crate::engine::{
    aggregate,
    first_malformed,
    lemma_first_malformed_concat,
    lemma_first_malformed_stays,
    lemma_last_newline_concat,
    lemma_partial_tail,
    lemma_records_bounded,
    lemma_records_concat,
    lemma_tally_extend_concat,
    records_of,
    tally_of,
};
use crate::helpers::ChallengeError;
use crate::lines::{
    complete_len,
    complete_part,
    ends_lines,
    get_measurement_lines,
    lemma_last_newline,
    partial_part,
};
use crate::table::AggregationMap;

verus! {

/// The state of one pass over a source: the summaries of the complete
/// lines read so far, and the partial line that the last read ended with.
pub struct ChunkReader {
    map: AggregationMap,
    leftover: Vec<u8>,
    consumed: usize,
    seen: Ghost<Seq<u8>>,
}

impl ChunkReader {
    /// All bytes that the reader has been fed, in their order.
    pub closed spec fn seen(&self) -> Seq<u8> {
        self.seen@
    }

    /// The reader holds the summaries of the complete lines of what it has
    /// seen, none of which was malformed, and the partial line after them.
    pub closed spec fn wf(&self) -> bool {
        &&& self.map.wf()
        &&& self.seen@.len() <= usize::MAX
        &&& self.consumed == complete_len(self.seen@)
        &&& self.leftover@ == partial_part(self.seen@)
        &&& first_malformed(self.seen@).is_none()
        &&& self.map@ == tally_of(records_of(self.seen@))
        &&& self.map.records() == records_of(self.seen@).len()
    }

    /// A reader that has seen nothing yet.
    pub fn new() -> (reader: ChunkReader)
        ensures
            reader.wf(),
            reader.seen() == Seq::<u8>::empty(),
    {
        let reader = ChunkReader {
            map: AggregationMap::new(),
            leftover: Vec::new(),
            consumed: 0,
            seen: Ghost(Seq::empty()),
        };
        assert(reader.leftover@ =~= partial_part(Seq::<u8>::empty()));
        reader
    }

    /// The partial line that the reader holds back.
    pub fn leftover(&self) -> (partial: &[u8])
        requires
            self.wf(),
        ensures
            partial@ == partial_part(self.seen()),
    {
        self.leftover.as_slice()
    }

    /// Takes in the bytes of one read. The partial line held back from the
    /// read before is put in front of them, the complete lines of the two
    /// together go to the aggregation, and what follows their last newline
    /// is held back in turn.
    ///
    /// Fails at the first malformed line, with the offset of that line in
    /// all that was fed; the reader is then of no further use.
    pub fn feed(&mut self, raw: &[u8]) -> (outcome: Result<(), ChallengeError>)
        requires
            old(self).wf(),
            old(self).seen().len() + raw@.len() <= usize::MAX,
        ensures
            match outcome {
                Ok(()) => {
                    &&& final(self).wf()
                    &&& final(self).seen() == old(self).seen() + raw@
                    &&& first_malformed(old(self).seen() + raw@).is_none()
                },
                Err(error) => {
                    &&& first_malformed(old(self).seen() + raw@) matches Some(at)
                    &&& error matches ChallengeError::MalformedRecord(offset)
                    &&& offset == at
                },
            },
    {
        if self.leftover.len() == 0 {
            proof {
                assert(self.leftover@ + raw@ =~= raw@);
            }
            self.take_window(raw, Ghost(raw@))
        } else {
            let mut window: Vec<u8> = Vec::new();
            window.extend_from_slice(self.leftover.as_slice());
            window.extend_from_slice(raw);
            proof {
                assert(window@ =~= self.leftover@ + raw@);
            }
            self.take_window(window.as_slice(), Ghost(raw@))
        }
    }

    /// Takes in a window: the partial line held back, followed by the
    /// bytes `raw` of a read.
    fn take_window(&mut self, window: &[u8], Ghost(raw): Ghost<Seq<u8>>) -> (outcome: Result<
        (),
        ChallengeError,
    >)
        requires
            old(self).wf(),
            old(self).seen().len() + raw.len() <= usize::MAX,
            window@ == old(self).leftover@ + raw,
        ensures
            match outcome {
                Ok(()) => {
                    &&& final(self).wf()
                    &&& final(self).seen() == old(self).seen() + raw
                    &&& first_malformed(old(self).seen() + raw).is_none()
                },
                Err(error) => {
                    &&& first_malformed(old(self).seen() + raw) matches Some(at)
                    &&& error matches ChallengeError::MalformedRecord(offset)
                    &&& offset == at
                },
            },
    {
        let ghost before = self.seen@;
        let ghost done = complete_part(before);
        let ghost after = before + raw;
        proof {
            lemma_last_newline(before);
            assert(after =~= done + window@);
            assert(before =~= done + partial_part(before));
            if done.len() > 0 {
                assert(done.last() == before[complete_len(before) - 1]);
            }
            assert(ends_lines(done));
            assert(before.take(complete_len(before)) =~= done);
            lemma_partial_tail(before, complete_len(before));
            lemma_last_newline_concat(done, window@);
            lemma_records_concat(done, window@);
            lemma_first_malformed_concat(done, window@);
            lemma_records_bounded(done);
            lemma_records_bounded(window@);
        }
        let (complete, partial) = get_measurement_lines(window);
        proof {
            lemma_last_newline(window@);
            assert(window@.take(complete_len(window@)) =~= complete@);
            if complete@.len() > 0 {
                assert(complete@.last() == window@[complete_len(window@) - 1]);
            }
            lemma_partial_tail(window@, complete_len(window@));
            lemma_tally_extend_concat(Map::empty(), records_of(done), records_of(window@));
        }
        match aggregate(&mut self.map, complete, self.consumed) {
            Ok(()) => {
                self.consumed = self.consumed + complete.len();
                self.leftover = slice_to_vec(partial);
                self.seen = Ghost(after);
                Ok(())
            },
            Err(error) => {
                proof {
                    lemma_first_malformed_stays(window@, complete_len(window@));
                }
                Err(error)
            },
        }
    }

    /// Ends the pass once the source is exhausted, and hands out the
    /// summaries.
    ///
    /// Fails with `TruncatedRecord` when the input ended in the middle of a
    /// line, that is, when its last byte is not a newline.
    pub fn finish(self) -> (outcome: Result<AggregationMap, ChallengeError>)
        requires
            self.wf(),
        ensures
            match outcome {
                Ok(map) => {
                    &&& ends_lines(self.seen())
                    &&& first_malformed(self.seen()).is_none()
                    &&& map@ == tally_of(records_of(self.seen()))
                    &&& map.records() == records_of(self.seen()).len()
                    &&& map.wf()
                },
                Err(error) => {
                    &&& error == ChallengeError::TruncatedRecord
                    &&& !ends_lines(self.seen())
                    &&& first_malformed(self.seen()).is_none()
                },
            },
    {
        proof {
            lemma_last_newline(self.seen@);
        }
        if self.leftover.len() > 0 {
            Err(ChallengeError::TruncatedRecord)
        } else {
            Ok(self.map)
        }
    }
}

} // verus!
