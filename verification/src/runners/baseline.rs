//! The plainest runner: the whole input in one piece.
use vstd::prelude::*;
use crate::helpers::{ChallengeResult, ChallengeRunner, meets_challenge};
use crate::reader::ChunkReader;

verus! {

/// Takes the whole input through the aggregation in a single read.
pub struct Runner;

impl ChallengeRunner for Runner {
    open spec fn segments() -> nat {
        1
    }

    fn run(input: &[u8]) -> (outcome: ChallengeResult)
        ensures
            meets_challenge(outcome, input@),
    {
        let mut reader = ChunkReader::new();
        proof {
            vstd::slice::axiom_spec_len(input);
            assert(reader.seen() + input@ =~= input@);
        }
        match reader.feed(input) {
            Ok(()) => {},
            Err(error) => {
                return Err(error);
            },
        }
        match reader.finish() {
            Ok(map) => Ok(map.finalize()),
            Err(error) => Err(error),
        }
    }
}

} // verus!
