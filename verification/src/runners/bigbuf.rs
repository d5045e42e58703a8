//! The sequential runner: the input in reads of bounded size.
use vstd::prelude::*;
use crate::engine::lemma_first_malformed_stays;
use crate::helpers::{ChallengeResult, ChallengeRunner, meets_challenge};
use crate::reader::ChunkReader;

verus! {

/// How many bytes the runner reads at a time unless it is told otherwise.
pub const BUFFER_SIZE: usize = 1_073_741_824;

/// Reads the input in pieces of `BUFFER_SIZE` bytes.
pub struct Runner;

/// Takes `input` through a chunk reader in reads of at most `capacity`
/// bytes. The capacity decides how the input is cut up, never what comes
/// out; a capacity of zero is taken as one.
pub fn run_with_capacity(input: &[u8], capacity: usize) -> (outcome: ChallengeResult)
    ensures
        meets_challenge(outcome, input@),
{
    let len: usize = input.len();
    let mut reader = ChunkReader::new();
    let mut offset: usize = 0;
    proof {
        assert(input@.take(0) =~= Seq::<u8>::empty());
    }
    while offset < len
        invariant
            len == input@.len(),
            offset <= len,
            reader.wf(),
            reader.seen() == input@.take(offset as int),
        decreases len - offset,
    {
        let rest: usize = len - offset;
        let step: usize = if capacity == 0 {
            1
        } else if capacity < rest {
            capacity
        } else {
            rest
        };
        proof {
            assert(input@.take(offset as int) + input@.subrange(offset as int, offset + step)
                =~= input@.take(offset + step));
        }
        match reader.feed(&input[offset..offset + step]) {
            Ok(()) => {},
            Err(error) => {
                proof {
                    lemma_first_malformed_stays(input@, offset + step);
                }
                return Err(error);
            },
        }
        offset = offset + step;
    }
    proof {
        assert(input@.take(offset as int) =~= input@);
    }
    match reader.finish() {
        Ok(map) => Ok(map.finalize()),
        Err(error) => Err(error),
    }
}

impl ChallengeRunner for Runner {
    open spec fn segments() -> nat {
        1
    }

    fn run(input: &[u8]) -> (outcome: ChallengeResult)
        ensures
            meets_challenge(outcome, input@),
    {
        run_with_capacity(input, BUFFER_SIZE)
    }
}

} // verus!
