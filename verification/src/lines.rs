//! Newline scanning: where the last complete line of a buffer ends.
use vstd::prelude::*;

verus! {

/// The byte that terminates a line.
pub const NEWLINE: u8 = 10;

/// Index of the last newline in `s`, or `-1` when `s` holds none.
pub open spec fn last_newline(s: Seq<u8>) -> int
    decreases s.len(),
{
    if s.len() == 0 {
        -1
    } else if s.last() == NEWLINE {
        s.len() - 1
    } else {
        last_newline(s.drop_last())
    }
}

/// Number of leading bytes of `s` that belong to complete lines.
pub open spec fn complete_len(s: Seq<u8>) -> int {
    last_newline(s) + 1
}

/// The longest prefix of `s` that consists of complete lines.
pub open spec fn complete_part(s: Seq<u8>) -> Seq<u8> {
    s.subrange(0, complete_len(s))
}

/// What follows the last newline of `s`: the beginning of a line whose end
/// has not arrived yet.
pub open spec fn partial_part(s: Seq<u8>) -> Seq<u8> {
    s.subrange(complete_len(s), s.len() as int)
}

/// `s` holds no newline at all.
pub open spec fn no_newline(s: Seq<u8>) -> bool {
    forall|i: int| 0 <= i < s.len() ==> s[i] != NEWLINE
}

/// `s` is empty or ends with a newline.
pub open spec fn ends_lines(s: Seq<u8>) -> bool {
    s.len() == 0 || s.last() == NEWLINE
}

/// `last_newline` names a newline that no other newline follows.
pub proof fn lemma_last_newline(s: Seq<u8>)
    ensures
        -1 <= last_newline(s) < s.len(),
        last_newline(s) >= 0 ==> s[last_newline(s)] == NEWLINE,
        forall|j: int| last_newline(s) < j < s.len() ==> s[j] != NEWLINE,
    decreases s.len(),
{
    if s.len() > 0 && s.last() != NEWLINE {
        lemma_last_newline(s.drop_last());
        assert forall|j: int| last_newline(s) < j < s.len() implies s[j] != NEWLINE by {
            if j < s.len() - 1 {
                assert(s.drop_last()[j] == s[j]);
            }
        }
    }
}

/// A newline at `i` that no newline follows is the last one.
pub proof fn lemma_last_newline_is(s: Seq<u8>, i: int)
    requires
        -1 <= i < s.len(),
        i >= 0 ==> s[i] == NEWLINE,
        forall|j: int| i < j < s.len() ==> s[j] != NEWLINE,
    ensures
        last_newline(s) == i,
{
    lemma_last_newline(s);
}

/// Returns the index of the last newline of `chunk`, if it holds one.
pub fn find_last_newline(chunk: &[u8]) -> (found: Option<usize>)
    ensures
        match found {
            Some(i) => last_newline(chunk@) == i,
            None => last_newline(chunk@) == -1,
        },
{
    let mut i: usize = chunk.len();
    while i > 0
        invariant
            i <= chunk@.len(),
            forall|j: int| i <= j < chunk@.len() ==> chunk@[j] != NEWLINE,
        decreases i,
    {
        i = i - 1;
        if chunk[i] == NEWLINE {
            proof {
                lemma_last_newline_is(chunk@, i as int);
            }
            return Some(i);
        }
    }
    proof {
        lemma_last_newline_is(chunk@, -1);
    }
    None
}

/// Returns the index of the last newline of a chunk that holds one.
pub fn last_chunk_newline_idx(chunk: &[u8]) -> (idx: usize)
    requires
        last_newline(chunk@) >= 0,
    ensures
        idx == last_newline(chunk@),
{
    match find_last_newline(chunk) {
        Some(idx) => idx,
        None => vstd::pervasive::unreached(),
    }
}

/// Splits `input` after its last newline: first the complete lines, then
/// the partial line that follows them. Either part may be empty.
pub fn get_measurement_lines(input: &[u8]) -> (parts: (&[u8], &[u8]))
    ensures
        parts.0@ == complete_part(input@),
        parts.1@ == partial_part(input@),
{
    let len: usize = input.len();
    proof {
        lemma_last_newline(input@);
    }
    match find_last_newline(input) {
        Some(idx) => (&input[0..idx + 1], &input[idx + 1..len]),
        None => (&input[0..0], &input[0..len]),
    }
}

} // verus!
