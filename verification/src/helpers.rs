//! What a run hands back: one line of results for each station, or the
//! reason why there are none.
use std::cmp::Ordering;
use vstd::prelude::*;
use crate::engine::{first_malformed, records_of, tally_of};
use crate::lines::ends_lines;
use crate::order::{KeyOrder, key_order, lex_lt};
use crate::planner::missing_boundary;
use crate::station::Tally;

verus! {

/// Why a run produced no result. Every one of these ends the run; no line
/// is ever skipped.
#[derive(Clone, Copy, Debug, PartialEq, Eq, Structural)]
pub enum ChallengeError {
    /// A line without a separator, with an empty station name, or with
    /// text after the separator that is no measurement. Carries the offset
    /// in the input of the first byte of that line.
    MalformedRecord(usize),
    /// The input ended in the middle of a line.
    TruncatedRecord,
    /// No newline was found where a segment of the given index had to end.
    NoBoundaryFound(usize),
}

/// The smallest, the mean and the largest measurement of one station, in
/// thousandths.
#[derive(Clone, Debug)]
pub struct StationInfo {
    pub name: Vec<u8>,
    pub min: i64,
    pub max: i64,
    pub avg: i64,
}

impl StationInfo {
    /// The result for the station `name`.
    pub fn new(name: Vec<u8>, min: i64, max: i64, avg: i64) -> (info: StationInfo)
        ensures
            info.name == name,
            info.min == min,
            info.max == max,
            info.avg == avg,
    {
        StationInfo { name, min, max, avg }
    }

    /// The name of the station.
    pub fn name(&self) -> (name: &[u8])
        ensures
            name@ == self.name@,
    {
        self.name.as_slice()
    }

    /// The smallest measurement.
    pub fn min(&self) -> (min: i64)
        ensures
            min == self.min,
    {
        self.min
    }

    /// The largest measurement.
    pub fn max(&self) -> (max: i64)
        ensures
            max == self.max,
    {
        self.max
    }

    /// The mean of the measurements.
    pub fn avg(&self) -> (avg: i64)
        ensures
            avg == self.avg,
    {
        self.avg
    }

    /// The numbers of `self` are those of `tally`.
    pub open spec fn reports(&self, tally: Tally) -> bool {
        &&& self.min == tally.min
        &&& self.max == tally.max
        &&& self.avg == tally.mean()
    }
}

/// Two results are equal when they are about the same station: the name
/// alone decides, since the name alone places a result in the listing.
impl PartialEq for StationInfo {
    fn eq(&self, other: &Self) -> (equal: bool) {
        match key_order(self.name.as_slice(), other.name.as_slice()) {
            KeyOrder::Same => true,
            _ => false,
        }
    }
}

impl vstd::std_specs::cmp::PartialEqSpecImpl for StationInfo {
    open spec fn obeys_eq_spec() -> bool {
        true
    }

    open spec fn eq_spec(&self, other: &Self) -> bool {
        self.name@ == other.name@
    }
}

impl Eq for StationInfo {

}

/// Results are ordered as their station names are, byte by byte.
impl PartialOrd for StationInfo {
    fn partial_cmp(&self, other: &Self) -> (order: Option<Ordering>) {
        match key_order(self.name.as_slice(), other.name.as_slice()) {
            KeyOrder::Before => Some(Ordering::Less),
            KeyOrder::Same => Some(Ordering::Equal),
            KeyOrder::After => Some(Ordering::Greater),
        }
    }
}

impl vstd::std_specs::cmp::PartialOrdSpecImpl for StationInfo {
    open spec fn obeys_partial_cmp_spec() -> bool {
        true
    }

    open spec fn partial_cmp_spec(&self, other: &Self) -> Option<Ordering> {
        if lex_lt(self.name@, other.name@) {
            Some(Ordering::Less)
        } else if self.name@ == other.name@ {
            Some(Ordering::Equal)
        } else {
            Some(Ordering::Greater)
        }
    }
}

/// `stations` lists `summaries`: one entry for every station, in the
/// strict order of the names, with the numbers of that station's tally.
pub open spec fn is_listing(stations: Seq<StationInfo>, summaries: Map<Seq<u8>, Tally>) -> bool {
    &&& forall|i: int, j: int|
        0 <= i < j < stations.len() ==> lex_lt(
            (#[trigger] stations[i]).name@,
            (#[trigger] stations[j]).name@,
        )
    &&& forall|i: int|
        0 <= i < stations.len() ==> summaries.contains_key((#[trigger] stations[i]).name@)
            && stations[i].reports(summaries[stations[i].name@])
    &&& forall|k: Seq<u8>| #[trigger]
        summaries.contains_key(k) ==> exists|i: int|
            0 <= i < stations.len() && (#[trigger] stations[i]).name@ == k
}

/// What a run hands back.
pub type ChallengeResult = Result<Vec<StationInfo>, ChallengeError>;

/// `outcome` is what a run over `input` owes: the offset of the first
/// malformed line if there is one; else `TruncatedRecord` if the input ends
/// in the middle of a line; else the listing of the summaries of all its
/// records.
pub open spec fn meets_challenge(outcome: ChallengeResult, input: Seq<u8>) -> bool {
    match first_malformed(input) {
        Some(at) => outcome matches Err(ChallengeError::MalformedRecord(offset)) && offset == at,
        None => if ends_lines(input) {
            outcome matches Ok(stations) && is_listing(stations@, tally_of(records_of(input)))
        } else {
            outcome matches Err(ChallengeError::TruncatedRecord)
        },
    }
}

/// `outcome` is what a run over `input` owes that first cuts it into `n`
/// segments: the index of the first segment whose end could not be found,
/// if there is one, and else what any other run owes.
pub open spec fn meets_chunked_challenge(outcome: ChallengeResult, input: Seq<u8>, n: nat) -> bool {
    match missing_boundary(input, n) {
        Some(index) => outcome matches Err(ChallengeError::NoBoundaryFound(at)) && at == index,
        None => meets_challenge(outcome, input),
    }
}

/// A way to run the challenge over an input held in memory.
pub trait ChallengeRunner {
    /// Into how many segments the runner cuts the input before it goes
    /// through it; one for a runner that does not cut at all.
    spec fn segments() -> nat;

    /// Summarises the records of `input`.
    ///
    /// A runner that cuts the input into segments fails where it finds no
    /// place to cut; any other outcome is the same for every runner.
    fn run(input: &[u8]) -> (outcome: ChallengeResult)
        ensures
            meets_chunked_challenge(outcome, input@, Self::segments()),
    ;
}

} // verus!
