//! One line of input: a station name, a separator and a measurement.
use vstd::prelude::*;
use crate::measurement::{find_byte, first_index_of, measurement_of, parse_measurement};

verus! {

/// The byte that parts the station name from the measurement.
pub const SEPARATOR: u8 = 59;

/// The station name and the measurement that `line` holds, if it is
/// well-formed: a name that is not empty, the first separator of the line,
/// and after it the text of a measurement. The line is taken as it stands;
/// no white space is trimmed.
pub open spec fn record_of(line: Seq<u8>) -> Option<(Seq<u8>, int)> {
    let at = first_index_of(line, SEPARATOR);
    if at == 0 || at >= line.len() {
        None
    } else {
        match measurement_of(line.subrange(at + 1, line.len() as int)) {
            Some(value) => Some((line.subrange(0, at), value)),
            None => None,
        }
    }
}

/// Splits one line, given without its newline, into station name and
/// measurement.
///
/// Returns `None` for a malformed line: one without a separator, with an
/// empty name, or whose text after the first separator is not a
/// measurement.
pub fn parse_record(line: &[u8]) -> (record: Option<(&[u8], i64)>)
    ensures
        match record {
            Some((name, value)) => record_of(line@) == Some((name@, value as int)),
            None => record_of(line@).is_none(),
        },
{
    let len: usize = line.len();
    let at: usize = find_byte(line, SEPARATOR);
    if at == 0 || at >= len {
        return None;
    }
    match parse_measurement(&line[at + 1..len]) {
        Some(value) => Some((&line[0..at], value)),
        None => None,
    }
}

} // verus!
