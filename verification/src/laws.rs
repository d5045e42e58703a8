//! What holds of the aggregation whatever the input: splitting is stable,
//! and summaries do not depend on how the input was cut into shards.
use vstd::prelude::*;
use crate::display::rounded_tenths;
use crate::engine::{
    first_malformed,
    lemma_first_malformed_concat,
    lemma_last_newline_concat,
    lemma_records_concat,
    lemma_tally_extend_concat,
    records_of,
    tally_extend,
    tally_of,
};
use crate::lines::{
    complete_len,
    complete_part,
    ends_lines,
    last_newline,
    lemma_last_newline,
    no_newline,
    partial_part,
};
use crate::helpers::{
    ChallengeError,
    ChallengeResult,
    StationInfo,
    is_listing,
    meets_challenge,
    meets_chunked_challenge,
};
use crate::planner::missing_boundary;
use crate::order::{lemma_lex_lt_asymmetric, lemma_lex_lt_irreflexive, lex_lt};
use crate::station::Tally;
use crate::table::{tally_merge, tally_merge_all, tally_push};

verus! {

/// Splitting cuts a buffer in two without losing or adding a byte, the
/// first part ends with a complete line, and the second holds no newline.
pub proof fn law_split_parts(buffer: Seq<u8>)
    ensures
        complete_part(buffer) + partial_part(buffer) == buffer,
        ends_lines(complete_part(buffer)),
        no_newline(partial_part(buffer)),
{
    lemma_last_newline(buffer);
    assert(complete_part(buffer) + partial_part(buffer) =~= buffer);
    if complete_len(buffer) > 0 {
        assert(complete_part(buffer).last() == buffer[last_newline(buffer)]);
    }
    assert forall|i: int| 0 <= i < partial_part(buffer).len() implies partial_part(buffer)[i]
        != crate::lines::NEWLINE by {
        assert(partial_part(buffer)[i] == buffer[complete_len(buffer) + i]);
    }
}

/// Complete lines followed by a partial line split into exactly these
/// two.
pub proof fn law_split_of_joined(complete: Seq<u8>, partial: Seq<u8>)
    requires
        ends_lines(complete),
        no_newline(partial),
    ensures
        complete_part(complete + partial) == complete,
        partial_part(complete + partial) == partial,
{
    lemma_last_newline(partial);
    if last_newline(partial) >= 0 {
        assert(partial[last_newline(partial)] == crate::lines::NEWLINE);
    }
    lemma_last_newline_concat(complete, partial);
    assert(partial_part(partial) =~= partial);
    assert(complete_part(complete + partial) =~= complete);
}

/// Splitting is stable: the two parts of a buffer, joined and split
/// again, come out as they were.
pub proof fn law_split_idempotent(buffer: Seq<u8>)
    ensures
        complete_part(complete_part(buffer) + partial_part(buffer)) == complete_part(buffer),
        partial_part(complete_part(buffer) + partial_part(buffer)) == partial_part(buffer),
{
    law_split_parts(buffer);
}

/// Merging with the empty map changes nothing.
pub proof fn law_merge_empty(m: Map<Seq<u8>, Tally>)
    ensures
        tally_merge(Map::empty(), m) == m,
        tally_merge(m, Map::empty()) == m,
{
    assert(tally_merge(Map::empty(), m) =~= m);
    assert(tally_merge(m, Map::empty()) =~= m);
}

/// Merging two maps does not depend on their order.
pub proof fn law_merge_commutative(a: Map<Seq<u8>, Tally>, b: Map<Seq<u8>, Tally>)
    ensures
        tally_merge(a, b) == tally_merge(b, a),
{
    assert(tally_merge(a, b) =~= tally_merge(b, a));
}

/// Merging three maps gives the same result however they are grouped.
pub proof fn law_merge_associative(
    a: Map<Seq<u8>, Tally>,
    b: Map<Seq<u8>, Tally>,
    c: Map<Seq<u8>, Tally>,
)
    ensures
        tally_merge(tally_merge(a, b), c) == tally_merge(a, tally_merge(b, c)),
{
    assert(tally_merge(tally_merge(a, b), c) =~= tally_merge(a, tally_merge(b, c)));
}

/// A measurement taken into the merged map is a measurement taken into
/// the second shard before merging.
pub proof fn law_push_into_merge(
    a: Map<Seq<u8>, Tally>,
    b: Map<Seq<u8>, Tally>,
    key: Seq<u8>,
    value: int,
)
    ensures
        tally_push(tally_merge(a, b), key, value) == tally_merge(a, tally_push(b, key, value)),
{
    assert(tally_push(tally_merge(a, b), key, value) =~= tally_merge(
        a,
        tally_push(b, key, value),
    ));
}

/// Taking records into a map one by one is merging the map with the
/// summaries of those records.
pub proof fn law_extend_is_merge(m: Map<Seq<u8>, Tally>, records: Seq<(Seq<u8>, int)>)
    ensures
        tally_extend(m, records) == tally_merge(m, tally_of(records)),
    decreases records.len(),
{
    if records.len() == 0 {
        law_merge_empty(m);
    } else {
        law_extend_is_merge(m, records.drop_last());
        law_push_into_merge(
            m,
            tally_of(records.drop_last()),
            records.last().0,
            records.last().1,
        );
    }
}

/// The summaries of records cut into two shards and merged are the
/// summaries of the records as a whole: every station has the same
/// smallest and largest measurement, the same total and the same count.
pub proof fn law_two_shards(first: Seq<(Seq<u8>, int)>, second: Seq<(Seq<u8>, int)>)
    ensures
        tally_of(first + second) == tally_merge(tally_of(first), tally_of(second)),
{
    lemma_tally_extend_concat(Map::empty(), first, second);
    law_extend_is_merge(tally_of(first), second);
}

/// All shards one after the other.
pub open spec fn joined(shards: Seq<Seq<u8>>) -> Seq<u8>
    decreases shards.len(),
{
    if shards.len() == 0 {
        Seq::empty()
    } else {
        joined(shards.drop_last()) + shards.last()
    }
}

/// The summaries of each shard, taken alone.
pub open spec fn shard_tallies(shards: Seq<Seq<u8>>) -> Seq<Map<Seq<u8>, Tally>> {
    Seq::new(shards.len(), |i: int| tally_of(records_of(shards[i])))
}

/// Shards that each end with a complete line join to an input that ends
/// with a complete line.
pub proof fn lemma_joined_ends_lines(shards: Seq<Seq<u8>>)
    requires
        forall|i: int| 0 <= i < shards.len() ==> ends_lines(#[trigger] shards[i]),
    ensures
        ends_lines(joined(shards)),
    decreases shards.len(),
{
    if shards.len() > 0 {
        lemma_joined_ends_lines(shards.drop_last());
        let front = joined(shards.drop_last());
        if shards.last().len() == 0 {
            assert(front + shards.last() =~= front);
        } else {
            assert((front + shards.last()).last() == shards.last().last());
        }
    }
}

/// However an input is cut into shards at line ends, aggregating each
/// shard alone and merging the results gives the summaries of the input
/// as a whole.
pub proof fn law_shards_merge_to_whole(shards: Seq<Seq<u8>>)
    requires
        forall|i: int| 0 <= i < shards.len() ==> ends_lines(#[trigger] shards[i]),
    ensures
        tally_merge_all(shard_tallies(shards)) == tally_of(records_of(joined(shards))),
    decreases shards.len(),
{
    if shards.len() > 0 {
        let front = shards.drop_last();
        law_shards_merge_to_whole(front);
        lemma_joined_ends_lines(front);
        lemma_records_concat(joined(front), shards.last());
        law_two_shards(records_of(joined(front)), records_of(shards.last()));
        assert(shard_tallies(shards).drop_last() =~= shard_tallies(front));
    }
}

/// A shard with a malformed line makes the whole input malformed, and an
/// input of well-formed shards is well-formed.
pub proof fn law_shards_malformed(shards: Seq<Seq<u8>>)
    requires
        forall|i: int| 0 <= i < shards.len() ==> ends_lines(#[trigger] shards[i]),
    ensures
        first_malformed(joined(shards)).is_none() <==> forall|i: int|
            0 <= i < shards.len() ==> first_malformed(#[trigger] shards[i]).is_none(),
    decreases shards.len(),
{
    if shards.len() > 0 {
        let front = shards.drop_last();
        law_shards_malformed(front);
        lemma_joined_ends_lines(front);
        lemma_first_malformed_concat(joined(front), shards.last());
        if first_malformed(joined(shards)).is_none() {
            assert forall|i: int| 0 <= i < shards.len() implies first_malformed(
                #[trigger] shards[i],
            ).is_none() by {
                if i < front.len() {
                    assert(front[i] == shards[i]);
                }
            }
        } else if first_malformed(joined(front)).is_some() {
            let i = choose|i: int| 0 <= i < front.len() && !first_malformed(front[i]).is_none();
            assert(front[i] == shards[i]);
        }
    }
}

/// Whatever the records, every station in their summaries has at least
/// one measurement, and its mean lies between its smallest and its largest
/// measurement.
pub proof fn law_summaries_well_formed(records: Seq<(Seq<u8>, int)>)
    ensures
        forall|k: Seq<u8>| #[trigger]
            tally_of(records).contains_key(k) ==> {
                &&& tally_of(records)[k].wf()
                &&& tally_of(records)[k].count >= 1
                &&& tally_of(records)[k].min <= tally_of(records)[k].mean() <= tally_of(
                    records,
                )[k].max
            },
    decreases records.len(),
{
    if records.len() > 0 {
        let earlier = tally_of(records.drop_last());
        law_summaries_well_formed(records.drop_last());
        assert forall|k: Seq<u8>| #[trigger] tally_of(records).contains_key(k) implies {
            &&& tally_of(records)[k].wf()
            &&& tally_of(records)[k].count >= 1
            &&& tally_of(records)[k].min <= tally_of(records)[k].mean() <= tally_of(records)[k].max
        } by {
            if k == records.last().0 {
                if earlier.contains_key(k) {
                    earlier[k].lemma_push_wf(records.last().1);
                } else {
                    Tally::lemma_single_wf(records.last().1);
                }
            } else {
                assert(earlier.contains_key(k));
            }
            tally_of(records)[k].lemma_mean_between();
        }
    }
}

/// Two measurements may be taken in in either order.
pub proof fn law_push_commutes(
    m: Map<Seq<u8>, Tally>,
    first: (Seq<u8>, int),
    second: (Seq<u8>, int),
)
    ensures
        tally_push(tally_push(m, first.0, first.1), second.0, second.1) == tally_push(
            tally_push(m, second.0, second.1),
            first.0,
            first.1,
        ),
{
    assert(tally_push(tally_push(m, first.0, first.1), second.0, second.1) =~= tally_push(
        tally_push(m, second.0, second.1),
        first.0,
        first.1,
    ));
}

/// A record in the middle of a run may as well come last.
proof fn lemma_record_moves_last(records: Seq<(Seq<u8>, int)>, at: int)
    requires
        0 <= at < records.len(),
    ensures
        tally_of(records) == tally_push(
            tally_of(records.remove(at)),
            records[at].0,
            records[at].1,
        ),
    decreases records.len(),
{
    if at == records.len() - 1 {
        assert(records.remove(at) =~= records.drop_last());
    } else {
        let front = records.drop_last();
        lemma_record_moves_last(front, at);
        law_push_commutes(tally_of(front.remove(at)), records[at], records.last());
        assert(records.remove(at).drop_last() =~= front.remove(at));
        assert(records.remove(at).last() == records.last());
    }
}

/// The summaries do not depend on the order of the records: two runs that
/// hold the same records equally often have the same summaries.
pub proof fn law_record_order_irrelevant(first: Seq<(Seq<u8>, int)>, second: Seq<(Seq<u8>, int)>)
    requires
        first.to_multiset() == second.to_multiset(),
    ensures
        tally_of(first) == tally_of(second),
    decreases first.len(),
{
    vstd::seq_lib::to_multiset_len(first);
    vstd::seq_lib::to_multiset_len(second);
    if first.len() == 0 {
        assert(second.len() == 0);
        assert(first =~= second);
    } else {
        let record = first.last();
        assert(first.contains(record));
        vstd::seq_lib::to_multiset_contains(first, record);
        vstd::seq_lib::to_multiset_contains(second, record);
        let at = second.index_of(record);
        assert(first.remove(first.len() - 1) =~= first.drop_last());
        vstd::seq_lib::to_multiset_remove(first, first.len() - 1);
        vstd::seq_lib::to_multiset_remove(second, at);
        law_record_order_irrelevant(first.drop_last(), second.remove(at));
        lemma_record_moves_last(second, at);
    }
}

/// All records of all shards, shard after shard.
pub open spec fn all_records(shards: Seq<Seq<(Seq<u8>, int)>>) -> Seq<(Seq<u8>, int)>
    decreases shards.len(),
{
    if shards.len() == 0 {
        Seq::empty()
    } else {
        all_records(shards.drop_last()) + shards.last()
    }
}

/// The summaries of each shard of records, taken alone.
pub open spec fn record_shard_tallies(shards: Seq<Seq<(Seq<u8>, int)>>) -> Seq<
    Map<Seq<u8>, Tally>,
> {
    Seq::new(shards.len(), |i: int| tally_of(shards[i]))
}

/// However the records of an input are dealt out to shards, the summaries
/// of the shards merge to the summaries of the input: for every station the
/// same smallest and largest measurement, the same total and the same
/// count.
pub proof fn law_any_partition(whole: Seq<(Seq<u8>, int)>, shards: Seq<Seq<(Seq<u8>, int)>>)
    requires
        whole.to_multiset() == all_records(shards).to_multiset(),
    ensures
        tally_merge_all(record_shard_tallies(shards)) == tally_of(whole),
{
    lemma_record_shards(shards);
    law_record_order_irrelevant(whole, all_records(shards));
}

/// The summaries of shards of records merge to the summaries of all their
/// records.
proof fn lemma_record_shards(shards: Seq<Seq<(Seq<u8>, int)>>)
    ensures
        tally_merge_all(record_shard_tallies(shards)) == tally_of(all_records(shards)),
    decreases shards.len(),
{
    if shards.len() > 0 {
        let front = shards.drop_last();
        lemma_record_shards(front);
        law_two_shards(all_records(front), shards.last());
        assert(record_shard_tallies(shards).drop_last() =~= record_shard_tallies(front));
    }
}

/// A map has one listing only: two listings of the same summaries name the
/// same stations in the same order with the same numbers. So two runs that
/// arrive at the same summaries hand back the same result.
pub proof fn law_listing_unique(
    first: Seq<StationInfo>,
    second: Seq<StationInfo>,
    summaries: Map<Seq<u8>, Tally>,
)
    requires
        is_listing(first, summaries),
        is_listing(second, summaries),
    ensures
        first.len() == second.len(),
        forall|i: int|
            0 <= i < first.len() ==> {
                &&& (#[trigger] first[i]).name@ == second[i].name@
                &&& first[i].min == second[i].min
                &&& first[i].avg == second[i].avg
                &&& first[i].max == second[i].max
            },
{
    let shorter = if first.len() <= second.len() { first.len() as int } else { second.len() as int };
    lemma_listings_agree(first, second, summaries, shorter);
    if first.len() <= second.len() {
        lemma_listing_no_longer(first, second, summaries);
    } else {
        assert forall|i: int| 0 <= i < second.len() implies (#[trigger] second[i]).name@
            == first[i].name@ by {}
        lemma_listing_no_longer(second, first, summaries);
    }
}

/// Two listings of the same summaries name the same stations at their
/// first `upto` places.
proof fn lemma_listings_agree(
    first: Seq<StationInfo>,
    second: Seq<StationInfo>,
    summaries: Map<Seq<u8>, Tally>,
    upto: int,
)
    requires
        is_listing(first, summaries),
        is_listing(second, summaries),
        0 <= upto <= first.len(),
        upto <= second.len(),
    ensures
        forall|i: int| 0 <= i < upto ==> (#[trigger] first[i]).name@ == second[i].name@,
    decreases upto,
{
    if upto > 0 {
        lemma_listings_agree(first, second, summaries, upto - 1);
        let i = upto - 1;
        let a = first[i].name@;
        let b = second[i].name@;
        assert(summaries.contains_key(a));
        assert(summaries.contains_key(b));
        let j = choose|j: int| 0 <= j < second.len() && (#[trigger] second[j]).name@ == a;
        let k = choose|k: int| 0 <= k < first.len() && (#[trigger] first[k]).name@ == b;
        lemma_lex_lt_irreflexive(a);
        lemma_lex_lt_irreflexive(b);
        if j < i {
            assert(first[j].name@ == second[j].name@);
            assert(lex_lt(first[j].name@, first[i].name@));
        } else if k < i {
            assert(first[k].name@ == second[k].name@);
            assert(lex_lt(second[k].name@, second[i].name@));
        } else if j > i {
            assert(lex_lt(second[i].name@, second[j].name@));
            if k > i {
                assert(lex_lt(first[i].name@, first[k].name@));
                lemma_lex_lt_asymmetric(a, b);
            }
        }
    }
}

/// Of two listings of the same summaries that agree as far as the first
/// reaches, the second is no longer than the first.
proof fn lemma_listing_no_longer(
    first: Seq<StationInfo>,
    second: Seq<StationInfo>,
    summaries: Map<Seq<u8>, Tally>,
)
    requires
        is_listing(first, summaries),
        is_listing(second, summaries),
        first.len() <= second.len(),
        forall|i: int| 0 <= i < first.len() ==> (#[trigger] first[i]).name@ == second[i].name@,
    ensures
        first.len() == second.len(),
{
    if first.len() < second.len() {
        let extra = second[first.len() as int].name@;
        assert(summaries.contains_key(extra));
        let k = choose|k: int| 0 <= k < first.len() && (#[trigger] first[k]).name@ == extra;
        assert(first[k].name@ == second[k].name@);
        assert(lex_lt(second[k].name@, second[first.len() as int].name@));
        lemma_lex_lt_irreflexive(extra);
    }
}

/// Any two runs over the same input come to the same end, however each
/// of them cut the input up: both fail with the same error, or both list
/// the same stations in the same order with the same numbers.
pub proof fn law_runs_agree(first: ChallengeResult, second: ChallengeResult, input: Seq<u8>)
    requires
        meets_challenge(first, input),
        meets_challenge(second, input),
    ensures
        first.is_ok() == second.is_ok(),
        first matches Err(error) ==> second == Err::<Vec<StationInfo>, ChallengeError>(error),
        first matches Ok(stations) ==> {
            &&& second matches Ok(others)
            &&& stations@.len() == others@.len()
            &&& forall|i: int|
                0 <= i < stations@.len() ==> {
                    &&& (#[trigger] stations@[i]).name@ == others@[i].name@
                    &&& stations@[i].min == others@[i].min
                    &&& stations@[i].avg == others@[i].avg
                    &&& stations@[i].max == others@[i].max
                }
        },
{
    if let Ok(stations) = first {
        if let Ok(others) = second {
            law_listing_unique(stations@, others@, tally_of(records_of(input)));
        }
    }
}

/// A run that cuts the input into `n` segments, and finds a place for
/// every cut, comes to the same end as a run that takes the input in one
/// piece: the same error, or the same stations in the same order with the
/// same numbers.
pub proof fn law_chunked_run_agrees(
    chunked: ChallengeResult,
    plain: ChallengeResult,
    input: Seq<u8>,
    n: nat,
)
    requires
        meets_chunked_challenge(chunked, input, n),
        meets_challenge(plain, input),
        missing_boundary(input, n).is_none(),
    ensures
        chunked.is_ok() == plain.is_ok(),
        chunked matches Err(error) ==> plain == Err::<Vec<StationInfo>, ChallengeError>(error),
        chunked matches Ok(stations) ==> {
            &&& plain matches Ok(others)
            &&& stations@.len() == others@.len()
            &&& forall|i: int|
                0 <= i < stations@.len() ==> {
                    &&& (#[trigger] stations@[i]).name@ == others@[i].name@
                    &&& stations@[i].min == others@[i].min
                    &&& stations@[i].avg == others@[i].avg
                    &&& stations@[i].max == others@[i].max
                }
        },
{
    law_runs_agree(chunked, plain, input);
}

/// The tenths that a mean is shown with are the tenths of the exact mean:
/// the size of the total over the count, rounded to the nearest tenth, a
/// size halfway between two tenths going to the larger. Cutting the mean
/// off at a thousandth first changes nothing that is shown.
pub proof fn law_shown_mean_is_exact(tally: Tally)
    requires
        tally.count >= 1,
    ensures
        rounded_tenths(tally.mean()) == ((if tally.sum < 0 {
            -tally.sum
        } else {
            tally.sum
        }) + 50 * tally.count) / (100 * (tally.count as int)),
{
    let n = tally.count as int;
    let size = if tally.sum < 0 { -tally.sum } else { tally.sum };
    let q = size / n;
    vstd::arithmetic::div_mod::lemma_fundamental_div_mod(size, n);
    vstd::arithmetic::div_mod::lemma_mod_bound(size, n);
    assert(size + 50 * n == (q + 50) * n + size % n) by (nonlinear_arith)
        requires
            size == n * q + size % n,
    ;
    vstd::arithmetic::div_mod::lemma_fundamental_div_mod_converse(
        size + 50 * n,
        n,
        q + 50,
        size % n,
    );
    vstd::arithmetic::div_mod::lemma_div_denominator(size + 50 * n, n, 100);
    assert(n * 100 == 100 * n);
    assert(q >= 0) by (nonlinear_arith)
        requires
            size >= 0,
            n > 0,
            size == n * q + size % n,
            size % n < n,
    ;
}

} // verus!
