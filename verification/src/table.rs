//! The aggregation map: one summary for every station seen so far.
//!
//! The map keeps its stations in a vector ordered by name, so that a lookup
//! is a binary search and the final listing needs no sorting.
use vstd::prelude::*;
use vstd::slice::slice_to_vec;
use crate::order::{
    KeyOrder,
    key_order,
    lemma_lex_lt_irreflexive,
    lemma_lex_lt_transitive,
    lex_lt,
    strictly_ascending,
};
use crate::helpers::{StationInfo, is_listing};
use crate::station::{StationData, Tally};

verus! {

/// The summaries after one more measurement of the station `key`.
pub open spec fn tally_push(m: Map<Seq<u8>, Tally>, key: Seq<u8>, value: int) -> Map<
    Seq<u8>,
    Tally,
> {
    if m.contains_key(key) {
        m.insert(key, m[key].push(value))
    } else {
        m.insert(key, Tally::single(value))
    }
}

/// The summaries after taking in what another shard knows of the station
/// `key`.
pub open spec fn tally_absorb(m: Map<Seq<u8>, Tally>, key: Seq<u8>, tally: Tally) -> Map<
    Seq<u8>,
    Tally,
> {
    if m.contains_key(key) {
        m.insert(key, m[key].merge(tally))
    } else {
        m.insert(key, tally)
    }
}

/// The summaries of two shards combined: a station that both know has its
/// two tallies merged, a station that only one knows keeps its tally.
pub open spec fn tally_merge(a: Map<Seq<u8>, Tally>, b: Map<Seq<u8>, Tally>) -> Map<
    Seq<u8>,
    Tally,
> {
    Map::new(
        |k: Seq<u8>| a.contains_key(k) || b.contains_key(k),
        |k: Seq<u8>|
            if a.contains_key(k) && b.contains_key(k) {
                a[k].merge(b[k])
            } else if a.contains_key(k) {
                a[k]
            } else {
                b[k]
            },
    )
}

/// The map that holds `tallies[i]` under `names[i]`.
pub open spec fn paired(names: Seq<Seq<u8>>, tallies: Seq<Tally>) -> Map<Seq<u8>, Tally> {
    Map::new(|k: Seq<u8>| names.contains(k), |k: Seq<u8>| tallies[names.index_of(k)])
}

/// In an ascending sequence every name stands at one index only.
proof fn lemma_index_of_name(names: Seq<Seq<u8>>, i: int)
    requires
        strictly_ascending(names),
        0 <= i < names.len(),
    ensures
        names.contains(names[i]),
        names.index_of(names[i]) == i,
{
    let j = names.index_of(names[i]);
    assert(names.contains(names[i]));
    assert(0 <= j < names.len() && names[j] == names[i]);
    lemma_lex_lt_irreflexive(names[i]);
    if j < i {
        assert(lex_lt(names[j], names[i]));
    } else if i < j {
        assert(lex_lt(names[i], names[j]));
    }
}

/// Replacing the tally at one index replaces it under that name.
proof fn lemma_paired_update(names: Seq<Seq<u8>>, tallies: Seq<Tally>, at: int, tally: Tally)
    requires
        strictly_ascending(names),
        names.len() == tallies.len(),
        0 <= at < names.len(),
    ensures
        paired(names, tallies.update(at, tally)) == paired(names, tallies).insert(
            names[at],
            tally,
        ),
{
    let before = paired(names, tallies);
    let after = paired(names, tallies.update(at, tally));
    lemma_index_of_name(names, at);
    assert forall|k: Seq<u8>| after.contains_key(k) implies #[trigger] after[k]
        == before.insert(names[at], tally)[k] by {
        let i = names.index_of(k);
        lemma_index_of_name(names, i);
    }
    assert(after =~= before.insert(names[at], tally));
}

/// Inserting a new name in its place adds it to the map and leaves the
/// other names as they were.
proof fn lemma_paired_insert(
    names: Seq<Seq<u8>>,
    tallies: Seq<Tally>,
    at: int,
    name: Seq<u8>,
    tally: Tally,
)
    requires
        strictly_ascending(names),
        names.len() == tallies.len(),
        0 <= at <= names.len(),
        forall|i: int| 0 <= i < at ==> lex_lt(#[trigger] names[i], name),
        forall|i: int| at <= i < names.len() ==> lex_lt(name, #[trigger] names[i]),
    ensures
        strictly_ascending(names.insert(at, name)),
        !names.contains(name),
        paired(names.insert(at, name), tallies.insert(at, tally)) == paired(
            names,
            tallies,
        ).insert(name, tally),
{
    let grown = names.insert(at, name);
    let before = paired(names, tallies);
    let after = paired(grown, tallies.insert(at, tally));
    lemma_lex_lt_irreflexive(name);
    assert forall|i: int, j: int| 0 <= i < j < grown.len() implies lex_lt(
        #[trigger] grown[i],
        #[trigger] grown[j],
    ) by {
        let a = if i < at { i } else { i - 1 };
        let b = if j < at { j } else { j - 1 };
        if i == at {
            assert(grown[j] == names[b]);
        } else if j == at {
            assert(grown[i] == names[a]);
        } else {
            assert(grown[i] == names[a]);
            assert(grown[j] == names[b]);
        }
    }
    assert(grown[at] == name);
    assert forall|k: Seq<u8>| #[trigger] after.contains_key(k) <==> before.insert(
        name,
        tally,
    ).contains_key(k) by {
        if names.contains(k) {
            let i = names.index_of(k);
            let moved = if i < at { i } else { i + 1 };
            assert(grown[moved] == k);
        }
        if grown.contains(k) && k != name {
            let i = grown.index_of(k);
            let back = if i < at { i } else { i - 1 };
            assert(names[back] == k);
        }
    }
    assert forall|k: Seq<u8>| after.contains_key(k) implies #[trigger] after[k] == before.insert(
        name,
        tally,
    )[k] by {
        let i = grown.index_of(k);
        lemma_index_of_name(grown, i);
        if k != name {
            let back = if i < at { i } else { i - 1 };
            assert(names[back] == k);
            lemma_index_of_name(names, back);
        } else {
            lemma_index_of_name(grown, at);
        }
    }
    assert(after =~= before.insert(name, tally));
}

/// The summaries of all stations, each under its name.
pub struct AggregationMap {
    keys: Vec<Vec<u8>>,
    data: Vec<StationData>,
    records: u64,
}

impl View for AggregationMap {
    type V = Map<Seq<u8>, Tally>;

    closed spec fn view(&self) -> Map<Seq<u8>, Tally> {
        paired(self.names(), self.tallies())
    }
}

impl AggregationMap {
    /// The station names in the order in which the map keeps them.
    pub closed spec fn names(&self) -> Seq<Seq<u8>> {
        Seq::new(self.keys@.len(), |i: int| self.keys@[i]@)
    }

    /// The tally of each station, in the order of `names`.
    pub closed spec fn tallies(&self) -> Seq<Tally> {
        Seq::new(self.data@.len(), |i: int| self.data@[i]@)
    }

    /// How many records the map has taken in.
    pub closed spec fn records(&self) -> nat {
        self.records as nat
    }

    /// The names ascend strictly, every station has a well-formed tally,
    /// and no station has more measurements than the map has records.
    pub closed spec fn wf(&self) -> bool {
        &&& self.keys@.len() == self.data@.len()
        &&& strictly_ascending(self.names())
        &&& forall|i: int|
            0 <= i < self.data@.len() ==> (#[trigger] self.data@[i]).wf() && self.data@[i].count
                <= self.records
    }

    /// What a well-formed map holds for a station is a well-formed tally
    /// of at most as many measurements as the map has records.
    pub proof fn lemma_entries_wf(&self)
        requires
            self.wf(),
        ensures
            forall|k: Seq<u8>| #[trigger]
                self@.contains_key(k) ==> self@[k].wf() && self@[k].count <= self.records(),
            self.records() <= u64::MAX,
    {
        assert forall|k: Seq<u8>| #[trigger] self@.contains_key(k) implies self@[k].wf()
            && self@[k].count <= self.records() by {
            let i = self.names().index_of(k);
            assert(self.data@[i].wf());
        }
    }

    /// A map without stations.
    pub fn new() -> (map: AggregationMap)
        ensures
            map@ == Map::<Seq<u8>, Tally>::empty(),
            map.records() == 0,
            map.wf(),
    {
        let map = AggregationMap { keys: Vec::new(), data: Vec::new(), records: 0 };
        assert(map@ =~= Map::<Seq<u8>, Tally>::empty());
        map
    }

    /// Finds `key` by binary search: the index at which it stands, or the
    /// index at which it would have to be inserted.
    fn locate(&self, key: &[u8]) -> (place: (usize, bool))
        requires
            self.wf(),
        ensures
            place.0 <= self.names().len(),
            place.1 ==> place.0 < self.names().len() && self.names()[place.0 as int] == key@,
            !place.1 ==> forall|i: int|
                0 <= i < place.0 ==> lex_lt(#[trigger] self.names()[i], key@),
            !place.1 ==> forall|i: int|
                place.0 <= i < self.names().len() ==> lex_lt(key@, #[trigger] self.names()[i]),
    {
        let mut low: usize = 0;
        let mut high: usize = self.keys.len();
        while low < high
            invariant
                self.wf(),
                low <= high <= self.names().len(),
                forall|i: int| 0 <= i < low ==> lex_lt(#[trigger] self.names()[i], key@),
                forall|i: int|
                    high <= i < self.names().len() ==> lex_lt(key@, #[trigger] self.names()[i]),
            decreases high - low,
        {
            let middle: usize = low + (high - low) / 2;
            let ghost pivot = self.names()[middle as int];
            match key_order(self.keys[middle].as_slice(), key) {
                KeyOrder::Same => {
                    return (middle, true);
                },
                KeyOrder::Before => {
                    assert forall|i: int| 0 <= i < middle + 1 implies lex_lt(
                        #[trigger] self.names()[i],
                        key@,
                    ) by {
                        if i < middle {
                            lemma_lex_lt_transitive(self.names()[i], pivot, key@);
                        }
                    }
                    low = middle + 1;
                },
                KeyOrder::After => {
                    assert forall|i: int| middle <= i < self.names().len() implies lex_lt(
                        key@,
                        #[trigger] self.names()[i],
                    ) by {
                        if middle < i {
                            lemma_lex_lt_transitive(key@, pivot, self.names()[i]);
                        }
                    }
                    high = middle;
                },
            }
        }
        (low, false)
    }

    /// Looks up the summary of one station.
    pub fn get(&self, key: &[u8]) -> (found: Option<StationData>)
        requires
            self.wf(),
        ensures
            match found {
                Some(data) => self@.contains_key(key@) && self@[key@] == data@,
                None => !self@.contains_key(key@),
            },
    {
        let (at, present) = self.locate(key);
        if present {
            proof {
                lemma_index_of_name(self.names(), at as int);
            }
            Some(self.data[at])
        } else {
            proof {
                if self.names().contains(key@) {
                    let i = self.names().index_of(key@);
                    lemma_lex_lt_irreflexive(key@);
                }
            }
            None
        }
    }

    /// Takes in one measurement of the station `key`: a station that the
    /// map knows has its summary extended, a new one gets a summary of
    /// this one measurement.
    pub fn record(&mut self, key: &[u8], measurement: i64)
        requires
            old(self).wf(),
            old(self).records() < u64::MAX,
        ensures
            final(self)@ == tally_push(old(self)@, key@, measurement as int),
            final(self).records() == old(self).records() + 1,
            final(self).wf(),
    {
        let ghost names = self.names();
        let ghost tallies = self.tallies();
        let (at, present) = self.locate(key);
        self.records = self.records + 1;
        if present {
            proof {
                lemma_index_of_name(names, at as int);
            }
            self.data[at].push(measurement);
            proof {
                assert(self.names() =~= names);
                assert(self.tallies() =~= tallies.update(at as int, self.data@[at as int]@));
                lemma_paired_update(names, tallies, at as int, self.data@[at as int]@);
            }
        } else {
            self.keys.insert(at, slice_to_vec(key));
            self.data.insert(at, StationData::new(measurement));
            proof {
                assert(self.names() =~= names.insert(at as int, key@));
                assert(self.tallies() =~= tallies.insert(
                    at as int,
                    Tally::single(measurement as int),
                ));
                lemma_paired_insert(
                    names,
                    tallies,
                    at as int,
                    key@,
                    Tally::single(measurement as int),
                );
            }
        }
    }

    /// Takes in what another shard knows of the station `key`.
    fn absorb(&mut self, key: &[u8], data: StationData)
        requires
            old(self).wf(),
            data.wf(),
            data.count <= old(self).records(),
            old(self)@.contains_key(key@) ==> old(self)@[key@].count + data.count <= old(
                self,
            ).records(),
        ensures
            final(self)@ == tally_absorb(old(self)@, key@, data@),
            final(self).records() == old(self).records(),
            final(self).wf(),
    {
        let ghost names = self.names();
        let ghost tallies = self.tallies();
        let (at, present) = self.locate(key);
        if present {
            proof {
                lemma_index_of_name(names, at as int);
            }
            let merged: StationData = self.data[at].merge(data);
            self.data[at] = merged;
            proof {
                assert(self.names() =~= names);
                assert(self.tallies() =~= tallies.update(at as int, merged@));
                lemma_paired_update(names, tallies, at as int, merged@);
            }
        } else {
            self.keys.insert(at, slice_to_vec(key));
            self.data.insert(at, data);
            proof {
                assert(self.names() =~= names.insert(at as int, key@));
                assert(self.tallies() =~= tallies.insert(at as int, data@));
                lemma_paired_insert(names, tallies, at as int, key@, data@);
            }
        }
    }

    /// Combines the maps of two shards: a station that both know has its
    /// two summaries merged, a station that one of them knows is taken
    /// over as it is.
    pub fn merge(self, other: &AggregationMap) -> (merged: AggregationMap)
        requires
            self.wf(),
            other.wf(),
            self.records() + other.records() <= u64::MAX,
        ensures
            merged@ == tally_merge(self@, other@),
            merged.records() == self.records() + other.records(),
            merged.wf(),
    {
        let ghost names = other.names();
        let ghost tallies = other.tallies();
        let mut merged = self;
        merged.records = merged.records + other.records;
        let mut i: usize = 0;
        proof {
            self.lemma_entries_wf();
            assert(merged.names() =~= self.names());
            assert(merged.tallies() =~= self.tallies());
            assert(merged@ =~= tally_merge(self@, paired(names.take(0), tallies.take(0))));
        }
        while i < other.keys.len()
            invariant
                self.wf(),
                other.wf(),
                merged.wf(),
                names == other.names(),
                tallies == other.tallies(),
                i <= names.len(),
                merged.records() == self.records() + other.records(),
                merged@ == tally_merge(self@, paired(names.take(i as int), tallies.take(i as int))),
                forall|k: Seq<u8>| #[trigger]
                    self@.contains_key(k) ==> self@[k].count <= self.records(),
            decreases names.len() - i,
        {
            let ghost name = names[i as int];
            let ghost before = paired(names.take(i as int), tallies.take(i as int));
            proof {
                lemma_paired_insert(
                    names.take(i as int),
                    tallies.take(i as int),
                    i as int,
                    name,
                    tallies[i as int],
                );
                assert(names.take(i as int).insert(i as int, name) =~= names.take(i + 1));
                assert(tallies.take(i as int).insert(i as int, tallies[i as int]) =~= tallies.take(
                    i + 1,
                ));
                assert(other.data@[i as int].wf());
                assert(!before.contains_key(name));
            }
            merged.absorb(other.keys[i].as_slice(), other.data[i]);
            proof {
                assert(merged@ =~= tally_merge(self@, before.insert(name, tallies[i as int])));
            }
            i = i + 1;
        }
        proof {
            assert(names.take(i as int) =~= names);
            assert(tallies.take(i as int) =~= tallies);
        }
        merged
    }

    /// Lists the stations in the order of their names, each with its
    /// smallest measurement, its mean and its largest measurement.
    pub fn finalize(&self) -> (stations: Vec<StationInfo>)
        requires
            self.wf(),
        ensures
            is_listing(stations@, self@),
            forall|i: int|
                0 <= i < stations@.len() ==> (#[trigger] stations@[i]).min <= stations@[i].avg
                    <= stations@[i].max,
    {
        let mut stations: Vec<StationInfo> = Vec::new();
        let mut i: usize = 0;
        while i < self.keys.len()
            invariant
                self.wf(),
                i <= self.keys@.len(),
                stations@.len() == i,
                forall|j: int|
                    0 <= j < i ==> (#[trigger] stations@[j]).name@ == self.names()[j]
                        && stations@[j].reports(self.tallies()[j]) && stations@[j].min
                        <= stations@[j].avg <= stations@[j].max,
            decreases self.keys@.len() - i,
        {
            let data: StationData = self.data[i];
            assert(self.data@[i as int].wf());
            let info = StationInfo::new(
                slice_to_vec(self.keys[i].as_slice()),
                data.min,
                data.max,
                data.avg(),
            );
            stations.push(info);
            i = i + 1;
        }
        proof {
            let names = self.names();
            assert forall|j: int| 0 <= j < stations@.len() implies self@.contains_key(
                (#[trigger] stations@[j]).name@,
            ) && stations@[j].reports(self@[stations@[j].name@]) by {
                lemma_index_of_name(names, j);
            }
            assert forall|k: Seq<u8>| #[trigger] self@.contains_key(k) implies exists|j: int|
                0 <= j < stations@.len() && (#[trigger] stations@[j]).name@ == k by {
                let j = names.index_of(k);
                assert(stations@[j].name@ == k);
            }
        }
        stations
    }
}

/// The maps that `maps` stand for, one for one.
pub open spec fn views(maps: Seq<AggregationMap>) -> Seq<Map<Seq<u8>, Tally>> {
    Seq::new(maps.len(), |i: int| maps[i]@)
}

/// The records of all of `maps` together.
pub open spec fn total_records(maps: Seq<AggregationMap>) -> nat
    decreases maps.len(),
{
    if maps.len() == 0 {
        0
    } else {
        total_records(maps.drop_last()) + maps.last().records()
    }
}

/// The summaries of any number of shards combined, from the first to the
/// last.
pub open spec fn tally_merge_all(shards: Seq<Map<Seq<u8>, Tally>>) -> Map<Seq<u8>, Tally>
    decreases shards.len(),
{
    if shards.len() == 0 {
        Map::empty()
    } else {
        tally_merge(tally_merge_all(shards.drop_last()), shards.last())
    }
}

/// Combines the maps of all shards into one.
pub fn merge_all(maps: &Vec<AggregationMap>) -> (merged: AggregationMap)
    requires
        forall|i: int| 0 <= i < maps@.len() ==> (#[trigger] maps@[i]).wf(),
        total_records(maps@) <= u64::MAX,
    ensures
        merged@ == tally_merge_all(views(maps@)),
        merged.records() == total_records(maps@),
        merged.wf(),
{
    let mut merged = AggregationMap::new();
    let mut i: usize = 0;
    proof {
        assert(views(maps@.take(0)) =~= Seq::empty());
        lemma_total_records_grows(maps@, 0);
    }
    while i < maps.len()
        invariant
            i <= maps@.len(),
            forall|j: int| 0 <= j < maps@.len() ==> (#[trigger] maps@[j]).wf(),
            total_records(maps@) <= u64::MAX,
            merged.wf(),
            merged@ == tally_merge_all(views(maps@.take(i as int))),
            merged.records() == total_records(maps@.take(i as int)),
        decreases maps@.len() - i,
    {
        proof {
            let longer = maps@.take(i + 1);
            assert(longer.drop_last() =~= maps@.take(i as int));
            assert(views(longer).drop_last() =~= views(maps@.take(i as int)));
            assert(views(longer).last() == maps@[i as int]@);
            lemma_total_records_grows(maps@, i + 1);
        }
        merged = merged.merge(&maps[i]);
        i = i + 1;
    }
    proof {
        assert(maps@.take(i as int) =~= maps@);
    }
    merged
}

/// The records of the first `k` maps are no more than those of all.
proof fn lemma_total_records_grows(maps: Seq<AggregationMap>, k: int)
    requires
        0 <= k <= maps.len(),
    ensures
        total_records(maps.take(k)) <= total_records(maps),
    decreases maps.len() - k,
{
    if k < maps.len() {
        assert(maps.take(k + 1).drop_last() =~= maps.take(k));
        lemma_total_records_grows(maps, k + 1);
    } else {
        assert(maps.take(k) =~= maps);
    }
}

} // verus!
