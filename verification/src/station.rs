//! The running summary kept for one station.
use vstd::prelude::*;

verus! {

/// What is known of one station in exact arithmetic: the smallest and the
/// largest measurement, their total, and how many there were.
pub struct Tally {
    pub min: int,
    pub max: int,
    pub sum: int,
    pub count: nat,
}

impl Tally {
    /// The tally of a single measurement.
    pub open spec fn single(measurement: int) -> Tally {
        Tally { min: measurement, max: measurement, sum: measurement, count: 1 }
    }

    /// The tally after one more measurement.
    pub open spec fn push(self, measurement: int) -> Tally {
        Tally {
            min: if measurement < self.min { measurement } else { self.min },
            max: if measurement > self.max { measurement } else { self.max },
            sum: self.sum + measurement,
            count: self.count + 1,
        }
    }

    /// The tally of the measurements of both `self` and `other`.
    pub open spec fn merge(self, other: Tally) -> Tally {
        Tally {
            min: if self.min < other.min { self.min } else { other.min },
            max: if self.max > other.max { self.max } else { other.max },
            sum: self.sum + other.sum,
            count: self.count + other.count,
        }
    }

    /// A tally of at least one measurement whose total lies between `count`
    /// times the smallest and `count` times the largest of them.
    pub open spec fn wf(self) -> bool {
        &&& self.count >= 1
        &&& self.min <= self.max
        &&& self.min * self.count <= self.sum <= self.max * self.count
    }

    /// The mean of the measurements, cut off toward zero at a whole unit:
    /// the whole unit nearest to the exact mean that is no farther from
    /// zero.
    pub open spec fn mean(self) -> int {
        if self.sum >= 0 {
            self.sum / (self.count as int)
        } else {
            -((-self.sum) / (self.count as int))
        }
    }

    /// A single measurement is a well-formed tally.
    pub proof fn lemma_single_wf(measurement: int)
        ensures
            Tally::single(measurement).wf(),
    {
    }

    /// Adding a measurement keeps a tally well-formed.
    pub proof fn lemma_push_wf(self, measurement: int)
        requires
            self.wf(),
        ensures
            self.push(measurement).wf(),
    {
        self.lemma_push_is_merge(measurement);
        self.lemma_merge_wf(Tally::single(measurement));
    }

    /// Adding a measurement is merging with the tally of that measurement.
    pub proof fn lemma_push_is_merge(self, measurement: int)
        ensures
            self.push(measurement) == self.merge(Tally::single(measurement)),
    {
    }

    /// Merging keeps tallies well-formed.
    pub proof fn lemma_merge_wf(self, other: Tally)
        requires
            self.wf(),
            other.wf(),
        ensures
            self.merge(other).wf(),
    {
        let merged = self.merge(other);
        let (lo, hi) = (merged.min, merged.max);
        let (n, m) = (self.count as int, other.count as int);
        assert(lo * n <= self.min * n) by (nonlinear_arith)
            requires
                lo <= self.min,
                n >= 0,
        ;
        assert(lo * m <= other.min * m) by (nonlinear_arith)
            requires
                lo <= other.min,
                m >= 0,
        ;
        assert(self.max * n <= hi * n) by (nonlinear_arith)
            requires
                self.max <= hi,
                n >= 0,
        ;
        assert(other.max * m <= hi * m) by (nonlinear_arith)
            requires
                other.max <= hi,
                m >= 0,
        ;
        assert(lo * (n + m) == lo * n + lo * m) by (nonlinear_arith);
        assert(hi * (n + m) == hi * n + hi * m) by (nonlinear_arith);
    }

    /// Merging does not depend on the order of its two arguments.
    pub proof fn lemma_merge_commutative(self, other: Tally)
        ensures
            self.merge(other) == other.merge(self),
    {
    }

    /// Merging three tallies gives the same result however they are
    /// grouped.
    pub proof fn lemma_merge_associative(self, second: Tally, third: Tally)
        ensures
            self.merge(second).merge(third) == self.merge(second.merge(third)),
    {
    }

    /// The mean stands for the exact mean: it has the sign of the total,
    /// and its size is the size of the exact mean without its fraction.
    pub proof fn lemma_mean_exact(self)
        requires
            self.count >= 1,
        ensures
            self.sum >= 0 ==> self.mean() * self.count <= self.sum < (self.mean() + 1)
                * self.count,
            self.sum < 0 ==> (self.mean() - 1) * self.count < self.sum <= self.mean()
                * self.count,
    {
        let n = self.count as int;
        let size = if self.sum >= 0 { self.sum } else { -self.sum };
        let q = size / n;
        vstd::arithmetic::div_mod::lemma_fundamental_div_mod(size, n);
        vstd::arithmetic::div_mod::lemma_mod_bound(size, n);
        assert((q + 1) * n == q * n + n) by (nonlinear_arith);
        assert((-q - 1) * n == -(q * n) - n) by (nonlinear_arith);
        assert((-q) * n == -(q * n)) by (nonlinear_arith);
        assert(n * q == q * n) by (nonlinear_arith);
    }

    /// The mean of a well-formed tally lies between its extremes.
    pub proof fn lemma_mean_between(self)
        requires
            self.wf(),
        ensures
            self.min <= self.mean() <= self.max,
    {
        let n = self.count as int;
        let m = self.mean();
        self.lemma_mean_exact();
        if self.sum >= 0 {
            assert(self.min <= m) by (nonlinear_arith)
                requires
                    n > 0,
                    self.min * n <= self.sum,
                    self.sum < (m + 1) * n,
            ;
            assert(m <= self.max) by (nonlinear_arith)
                requires
                    n > 0,
                    self.sum <= self.max * n,
                    m * n <= self.sum,
            ;
        } else {
            assert(self.min <= m) by (nonlinear_arith)
                requires
                    n > 0,
                    self.min * n <= self.sum,
                    self.sum <= m * n,
            ;
            assert(m <= self.max) by (nonlinear_arith)
                requires
                    n > 0,
                    self.sum <= self.max * n,
                    (m - 1) * n < self.sum,
            ;
        }
    }
}

/// The summary of one station as the aggregation keeps it.
#[derive(Clone, Copy, Debug)]
pub struct StationData {
    pub min: i64,
    pub max: i64,
    /// All measurements added up; the mean is taken from it at the end.
    pub sum: i128,
    pub count: u64,
}

impl View for StationData {
    type V = Tally;

    open spec fn view(&self) -> Tally {
        Tally {
            min: self.min as int,
            max: self.max as int,
            sum: self.sum as int,
            count: self.count as nat,
        }
    }
}

impl StationData {
    /// Well-formed as its tally is.
    pub open spec fn wf(&self) -> bool {
        self@.wf()
    }

    /// The total of a well-formed summary is far from the limits of its
    /// type.
    pub proof fn lemma_sum_bounded(&self)
        requires
            self.wf(),
        ensures
            -0x8000_0000_0000_0000 * self.count <= self.sum <= 0x7fff_ffff_ffff_ffff * self.count,
    {
        let n = self.count as int;
        assert(-0x8000_0000_0000_0000 * n <= self.min * n) by (nonlinear_arith)
            requires
                -0x8000_0000_0000_0000 <= self.min,
                n >= 0,
        ;
        assert(self.max * n <= 0x7fff_ffff_ffff_ffff * n) by (nonlinear_arith)
            requires
                self.max <= 0x7fff_ffff_ffff_ffff,
                n >= 0,
        ;
    }

    /// Starts the summary of a station with its first measurement.
    pub fn new(measurement: i64) -> (data: StationData)
        ensures
            data@ == Tally::single(measurement as int),
            data.wf(),
    {
        StationData { min: measurement, max: measurement, sum: measurement as i128, count: 1 }
    }

    /// Records one more measurement of the station.
    pub fn push(&mut self, measurement: i64)
        requires
            old(self).wf(),
            old(self).count < u64::MAX,
        ensures
            final(self)@ == old(self)@.push(measurement as int),
            final(self).wf(),
    {
        proof {
            self.lemma_sum_bounded();
            self@.lemma_push_wf(measurement as int);
        }
        if measurement < self.min {
            self.min = measurement;
        } else if measurement > self.max {
            self.max = measurement;
        }
        self.sum = self.sum + measurement as i128;
        self.count = self.count + 1;
    }

    /// Combines the summaries that two shards hold of one station.
    pub fn merge(self, other: StationData) -> (merged: StationData)
        requires
            self.wf(),
            other.wf(),
            self.count + other.count <= u64::MAX,
        ensures
            merged@ == self@.merge(other@),
            merged.wf(),
    {
        proof {
            self.lemma_sum_bounded();
            other.lemma_sum_bounded();
            self@.lemma_merge_wf(other@);
        }
        StationData {
            min: if self.min < other.min { self.min } else { other.min },
            max: if self.max > other.max { self.max } else { other.max },
            sum: self.sum + other.sum,
            count: self.count + other.count,
        }
    }

    /// The mean of the measurements, cut off toward zero at a whole unit.
    pub fn avg(&self) -> (mean: i64)
        requires
            self.wf(),
        ensures
            mean == self@.mean(),
            self.min <= mean <= self.max,
    {
        proof {
            self.lemma_sum_bounded();
            self@.lemma_mean_between();
        }
        let count: i128 = self.count as i128;
        if self.sum >= 0 {
            (self.sum / count) as i64
        } else {
            let size: i128 = -self.sum;
            (-(size / count)) as i64
        }
    }
}

} // verus!
