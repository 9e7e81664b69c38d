use vstd::prelude::*;
use crate::error::EpiRustError;
use crate::kernel::{SimdOperations, SurvivalFactor, counts_valid, row_ok};
use crate::risk_set::{
    lemma_rows_ordered,
    Observation,
    at_risk_at,
    event_at_time,
    events_at,
    from_time,
    has_row_at,
    lemma_count_permutation,
    lemma_risk_set_counts,
    lemma_rows_cover_times,
    observed_at,
    obs_le,
    sorted,
    RowModel,
    event_count,
    lemma_rows_bounds,
    risk_set,
    risk_set_partitioned,
    rows_from,
    rows_view,
};

verus! {

broadcast use vstd::seq_lib::group_to_multiset_ensures;

/// The observations given as two parallel sequences.
pub open spec fn observations(time: Seq<u64>, event: Seq<bool>) -> Seq<Observation> {
    Seq::new(time.len(), |i: int| (time[i], event[i]))
}

/// Relies on `slice::sort`: afterwards the observations are in ascending
/// order and are the same observations as before.
#[verifier::external_body]
fn sort_observations(v: &mut Vec<Observation>)
    ensures
        sorted(final(v)@),
        final(v)@.to_multiset() == old(v)@.to_multiset(),
{
    v.sort();
}

/// The counting part of a Kaplan-Meier fit: one entry per distinct time,
/// in ascending order of time.
#[derive(Debug)]
pub struct KMCounts {
    pub time: Vec<u64>,
    pub n_risk: Vec<usize>,
    pub n_event: Vec<usize>,
    pub factors: Vec<SurvivalFactor>,
}

/// `c` lists the rows `rows`, and the survival factor of each.
spec fn counts_match(c: KMCounts, rows: Seq<RowModel>) -> bool {
    &&& c.time@.len() == rows.len()
    &&& c.n_risk@.len() == rows.len()
    &&& c.n_event@.len() == rows.len()
    &&& c.factors@.len() == rows.len()
    &&& forall|j: int|
        0 <= j < rows.len() ==> {
            &&& c.time@[j] == rows[j].time
            &&& c.n_risk@[j] == rows[j].at_risk
            &&& c.n_event@[j] == rows[j].events
            &&& c.factors@[j] == SurvivalFactor {
                survivors: (rows[j].at_risk - rows[j].events) as usize,
                at_risk: rows[j].at_risk as usize,
            }
        }
}

/// Some entry of `times` is `t`.
pub open spec fn lists_time(times: Seq<u64>, t: u64) -> bool {
    exists|j: int| 0 <= j < times.len() && times[j] == t
}

/// `c` is the Kaplan-Meier count table of the observations `obs` given as
/// time keys `time`: one entry per distinct observed time, in strictly
/// ascending order; at each, the observations at that time or later are
/// at risk and the events at that time are counted; each factor is the
/// share of those at risk that survive the step.
pub open spec fn fits_observations(c: KMCounts, time: Seq<u64>, obs: Seq<Observation>) -> bool {
    &&& c.n_risk@.len() == c.time@.len()
    &&& c.n_event@.len() == c.time@.len()
    &&& c.factors@.len() == c.time@.len()
    &&& forall|j: int, k: int| 0 <= j < k < c.time@.len() ==> c.time@[j] < c.time@[k]
    &&& forall|i: int| 0 <= i < time.len() ==> lists_time(c.time@, #[trigger] time[i])
    &&& forall|j: int| 0 <= j < c.time@.len() ==> lists_time(time, #[trigger] c.time@[j])
    &&& forall|j: int|
        0 <= j < c.time@.len() ==> {
            &&& c.n_risk@[j] == at_risk_at(obs, c.time@[j])
            &&& c.n_event@[j] == events_at(obs, c.time@[j])
            &&& c.factors@[j] == SurvivalFactor {
                survivors: (c.n_risk@[j] - c.n_event@[j]) as usize,
                at_risk: c.n_risk@[j],
            }
        }
}

/// Every row of a run without events counts no event.
proof fn lemma_rows_no_events(s: Seq<Observation>, base: nat, total: nat)
    requires
        forall|i: int| 0 <= i < s.len() ==> !s[i].1,
    ensures
        forall|j: int|
            0 <= j < rows_from(s, base, total).len() ==> rows_from(s, base, total)[j].events == 0,
    decreases s.len(),
{
    if s.len() > 0 {
        let sp = s.drop_last();
        assert forall|i: int| 0 <= i < sp.len() implies !sp[i].1 by {
            assert(sp[i] == s[i]);
        }
        lemma_rows_no_events(sp, base, total);
        assert(!s.last().1);
        assert(event_count(s.last()) == 0);
        let p = rows_from(sp, base, total);
        let r = rows_from(s, base, total);
        assert forall|j: int| 0 <= j < r.len() implies r[j].events == 0 by {
            if j < p.len() && !(j == p.len() - 1 && p.last().time == s.last().0) {
                assert(r[j] == p[j]);
            }
        }
    }
}

/// The Kaplan-Meier estimator: sorts observations, groups them by distinct
/// time, counts subjects at risk and events, and derives the survival
/// factors through the kernel. Counting runs over `partitions` contiguous
/// parts that are joined in order.
#[derive(Debug, Clone, Copy)]
pub struct KaplanMeier {
    simd_ops: SimdOperations,
    partitions: usize,
}

impl KaplanMeier {
    pub closed spec fn spec_partitions(self) -> usize {
        self.partitions
    }

    pub closed spec fn spec_simd_ops(self) -> SimdOperations {
        self.simd_ops
    }

    pub open spec fn wf(self) -> bool {
        0 < self.spec_partitions()
    }

    /// An estimator on the kernel `simd_ops` that counts over `partitions`
    /// parts; fails with `ComputeError` when `partitions` is zero.
    pub fn new(simd_ops: SimdOperations, partitions: usize) -> (r: Result<Self, EpiRustError>)
        ensures
            r is Ok <==> 0 < partitions,
            r matches Ok(k) ==> k.wf() && k.spec_partitions() == partitions && k.spec_simd_ops()
                == simd_ops,
            r matches Err(e) ==> e is ComputeError,
    {
        if partitions == 0 {
            return Err(
                EpiRustError::ComputeError(
                    String::from_str("the number of partitions must be positive"),
                ),
            );
        }
        Ok(KaplanMeier { simd_ops, partitions })
    }

    pub fn partitions(&self) -> (r: usize)
        ensures
            r == self.spec_partitions(),
    {
        self.partitions
    }

    pub fn simd_ops(&self) -> (r: SimdOperations)
        ensures
            r == self.spec_simd_ops(),
    {
        self.simd_ops
    }

    /// Fits the estimator to observations given by time key and event flag.
    ///
    /// Fails with `ComputeError` when the two inputs differ in length or
    /// are empty. Otherwise the result lists, for each distinct time in
    /// ascending order, the subjects still at risk, the events, and the
    /// survival factor of the step. Where no event occurred every factor is
    /// one, so the survival curve stays flat at one.
    pub fn fit(&self, time: &[u64], event: &[bool]) -> (r: Result<KMCounts, EpiRustError>)
        requires
            self.wf(),
        ensures
            r is Ok <==> time@.len() == event@.len() && time@.len() > 0,
            r matches Err(e) ==> e is ComputeError,
            r matches Ok(c) ==> fits_observations(c, time@, observations(time@, event@)),
            r matches Ok(c) ==> c.time@.len() > 0 && counts_valid(c.n_risk@, c.n_event@),
            r matches Ok(c) ==> forall|j: int, k: int|
                0 <= j < k < c.n_risk@.len() ==> c.n_risk@[j] > c.n_risk@[k],
            r matches Ok(c) ==> ((forall|i: int| 0 <= i < event@.len() ==> !event@[i]) ==> forall|
                j: int,
            |
                0 <= j < c.n_event@.len() ==> c.n_event@[j] == 0 && c.factors@[j].survivors
                    == c.factors@[j].at_risk),
    {
        if time.len() != event.len() {
            return Err(
                EpiRustError::ComputeError(
                    String::from_str("time and event vectors must have same length"),
                ),
            );
        }
        if time.len() == 0 {
            return Err(
                EpiRustError::ComputeError(
                    String::from_str("cannot fit a survival curve to no observations"),
                ),
            );
        }
        let mut data: Vec<Observation> = Vec::new();
        let mut i: usize = 0;
        while i < time.len()
            invariant
                i <= time@.len() == event@.len(),
                data@ == observations(time@, event@).subrange(0, i as int),
            decreases time.len() - i,
        {
            data.push((time[i], event[i]));
            i += 1;
            assert(data@ =~= observations(time@, event@).subrange(0, i as int));
        }
        assert(data@ =~= observations(time@, event@));
        sort_observations(&mut data);
        let rows = risk_set_partitioned(&data, self.partitions);
        let ghost s = data@;
        let ghost rm = risk_set(s);
        proof {
            lemma_rows_bounds(s, 0, s.len());
            lemma_rows_ordered(s, 0, s.len());
        }
        let mut out_time: Vec<u64> = Vec::new();
        let mut n_risk: Vec<usize> = Vec::new();
        let mut n_event: Vec<usize> = Vec::new();
        let mut j: usize = 0;
        while j < rows.len()
            invariant
                j <= rows@.len(),
                rows_view(rows@) == rm,
                out_time@.len() == j && n_risk@.len() == j && n_event@.len() == j,
                forall|q: int|
                    0 <= q < j ==> out_time@[q] == rm[q].time && n_risk@[q] == rm[q].at_risk
                        && n_event@[q] == rm[q].events,
            decreases rows.len() - j,
        {
            assert(rows_view(rows@)[j as int] == rows@[j as int].view());
            out_time.push(rows[j].time);
            n_risk.push(rows[j].at_risk);
            n_event.push(rows[j].events);
            j += 1;
        }
        proof {
            assert forall|q: int| 0 <= q < n_risk@.len() implies row_ok(n_risk@, n_event@, q) by {
                assert(rm[q].events + 0 <= rm[q].at_risk);
            }
        }
        let factors = match self.simd_ops.survival_factors(&n_risk, &n_event) {
            Ok(f) => f,
            Err(e) => {
                return Err(e);
            },
        };
        let c = KMCounts { time: out_time, n_risk, n_event, factors };
        proof {
            assert(counts_match(c, rm));
            assert(observations(time@, event@).len() > 0);
            assert(observations(time@, event@).to_multiset().len() > 0);
            assert(s.len() > 0);
            let obs = observations(time@, event@);
            lemma_risk_set_counts(s);
            lemma_rows_cover_times(s, 0, s.len());
            assert forall|j: int| 0 <= j < c.time@.len() implies {
                &&& c.n_risk@[j] == at_risk_at(obs, c.time@[j])
                &&& c.n_event@[j] == events_at(obs, c.time@[j])
            } by {
                lemma_count_permutation(s, obs, from_time(rm[j].time));
                lemma_count_permutation(s, obs, event_at_time(rm[j].time));
            }
            assert forall|i: int| 0 <= i < time@.len() implies lists_time(c.time@, #[trigger] time@[i]) by {
                assert(obs[i] == (time@[i], event@[i]));
                assert(obs.contains(obs[i]));
                assert(obs.to_multiset().count(obs[i]) > 0);
                assert(s.contains(obs[i]));
                let k = choose|k: int| 0 <= k < s.len() && s[k] == obs[i];
                assert(has_row_at(rm, s[k].0));
                let j = choose|j: int| 0 <= j < rm.len() && rm[j].time == s[k].0;
                assert(c.time@[j] == time@[i]);
            }
            assert forall|j: int| 0 <= j < c.time@.len() implies lists_time(time@, #[trigger] c.time@[j]) by {
                assert(observed_at(s, rm[j].time));
                let k = choose|k: int| 0 <= k < s.len() && s[k].0 == rm[j].time;
                assert(s.contains(s[k]));
                assert(obs.to_multiset().count(s[k]) > 0);
                assert(obs.contains(s[k]));
                let i = choose|i: int| 0 <= i < obs.len() && obs[i] == s[k];
                assert(time@[i] == c.time@[j]);
            }
            if forall|i: int| 0 <= i < event@.len() ==> !event@[i] {
                assert forall|k: int| 0 <= k < s.len() implies !s[k].1 by {
                    assert(s.contains(s[k]));
                    assert(observations(time@, event@).to_multiset().count(s[k]) > 0);
                    assert(observations(time@, event@).contains(s[k]));
                }
                lemma_rows_no_events(s, 0, s.len());
            }
        }
        Ok(c)
    }
}

} // verus!
