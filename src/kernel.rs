use vstd::prelude::*;
use crate::capabilities::{SimdCapabilities, Tier};
use crate::error::EpiRustError;

verus! {

/// One step of the survival recurrence as an exact fraction: the share of
/// the subjects at risk that survive the step is `survivors / at_risk`.
#[derive(Debug, Clone, Copy, PartialEq, Eq)]
pub struct SurvivalFactor {
    pub survivors: usize,
    pub at_risk: usize,
}

/// Row `i` describes a risk set: someone is at risk, and no more events
/// happen than subjects are at risk.
pub open spec fn row_ok(n_risk: Seq<usize>, n_event: Seq<usize>, i: int) -> bool {
    n_risk[i] > 0 && n_event[i] <= n_risk[i]
}

/// Equal lengths and every row describes a risk set.
pub open spec fn counts_valid(n_risk: Seq<usize>, n_event: Seq<usize>) -> bool {
    &&& n_risk.len() == n_event.len()
    &&& forall|i: int| 0 <= i < n_risk.len() ==> row_ok(n_risk, n_event, i)
}

/// Either array is empty: there is nothing to compute.
pub open spec fn degenerate_counts(n_risk: Seq<usize>, n_event: Seq<usize>) -> bool {
    n_risk.len() == 0 || n_event.len() == 0
}

/// The factor of row `i`.
pub open spec fn factor_of(n_risk: Seq<usize>, n_event: Seq<usize>, i: int) -> SurvivalFactor {
    SurvivalFactor { survivors: (n_risk[i] - n_event[i]) as usize, at_risk: n_risk[i] }
}

/// Numerator of the exact survival probability after the first `k` rows:
/// the product of the survivor counts.
pub open spec fn survival_num(n_risk: Seq<usize>, n_event: Seq<usize>, k: int) -> int
    decreases k,
{
    if k <= 0 {
        1
    } else {
        survival_num(n_risk, n_event, k - 1) * (n_risk[k - 1] - n_event[k - 1])
    }
}

/// Denominator of the exact survival probability after the first `k` rows:
/// the product of the at-risk counts.
pub open spec fn survival_den(n_risk: Seq<usize>, k: int) -> int
    decreases k,
{
    if k <= 0 {
        1
    } else {
        survival_den(n_risk, k - 1) * n_risk[k - 1]
    }
}

/// Every exact survival probability `survival_num / survival_den` lies in
/// [0, 1], and the curve never rises from one row to the next.
pub proof fn lemma_survival_bounded_non_increasing(
    n_risk: Seq<usize>,
    n_event: Seq<usize>,
    k: int,
)
    requires
        counts_valid(n_risk, n_event),
        0 <= k <= n_risk.len(),
    ensures
        0 <= survival_num(n_risk, n_event, k) <= survival_den(n_risk, k),
        survival_den(n_risk, k) > 0,
        k < n_risk.len() ==> survival_num(n_risk, n_event, k + 1) * survival_den(n_risk, k)
            <= survival_num(n_risk, n_event, k) * survival_den(n_risk, k + 1),
    decreases k,
{
    if k > 0 {
        lemma_survival_bounded_non_increasing(n_risk, n_event, k - 1);
        assert(row_ok(n_risk, n_event, k - 1));
        let a = survival_num(n_risk, n_event, k - 1);
        let b = survival_den(n_risk, k - 1);
        let s = n_risk[k - 1] - n_event[k - 1];
        let n = n_risk[k - 1] as int;
        assert(0 <= a * s <= b * n) by (nonlinear_arith)
            requires
                0 <= a <= b,
                0 <= s <= n,
        ;
        assert(b * n > 0) by (nonlinear_arith)
            requires
                b > 0,
                n > 0,
        ;
    }
    if k < n_risk.len() {
        assert(row_ok(n_risk, n_event, k));
        let a = survival_num(n_risk, n_event, k);
        let b = survival_den(n_risk, k);
        let s = n_risk[k] - n_event[k];
        let n = n_risk[k] as int;
        assert(a * s * b <= a * (b * n)) by (nonlinear_arith)
            requires
                0 <= a,
                0 < b,
                0 <= s <= n,
        ;
    }
}

/// The kernel of the survival computations, bound to the vector tiers of
/// the machine it runs on.
#[derive(Debug, Clone, Copy)]
pub struct SimdOperations {
    capabilities: SimdCapabilities,
}

impl SimdOperations {
    pub closed spec fn spec_capabilities(self) -> SimdCapabilities {
        self.capabilities
    }

    pub fn new(capabilities: SimdCapabilities) -> (r: Self)
        ensures
            r.spec_capabilities() == capabilities,
    {
        SimdOperations { capabilities }
    }

    pub fn capabilities(&self) -> (r: SimdCapabilities)
        ensures
            r == self.spec_capabilities(),
    {
        self.capabilities
    }

    /// The tier that summation runs on: the widest one present.
    pub fn sum_tier(&self) -> (r: Tier)
        ensures
            r == self.spec_capabilities().spec_sum_tier(),
    {
        self.capabilities.sum_tier()
    }

    /// Checks the risk and event counts and returns the factor of each row,
    /// in order. The survival curve is `1` followed by the running products
    /// of these factors, taken strictly left to right.
    ///
    /// An empty array on either side is degenerate input: no factors, so
    /// the curve is `[1]`. Otherwise mismatched lengths, a zero at-risk count
    /// and more events than subjects at risk all fail with `ComputeError`;
    /// the scan stops at the first offending row and returns nothing
    /// partial.
    pub fn survival_factors(&self, n_risk: &[usize], n_event: &[usize]) -> (r: Result<
        Vec<SurvivalFactor>,
        EpiRustError,
    >)
        ensures
            r is Ok <==> degenerate_counts(n_risk@, n_event@) || counts_valid(n_risk@, n_event@),
            r matches Ok(f) ==> degenerate_counts(n_risk@, n_event@) ==> f@.len() == 0,
            r matches Ok(f) ==> !degenerate_counts(n_risk@, n_event@) ==> f@.len() == n_risk@.len()
                && forall|i: int| 0 <= i < f@.len() ==> f@[i] == factor_of(n_risk@, n_event@, i),
            r matches Err(e) ==> e is ComputeError,
    {
        if n_risk.len() == 0 || n_event.len() == 0 {
            return Ok(Vec::new());
        }
        if n_risk.len() != n_event.len() {
            return Err(
                EpiRustError::ComputeError(
                    String::from_str("risk and event counts must have the same length"),
                ),
            );
        }
        let mut out: Vec<SurvivalFactor> = Vec::new();
        let mut i: usize = 0;
        while i < n_risk.len()
            invariant
                n_risk@.len() == n_event@.len(),
                i <= n_risk@.len(),
                out@.len() == i,
                forall|j: int| 0 <= j < i ==> row_ok(n_risk@, n_event@, j),
                forall|j: int| 0 <= j < i ==> out@[j] == factor_of(n_risk@, n_event@, j),
            decreases n_risk@.len() - i,
        {
            if n_risk[i] == 0 {
                assert(!row_ok(n_risk@, n_event@, i as int));
                return Err(
                    EpiRustError::ComputeError(
                        String::from_str("division by zero in survival probability calculation"),
                    ),
                );
            }
            if n_event[i] > n_risk[i] {
                assert(!row_ok(n_risk@, n_event@, i as int));
                return Err(
                    EpiRustError::ComputeError(String::from_str("more events than subjects at risk")),
                );
            }
            out.push(SurvivalFactor { survivors: n_risk[i] - n_event[i], at_risk: n_risk[i] });
            i += 1;
        }
        Ok(out)
    }
}

/// The increment of Greenwood's variance sum at one row, as the exact
/// fraction `events / denominator` with `denominator = at_risk * survivors`.
/// A zero denominator marks a row where everyone at risk had the event.
#[derive(Debug, Clone, Copy, PartialEq, Eq)]
pub struct VarianceTerm {
    pub events: usize,
    pub denominator: u128,
}

/// The Greenwood increments `d / (n (n - d))` of the rows whose factors are
/// `factors`, in order.
pub fn greenwood_terms(factors: &[SurvivalFactor]) -> (r: Vec<VarianceTerm>)
    requires
        forall|i: int| 0 <= i < factors@.len() ==> factors@[i].survivors <= factors@[i].at_risk,
    ensures
        r@.len() == factors@.len(),
        forall|i: int|
            0 <= i < r@.len() ==> r@[i].events == factors@[i].at_risk - factors@[i].survivors
                && r@[i].denominator == factors@[i].at_risk * factors@[i].survivors,
{
    let mut out: Vec<VarianceTerm> = Vec::new();
    let mut i: usize = 0;
    while i < factors.len()
        invariant
            i <= factors@.len(),
            out@.len() == i,
            forall|k: int| 0 <= k < factors@.len() ==> factors@[k].survivors <= factors@[k].at_risk,
            forall|k: int|
                0 <= k < i ==> out@[k].events == factors@[k].at_risk - factors@[k].survivors
                    && out@[k].denominator == factors@[k].at_risk * factors@[k].survivors,
        decreases factors@.len() - i,
    {
        let f = factors[i];
        let n = f.at_risk as u128;
        let s = f.survivors as u128;
        assert(n * s <= u128::MAX) by (nonlinear_arith)
            requires
                n <= usize::MAX,
                s <= usize::MAX,
                usize::MAX < 0x1_0000_0000_0000_0000,
        ;
        out.push(VarianceTerm { events: f.at_risk - f.survivors, denominator: n * s });
        i += 1;
    }
    out
}

} // verus!
