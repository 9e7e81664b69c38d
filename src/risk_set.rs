use vstd::prelude::*;

verus! {

/// One observation: the order key of its time and whether the event
/// occurred (`false`: censored).
pub type Observation = (u64, bool);

/// One row of a risk set, as computed.
#[derive(Debug, Clone, Copy, PartialEq, Eq)]
pub struct RiskRow {
    pub time: u64,
    pub at_risk: usize,
    pub events: usize,
}

/// One row of a risk set, as a mathematical value.
pub struct RowModel {
    pub time: u64,
    pub at_risk: nat,
    pub events: nat,
}

impl RiskRow {
    pub open spec fn view(self) -> RowModel {
        RowModel { time: self.time, at_risk: self.at_risk as nat, events: self.events as nat }
    }
}

pub open spec fn rows_view(v: Seq<RiskRow>) -> Seq<RowModel> {
    v.map_values(|r: RiskRow| r.view())
}

pub open spec fn event_count(o: Observation) -> nat {
    if o.1 {
        1
    } else {
        0
    }
}

/// Adds observation `o` to the rows built so far: it joins the last group
/// when it has the same time, and opens a group with `at_risk` subjects
/// otherwise.
pub open spec fn add_observation(rows: Seq<RowModel>, o: Observation, at_risk: nat) -> Seq<
    RowModel,
> {
    if rows.len() > 0 && rows.last().time == o.0 {
        let l = rows.last();
        rows.update(
            rows.len() - 1,
            RowModel { time: l.time, at_risk: l.at_risk, events: l.events + event_count(o) },
        )
    } else {
        rows.push(RowModel { time: o.0, at_risk, events: event_count(o) })
    }
}

/// The rows of a run of observations that starts at position `base` of a
/// sequence of `total` observations: consecutive observations with equal
/// times form one group; a group that starts at position `p` has
/// `total - p` subjects at risk (those not yet consumed, the group
/// included) and counts the events among its members.
pub open spec fn rows_from(s: Seq<Observation>, base: nat, total: nat) -> Seq<RowModel>
    decreases s.len(),
{
    if s.len() == 0 {
        seq![]
    } else {
        add_observation(
            rows_from(s.drop_last(), base, total),
            s.last(),
            (total - (base + s.len() - 1)) as nat,
        )
    }
}

/// The risk set of a whole sequence of observations.
pub open spec fn risk_set(s: Seq<Observation>) -> Seq<RowModel> {
    rows_from(s, 0, s.len())
}

/// Joins the rows of two adjacent runs: when the last group of `a` and the
/// first group of `b` share a time they become one group, which keeps the
/// at-risk count of the earlier part.
pub open spec fn merge_two(a: Seq<RowModel>, b: Seq<RowModel>) -> Seq<RowModel> {
    if a.len() > 0 && b.len() > 0 && a.last().time == b[0].time {
        let l = a.last();
        a.drop_last().push(
            RowModel { time: l.time, at_risk: l.at_risk, events: l.events + b[0].events },
        ) + b.drop_first()
    } else {
        a + b
    }
}

/// Joins the rows of consecutive runs, in order.
pub open spec fn merge_all(parts: Seq<Seq<RowModel>>) -> Seq<RowModel>
    decreases parts.len(),
{
    if parts.len() == 0 {
        seq![]
    } else {
        merge_two(merge_all(parts.drop_last()), parts.last())
    }
}

/// `b` splits `0..n` into contiguous, non-overlapping, ordered parts
/// `b[i]..b[i + 1]`.
pub open spec fn valid_bounds(b: Seq<usize>, n: nat) -> bool {
    &&& b.len() >= 1
    &&& b[0] == 0
    &&& b.last() == n
    &&& forall|i: int, j: int| 0 <= i <= j < b.len() ==> b[i] <= b[j]
}

/// What a worker computes for each part of `s` under the bounds `b`, in
/// part order.
pub open spec fn partition_outputs(s: Seq<Observation>, b: Seq<usize>) -> Seq<Seq<RowModel>> {
    Seq::new(
        (b.len() - 1) as nat,
        |i: int| rows_from(s.subrange(b[i] as int, b[i + 1] as int), b[i] as nat, s.len()),
    )
}

proof fn lemma_add_after_merge(a: Seq<RowModel>, b: Seq<RowModel>, o: Observation, n: nat)
    ensures
        add_observation(merge_two(a, b), o, n) == merge_two(a, add_observation(b, o, n)),
{
    let m = merge_two(a, b);
    let b2 = add_observation(b, o, n);
    if b.len() == 0 {
        assert(a + b =~= a);
        if a.len() > 0 && a.last().time == o.0 {
            assert(b2[0].time == o.0);
            assert(merge_two(a, b2) =~= add_observation(a, o, n));
        } else {
            assert(merge_two(a, b2) =~= add_observation(a, o, n));
        }
    } else {
        assert(b2[0].time == b[0].time);
        if a.len() > 0 && a.last().time == b[0].time {
            if b.len() == 1 && b.last().time == o.0 {
                assert(m.last().time == o.0);
                assert(add_observation(m, o, n) =~= merge_two(a, b2));
            } else if b.last().time == o.0 {
                assert(m.last() == b.last());
                assert(add_observation(m, o, n) =~= merge_two(a, b2));
            } else {
                assert(m.last().time == b.last().time);
                assert(add_observation(m, o, n) =~= merge_two(a, b2));
            }
        } else {
            assert(m.last() == b.last());
            assert(add_observation(m, o, n) =~= merge_two(a, b2));
        }
    }
}

/// The rows of two adjacent runs, joined, are the rows of the whole run.
pub proof fn lemma_rows_concat(s1: Seq<Observation>, s2: Seq<Observation>, base: nat, total: nat)
    ensures
        rows_from(s1 + s2, base, total) == merge_two(
            rows_from(s1, base, total),
            rows_from(s2, base + s1.len(), total),
        ),
    decreases s2.len(),
{
    let a = rows_from(s1, base, total);
    if s2.len() == 0 {
        assert(s1 + s2 =~= s1);
        assert(a + seq![] =~= a);
    } else {
        let s2p = s2.drop_last();
        assert((s1 + s2).drop_last() =~= s1 + s2p);
        assert((s1 + s2).last() == s2.last());
        lemma_rows_concat(s1, s2p, base, total);
        lemma_add_after_merge(
            a,
            rows_from(s2p, base + s1.len(), total),
            s2.last(),
            (total - (base + s1.len() + s2.len() - 1)) as nat,
        );
    }
}

/// Splitting the observations into any contiguous parts, building the rows
/// of each part on its own and joining the results in part order gives the
/// risk set of the whole sequence.
pub proof fn lemma_partitioned_risk_set(s: Seq<Observation>, b: Seq<usize>)
    requires
        valid_bounds(b, s.len()),
    ensures
        merge_all(partition_outputs(s, b)) == risk_set(s),
{
    lemma_partitioned_prefix(s, b, b.len() - 1);
    assert(partition_outputs(s, b).subrange(0, b.len() - 1) =~= partition_outputs(s, b));
    assert(s.subrange(0, s.len() as int) =~= s);
}

proof fn lemma_partitioned_prefix(s: Seq<Observation>, b: Seq<usize>, k: int)
    requires
        valid_bounds(b, s.len()),
        0 <= k < b.len(),
    ensures
        merge_all(partition_outputs(s, b).subrange(0, k)) == rows_from(
            s.subrange(0, b[k] as int),
            0,
            s.len(),
        ),
    decreases k,
{
    let p = partition_outputs(s, b);
    if k == 0 {
        assert(s.subrange(0, 0) =~= Seq::<Observation>::empty());
    } else {
        lemma_partitioned_prefix(s, b, k - 1);
        assert(b[k - 1] <= b[k] <= b.last());
        assert(p.subrange(0, k).drop_last() =~= p.subrange(0, k - 1));
        let s1 = s.subrange(0, b[k - 1] as int);
        let s2 = s.subrange(b[k - 1] as int, b[k] as int);
        assert(s1 + s2 =~= s.subrange(0, b[k] as int));
        lemma_rows_concat(s1, s2, 0, s.len());
    }
}

/// Every row counts no more events than it has subjects at risk, and at
/// least one subject more than remain after the run.
pub proof fn lemma_rows_bounds(s: Seq<Observation>, base: nat, total: nat)
    requires
        base + s.len() <= total,
    ensures
        rows_from(s, base, total).len() <= s.len(),
        forall|j: int|
            0 <= j < rows_from(s, base, total).len() ==> {
                let r = #[trigger] rows_from(s, base, total)[j];
                &&& r.events + (total - base - s.len()) <= r.at_risk
                &&& total - base - s.len() < r.at_risk <= total - base
            },
    decreases s.len(),
{
    if s.len() > 0 {
        lemma_rows_bounds(s.drop_last(), base, total);
    }
}

/// Builds the rows of the part `start..end` of `data`, as one worker of a
/// partitioned run does; at-risk counts are those of the whole of `data`.
pub fn count_partition(data: &[Observation], start: usize, end: usize) -> (r: Vec<RiskRow>)
    requires
        start <= end <= data@.len(),
    ensures
        rows_view(r@) == rows_from(data@.subrange(start as int, end as int), start as nat, data@.len()),
{
    let n = data.len();
    let mut out: Vec<RiskRow> = Vec::new();
    let mut i: usize = start;
    while i < end
        invariant
            start <= i <= end <= n,
            n == data@.len(),
            rows_view(out@) == rows_from(data@.subrange(start as int, i as int), start as nat, n as nat),
        decreases end - i,
    {
        proof {
            lemma_rows_bounds(data@.subrange(start as int, i as int), start as nat, n as nat);
        }
        let o = data[i];
        let e: usize = if o.1 {
            1
        } else {
            0
        };
        let len = out.len();
        if len > 0 && out[len - 1].time == o.0 {
            let last = out[len - 1];
            assert(rows_view(out@)[len - 1] == last.view());
            out.set(len - 1, RiskRow { time: last.time, at_risk: last.at_risk, events: last.events + e });
        } else {
            out.push(RiskRow { time: o.0, at_risk: n - i, events: e });
        }
        proof {
            let sp = data@.subrange(start as int, i + 1);
            assert(sp.drop_last() =~= data@.subrange(start as int, i as int));
            assert(rows_view(out@) =~= rows_from(sp, start as nat, n as nat));
        }
        i += 1;
    }
    out
}

/// The risk set of `data`, built in one pass.
pub fn build_risk_set(data: &[Observation]) -> (r: Vec<RiskRow>)
    ensures
        rows_view(r@) == risk_set(data@),
        sorted(data@) ==> describes_risk_set(data@, rows_view(r@)),
{
    let r = count_partition(data, 0, data.len());
    assert(data@.subrange(0, data@.len() as int) =~= data@);
    proof {
        if sorted(data@) {
            lemma_sorted_risk_set(data@);
        }
    }
    r
}

/// Size of each part when `len` items are split into `parts` parts.
pub open spec fn chunk_size(len: nat, parts: nat) -> nat {
    if len % parts == 0 {
        len / parts
    } else {
        len / parts + 1
    }
}

pub open spec fn min_nat(a: nat, b: nat) -> nat {
    if a <= b {
        a
    } else {
        b
    }
}

/// Splits `0..len` into `parts` contiguous parts of `chunk_size` items
/// each, the last ones shorter or empty: part `i` is `r[i]..r[i + 1]`.
pub fn partition_bounds(len: usize, parts: usize) -> (r: Vec<usize>)
    requires
        0 < parts < usize::MAX,
    ensures
        r@.len() == parts + 1,
        forall|i: int| 0 <= i <= parts ==> r@[i] == min_nat((i * chunk_size(len as nat, parts as nat)) as nat, len as nat),
        valid_bounds(r@, len as nat),
{
    proof {
        vstd::arithmetic::div_mod::lemma_fundamental_div_mod(len as int, parts as int);
        vstd::arithmetic::div_mod::lemma_mod_bound(len as int, parts as int);
        assert(len / parts <= parts * (len / parts)) by (nonlinear_arith)
            requires
                parts >= 1,
                len / parts >= 0,
        ;
    }
    let chunk: usize = if len % parts == 0 {
        len / parts
    } else {
        len / parts + 1
    };
    proof {
        assert(parts * chunk >= len) by (nonlinear_arith)
            requires
                len == parts * (len / parts) + len % parts,
                0 <= len % parts < parts,
                len % parts == 0 ==> chunk == len / parts,
                len % parts != 0 ==> chunk == len / parts + 1,
        ;
    }
    let mut r: Vec<usize> = Vec::new();
    let mut cur: usize = 0;
    let mut i: usize = 0;
    r.push(0);
    assert(r@[0] == min_nat((0 * chunk) as nat, len as nat));
    while i < parts
        invariant
            0 <= i <= parts,
            parts * chunk >= len,
            chunk == chunk_size(len as nat, parts as nat),
            r@.len() == i + 1,
            cur == r@[i as int],
            forall|k: int| 0 <= k <= i ==> r@[k] == min_nat((k * chunk) as nat, len as nat),
        decreases parts - i,
    {
        assert(i * chunk + chunk == (i + 1) * chunk) by (nonlinear_arith);
        if len - cur < chunk {
            cur = len;
        } else {
            cur = cur + chunk;
        }
        r.push(cur);
        i += 1;
    }
    proof {
        assert forall|a: int, b: int| 0 <= a <= b < r@.len() implies r@[a] <= r@[b] by {
            assert(a * chunk <= b * chunk) by (nonlinear_arith)
                requires
                    0 <= a <= b,
                    chunk >= 0,
            ;
        }
    }
    r
}

/// The rows computed by each worker, as mathematical values.
pub open spec fn parts_view(parts: Seq<Vec<RiskRow>>) -> Seq<Seq<RowModel>> {
    parts.map_values(|p: Vec<RiskRow>| rows_view(p@))
}

/// Every row of the joined result fits a machine count.
pub open spec fn merge_fits(parts: Seq<Seq<RowModel>>) -> bool {
    forall|j: int|
        0 <= j < merge_all(parts).len() ==> #[trigger] merge_all(parts)[j].events <= usize::MAX
}

/// Joining more rows on keeps those already there, and only adds events.
spec fn dominated(a: Seq<RowModel>, c: Seq<RowModel>) -> bool {
    &&& a.len() <= c.len()
    &&& forall|j: int| 0 <= j < a.len() ==> a[j].events <= #[trigger] c[j].events
}

proof fn lemma_prefix_dominated(p: Seq<Seq<RowModel>>, k: int)
    requires
        0 <= k <= p.len(),
    ensures
        dominated(merge_all(p.subrange(0, k)), merge_all(p)),
    decreases p.len() - k,
{
    if k < p.len() {
        lemma_prefix_dominated(p, k + 1);
        assert(p.subrange(0, k + 1).drop_last() =~= p.subrange(0, k));
        let a = merge_all(p.subrange(0, k));
        let m = merge_all(p.subrange(0, k + 1));
        assert(dominated(a, m));
    } else {
        assert(p.subrange(0, k) =~= p);
    }
}

/// Joins the rows that the workers computed for consecutive parts, in part
/// order: where a part ends and the next begins inside one group of equal
/// times, the two rows of that group become one.
pub fn merge_partitions(parts: &[Vec<RiskRow>]) -> (r: Vec<RiskRow>)
    requires
        merge_fits(parts_view(parts@)),
    ensures
        rows_view(r@) == merge_all(parts_view(parts@)),
{
    let ghost pv = parts_view(parts@);
    let mut acc: Vec<RiskRow> = Vec::new();
    let mut k: usize = 0;
    assert(pv.subrange(0, 0) =~= Seq::<Seq<RowModel>>::empty());
    assert(rows_view(acc@) =~= Seq::<RowModel>::empty());
    while k < parts.len()
        invariant
            k <= parts@.len(),
            pv == parts_view(parts@),
            merge_fits(pv),
            rows_view(acc@) == merge_all(pv.subrange(0, k as int)),
        decreases parts.len() - k,
    {
        let next = &parts[k];
        proof {
            lemma_prefix_dominated(pv, k + 1);
            assert(pv.subrange(0, k + 1).drop_last() =~= pv.subrange(0, k as int));
            assert(pv[k as int] == rows_view(next@));
        }
        let ghost a = rows_view(acc@);
        let mut start: usize = 0;
        let alen = acc.len();
        if alen > 0 && next.len() > 0 && acc[alen - 1].time == next[0].time {
            let last = acc[alen - 1];
            proof {
                let m = merge_all(pv.subrange(0, k + 1));
                assert(a.last() == last.view());
                assert(m[alen - 1].events == last.events + next[0].events);
                assert(m[alen - 1].events <= merge_all(pv)[alen - 1].events);
            }
            acc.set(
                alen - 1,
                RiskRow { time: last.time, at_risk: last.at_risk, events: last.events + next[0].events },
            );
            start = 1;
        }
        let ghost head = rows_view(acc@);
        let mut j: usize = start;
        assert(rows_view(next@).subrange(start as int, start as int) =~= Seq::<RowModel>::empty());
        assert(rows_view(acc@) =~= head + rows_view(next@).subrange(start as int, start as int));
        while j < next.len()
            invariant
                start <= j <= next@.len(),
                rows_view(acc@) == head + rows_view(next@).subrange(start as int, j as int),
            decreases next.len() - j,
        {
            let ghost before = acc@;
            let x = next[j];
            acc.push(x);
            proof {
                assert(acc@ == before.push(x));
                assert(rows_view(acc@) =~= rows_view(before).push(x.view()));
                assert(rows_view(next@)[j as int] == x.view());
                assert(rows_view(next@).subrange(start as int, j + 1) =~= rows_view(next@).subrange(
                    start as int,
                    j as int,
                ).push(x.view()));
            }
            j += 1;
            assert(rows_view(acc@) =~= head + rows_view(next@).subrange(start as int, j as int));
        }
        proof {
            let m = merge_all(pv.subrange(0, k + 1));
            assert(m == merge_two(a, rows_view(next@)));
            assert(rows_view(acc@) =~= m);
        }
        k += 1;
    }
    assert(pv.subrange(0, parts@.len() as int) =~= pv);
    acc
}

/// The risk set of `data`, built part by part over `parts` contiguous
/// parts and joined in part order. No more parts are used than there are
/// observations, nor `usize::MAX` of them, whose bounds would not fit a
/// vector.
pub fn risk_set_partitioned(data: &[Observation], parts: usize) -> (r: Vec<RiskRow>)
    requires
        0 < parts,
    ensures
        rows_view(r@) == risk_set(data@),
        sorted(data@) ==> describes_risk_set(data@, rows_view(r@)),
{
    let mut parts: usize = if parts <= data.len() {
        parts
    } else {
        data.len()
    };
    if parts == 0 {
        parts = 1;
    }
    if parts == usize::MAX {
        parts = usize::MAX - 1;
    }
    let b = partition_bounds(data.len(), parts);
    let mut outs: Vec<Vec<RiskRow>> = Vec::new();
    let mut i: usize = 0;
    while i < parts
        invariant
            i <= parts,
            b@.len() == parts + 1,
            valid_bounds(b@, data@.len()),
            outs@.len() == i,
            forall|q: int| 0 <= q < i ==> rows_view(#[trigger] outs@[q]@) == partition_outputs(data@, b@)[q],
        decreases parts - i,
    {
        assert(b[i as int] <= b[i + 1] <= b@.last());
        let rows = count_partition(data, b[i], b[i + 1]);
        outs.push(rows);
        i += 1;
    }
    proof {
        assert(parts_view(outs@) =~= partition_outputs(data@, b@));
        lemma_partitioned_risk_set(data@, b@);
        lemma_rows_bounds(data@, 0, data@.len());
        if sorted(data@) {
            lemma_sorted_risk_set(data@);
        }
    }
    merge_partitions(&outs)
}

/// `a` comes no later than `b` in the order that tuples have in Rust: by
/// time key, and a censored observation before an event at the same time.
pub open spec fn obs_le(a: Observation, b: Observation) -> bool {
    a.0 < b.0 || (a.0 == b.0 && (a.1 ==> b.1))
}

pub open spec fn sorted(s: Seq<Observation>) -> bool {
    forall|i: int, j: int| 0 <= i <= j < s.len() ==> obs_le(s[i], s[j])
}

/// Number of observations of `s` that satisfy `p`.
pub open spec fn count_where(s: Seq<Observation>, p: spec_fn(Observation) -> bool) -> nat
    decreases s.len(),
{
    if s.len() == 0 {
        0
    } else {
        count_where(s.drop_last(), p) + if p(s.last()) {
            1nat
        } else {
            0nat
        }
    }
}

pub open spec fn from_time(t: u64) -> spec_fn(Observation) -> bool {
    |o: Observation| o.0 >= t
}

pub open spec fn before_time(t: u64) -> spec_fn(Observation) -> bool {
    |o: Observation| o.0 < t
}

pub open spec fn event_at_time(t: u64) -> spec_fn(Observation) -> bool {
    |o: Observation| o.0 == t && o.1
}

/// Subjects whose time is `t` or later: those at risk just before `t`.
pub open spec fn at_risk_at(s: Seq<Observation>, t: u64) -> nat {
    count_where(s, from_time(t))
}

/// Events that happen at time `t`.
pub open spec fn events_at(s: Seq<Observation>, t: u64) -> nat {
    count_where(s, event_at_time(t))
}

proof fn lemma_count_remove(s: Seq<Observation>, p: spec_fn(Observation) -> bool, i: int)
    requires
        0 <= i < s.len(),
    ensures
        count_where(s, p) == count_where(s.remove(i), p) + if p(s[i]) {
            1nat
        } else {
            0nat
        },
    decreases s.len(),
{
    if i == s.len() - 1 {
        assert(s.remove(i) =~= s.drop_last());
    } else {
        assert(s.remove(i).drop_last() =~= s.drop_last().remove(i));
        assert(s.remove(i).last() == s.last());
        lemma_count_remove(s.drop_last(), p, i);
    }
}

/// A count depends on which observations there are, not on their order.
pub proof fn lemma_count_permutation(
    s1: Seq<Observation>,
    s2: Seq<Observation>,
    p: spec_fn(Observation) -> bool,
)
    requires
        s1.to_multiset() == s2.to_multiset(),
    ensures
        count_where(s1, p) == count_where(s2, p),
    decreases s1.len(),
{
    broadcast use vstd::seq_lib::group_to_multiset_ensures;

    if s1.len() == 0 {
        assert(s2.to_multiset().len() == 0);
    } else {
        let x = s1.last();
        let s1p = s1.drop_last();
        assert(s1 =~= s1p.push(x));
        assert(s1.to_multiset().count(x) > 0);
        assert(s2.contains(x));
        let i = choose|i: int| 0 <= i < s2.len() && s2[i] == x;
        vstd::seq_lib::to_multiset_remove(s2, i);
        vstd::seq_lib::to_multiset_build(s1p, x);
        assert(s1p.to_multiset() =~= s1p.to_multiset().insert(x).remove(x));
        lemma_count_permutation(s1p, s2.remove(i), p);
        lemma_count_remove(s2, p, i);
    }
}

proof fn lemma_count_concat(a: Seq<Observation>, b: Seq<Observation>, p: spec_fn(Observation) -> bool)
    ensures
        count_where(a + b, p) == count_where(a, p) + count_where(b, p),
    decreases b.len(),
{
    if b.len() == 0 {
        assert(a + b =~= a);
    } else {
        assert((a + b).drop_last() =~= a + b.drop_last());
        lemma_count_concat(a, b.drop_last(), p);
    }
}

proof fn lemma_count_none(s: Seq<Observation>, p: spec_fn(Observation) -> bool)
    requires
        forall|i: int| 0 <= i < s.len() ==> !p(s[i]),
    ensures
        count_where(s, p) == 0,
    decreases s.len(),
{
    if s.len() > 0 {
        lemma_count_none(s.drop_last(), p);
    }
}

proof fn lemma_count_all(s: Seq<Observation>, p: spec_fn(Observation) -> bool)
    requires
        forall|i: int| 0 <= i < s.len() ==> p(s[i]),
    ensures
        count_where(s, p) == s.len(),
    decreases s.len(),
{
    if s.len() > 0 {
        lemma_count_all(s.drop_last(), p);
    }
}

proof fn lemma_count_split(s: Seq<Observation>, t: u64)
    ensures
        count_where(s, from_time(t)) + count_where(s, before_time(t)) == s.len(),
    decreases s.len(),
{
    if s.len() > 0 {
        lemma_count_split(s.drop_last(), t);
    }
}

proof fn lemma_rows_sorted_counts(p: Seq<Observation>, n: nat)
    requires
        sorted(p),
        p.len() <= n,
    ensures
        p.len() > 0 ==> rows_from(p, 0, n).len() > 0 && rows_from(p, 0, n).last().time == p.last().0,
        forall|j: int|
            0 <= j < rows_from(p, 0, n).len() - 1 ==> rows_from(p, 0, n)[j].time < rows_from(
                p,
                0,
                n,
            ).last().time,
        forall|j: int|
            0 <= j < rows_from(p, 0, n).len() ==> {
                let r = #[trigger] rows_from(p, 0, n)[j];
                &&& r.at_risk + count_where(p, before_time(r.time)) == n
                &&& r.events == count_where(p, event_at_time(r.time))
            },
    decreases p.len(),
{
    if p.len() > 0 {
        let q = p.drop_last();
        let o = p.last();
        assert(sorted(q));
        lemma_rows_sorted_counts(q, n);
        let rq = rows_from(q, 0, n);
        let rp = rows_from(p, 0, n);
        if q.len() > 0 {
            assert(obs_le(q.last(), o));
        }
        if rq.len() > 0 && rq.last().time == o.0 {
            assert forall|j: int| 0 <= j < rp.len() implies {
                let r = #[trigger] rp[j];
                &&& r.at_risk + count_where(p, before_time(r.time)) == n
                &&& r.events == count_where(p, event_at_time(r.time))
            } by {
                assert(rp[j].time == rq[j].time);
                assert(count_where(p, before_time(rp[j].time)) == count_where(q, before_time(rp[j].time)));
                if j < rq.len() - 1 {
                    assert(rq[j].time < o.0);
                    assert(rp[j] == rq[j]);
                }
            }
        } else {
            assert forall|i: int| 0 <= i < q.len() implies (before_time(o.0))(q[i]) by {
                assert(obs_le(q[i], q.last()));
                assert(obs_le(q[i], o));
            }
            lemma_count_all(q, before_time(o.0));
            assert forall|i: int| 0 <= i < q.len() implies !(event_at_time(o.0))(q[i]) by {
                assert(obs_le(q[i], q.last()));
                assert(obs_le(q[i], o));
            }
            lemma_count_none(q, event_at_time(o.0));
            assert forall|j: int| 0 <= j < rp.len() implies {
                let r = #[trigger] rp[j];
                &&& r.at_risk + count_where(p, before_time(r.time)) == n
                &&& r.events == count_where(p, event_at_time(r.time))
            } by {
                if j < rq.len() {
                    assert(j < rq.len() - 1 ==> rq[j].time < rq.last().time);
                    assert(rq.last().time == q.last().0);
                    assert(rp[j] == rq[j]);
                }
            }
        }
    }
}

/// In the risk set of sorted observations, each row has as many subjects
/// at risk as there are observations at its time or later, and as many
/// events as there are events at its time.
pub proof fn lemma_risk_set_counts(s: Seq<Observation>)
    requires
        sorted(s),
    ensures
        forall|j: int|
            0 <= j < risk_set(s).len() ==> {
                let r = #[trigger] risk_set(s)[j];
                &&& r.at_risk == at_risk_at(s, r.time)
                &&& r.events == events_at(s, r.time)
            },
{
    lemma_rows_sorted_counts(s, s.len());
    assert forall|j: int| 0 <= j < risk_set(s).len() implies {
        let r = #[trigger] risk_set(s)[j];
        &&& r.at_risk == at_risk_at(s, r.time)
        &&& r.events == events_at(s, r.time)
    } by {
        lemma_count_split(s, risk_set(s)[j].time);
    }
}

/// Some row of `rows` is at time `t`.
pub open spec fn has_row_at(rows: Seq<RowModel>, t: u64) -> bool {
    exists|j: int| 0 <= j < rows.len() && rows[j].time == t
}

/// Some observation of `s` is at time `t`.
pub open spec fn observed_at(s: Seq<Observation>, t: u64) -> bool {
    exists|i: int| 0 <= i < s.len() && s[i].0 == t
}

/// Every observed time has a row, and every row has an observed time.
pub proof fn lemma_rows_cover_times(p: Seq<Observation>, base: nat, total: nat)
    ensures
        forall|i: int| 0 <= i < p.len() ==> has_row_at(rows_from(p, base, total), #[trigger] p[i].0),
        forall|j: int|
            0 <= j < rows_from(p, base, total).len() ==> observed_at(
                p,
                #[trigger] rows_from(p, base, total)[j].time,
            ),
    decreases p.len(),
{
    if p.len() > 0 {
        let q = p.drop_last();
        lemma_rows_cover_times(q, base, total);
        let rq = rows_from(q, base, total);
        let rp = rows_from(p, base, total);
        assert(rp.len() > 0 && rp.last().time == p.last().0);
        assert forall|i: int| 0 <= i < p.len() implies has_row_at(rp, #[trigger] p[i].0) by {
            if i < q.len() {
                assert(q[i] == p[i]);
                assert(has_row_at(rq, q[i].0));
                let j = choose|j: int| 0 <= j < rq.len() && rq[j].time == q[i].0;
                assert(rp[j].time == rq[j].time);
            } else {
                assert(rp[rp.len() - 1].time == p[i].0);
            }
        }
        assert forall|j: int| 0 <= j < rp.len() implies observed_at(p, #[trigger] rp[j].time) by {
            if j < rq.len() {
                assert(observed_at(q, rq[j].time));
                let i = choose|i: int| 0 <= i < q.len() && q[i].0 == rq[j].time;
                assert(rp[j].time == rq[j].time);
                assert(p[i] == q[i]);
            } else {
                assert(p[p.len() - 1].0 == rp[j].time);
            }
        }
    }
}

/// In the rows of sorted observations the last row is at the last time,
/// times strictly increase and at-risk counts strictly decrease.
pub proof fn lemma_rows_ordered(s: Seq<Observation>, base: nat, total: nat)
    requires
        sorted(s),
        base + s.len() <= total,
    ensures
        s.len() > 0 ==> rows_from(s, base, total).len() > 0 && rows_from(s, base, total).last().time
            == s.last().0,
        forall|j: int, k: int|
            0 <= j < k < rows_from(s, base, total).len() ==> rows_from(s, base, total)[j].time
                < rows_from(s, base, total)[k].time && rows_from(s, base, total)[j].at_risk
                > rows_from(s, base, total)[k].at_risk,
    decreases s.len(),
{
    if s.len() > 0 {
        let sp = s.drop_last();
        assert(sorted(sp));
        lemma_rows_ordered(sp, base, total);
        lemma_rows_bounds(sp, base, total);
        if sp.len() > 0 {
            assert(obs_le(sp.last(), s.last()));
        }
    }
}

/// `rows` is the risk set of `s` as the data model describes it: one row
/// per distinct observed time, in strictly ascending order of time, each
/// with the observations at that time or later at risk and the events at
/// that time counted.
pub open spec fn describes_risk_set(s: Seq<Observation>, rows: Seq<RowModel>) -> bool {
    &&& forall|j: int, k: int| 0 <= j < k < rows.len() ==> rows[j].time < rows[k].time
    &&& forall|i: int| 0 <= i < s.len() ==> has_row_at(rows, #[trigger] s[i].0)
    &&& forall|j: int| 0 <= j < rows.len() ==> observed_at(s, #[trigger] rows[j].time)
    &&& forall|j: int|
        0 <= j < rows.len() ==> {
            &&& #[trigger] rows[j].at_risk == at_risk_at(s, rows[j].time)
            &&& rows[j].events == events_at(s, rows[j].time)
        }
}

/// The risk set of sorted observations is the one the data model describes.
pub proof fn lemma_sorted_risk_set(s: Seq<Observation>)
    requires
        sorted(s),
    ensures
        describes_risk_set(s, risk_set(s)),
{
    lemma_rows_ordered(s, 0, s.len());
    lemma_rows_cover_times(s, 0, s.len());
    lemma_risk_set_counts(s);
}

} // verus!
