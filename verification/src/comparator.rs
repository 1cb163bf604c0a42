//! The race comparator: ingests timestamped arrival events from the source
//! feeds, deduplicates them through the unit ledger, runs the alignment gate
//! once at the warm-up to live transition, and — once live — ranks the
//! active sources' arrivals per unit, crediting the earliest as winner and
//! recording every other source's latency against it.

use vstd::prelude::*;
use vstd::seq_lib::group_to_multiset_ensures;

use crate::alignment::{AlignmentGate, GateDecision, lagging_sources, max_first_unit};
use crate::ledger::{Arrival, UnitLedger, in_window};
use crate::registry::{SourceRegistry, SourceState, count_active, count_active_reporters};
use crate::stats::{EndpointStats, LatencyStats};
use crate::math::sum_of;

verus! {

/// Arrival order for the race: earlier timestamp first, the source id
/// breaking ties, so that ranking is deterministic.
pub open spec fn arrival_le(a: Arrival, b: Arrival) -> bool {
    a.timestamp < b.timestamp || (a.timestamp == b.timestamp && a.source <= b.source)
}

/// Ascending arrival order.
pub open spec fn sorted_arrivals(s: Seq<Arrival>) -> bool {
    forall|i: int, j: int| 0 <= i < j < s.len() ==> arrival_le(s[i], s[j])
}

/// No two arrivals in the list share a source.
pub open spec fn distinct_sources(s: Seq<Arrival>) -> bool {
    forall|p: int, q: int| 0 <= p < q < s.len() ==> s[p].source != s[q].source
}

/// The arrivals whose source is still active, in arrival order.
pub open spec fn active_arrivals_of(arrivals: Seq<Arrival>, sources: Seq<SourceState>) -> Seq<
    Arrival,
>
    decreases arrivals.len(),
{
    if arrivals.len() == 0 {
        Seq::empty()
    } else {
        let rest = active_arrivals_of(arrivals.drop_last(), sources);
        let a = arrivals.last();
        if a.source < sources.len() && sources[a.source as int].active {
            rest.push(a)
        } else {
            rest
        }
    }
}

proof fn lemma_active_arrivals_push(arrivals: Seq<Arrival>, sources: Seq<SourceState>, a: Arrival)
    ensures
        active_arrivals_of(arrivals.push(a), sources) == if a.source < sources.len()
            && sources[a.source as int].active {
            active_arrivals_of(arrivals, sources).push(a)
        } else {
            active_arrivals_of(arrivals, sources)
        },
{
    assert(arrivals.push(a).drop_last() =~= arrivals);
}

/// Every selected arrival has an active source and comes from the input;
/// and the selection keeps the sources distinct if they were.
proof fn lemma_active_arrivals_sub(arrivals: Seq<Arrival>, sources: Seq<SourceState>)
    ensures
        forall|k: int|
            0 <= k < active_arrivals_of(arrivals, sources).len() ==> {
                let a = #[trigger] active_arrivals_of(arrivals, sources)[k];
                &&& a.source < sources.len()
                &&& sources[a.source as int].active
                &&& exists|m: int| 0 <= m < arrivals.len() && a == arrivals[m]
            },
        distinct_sources(arrivals) ==> distinct_sources(active_arrivals_of(arrivals, sources)),
        active_arrivals_of(arrivals, sources).len() <= arrivals.len(),
    decreases arrivals.len(),
{
    if arrivals.len() == 0 {
    } else {
        let rest = arrivals.drop_last();
        lemma_active_arrivals_sub(rest, sources);
        let res = active_arrivals_of(arrivals, sources);
        let prior = active_arrivals_of(rest, sources);
        assert forall|k: int| 0 <= k < res.len() implies {
            let a = #[trigger] res[k];
            &&& a.source < sources.len()
            &&& sources[a.source as int].active
            &&& exists|m: int| 0 <= m < arrivals.len() && a == arrivals[m]
        } by {
            if k < prior.len() {
                let a = prior[k];
                let m = choose|m: int| 0 <= m < rest.len() && a == rest[m];
                assert(arrivals[m] == a);
            } else {
                assert(res[k] == arrivals[arrivals.len() - 1]);
            }
        }
        if distinct_sources(arrivals) {
            assert forall|p: int, q: int| 0 <= p < q < res.len() implies res[p].source
                != res[q].source by {
                if q < prior.len() {
                } else if res.len() > prior.len() && q == res.len() - 1 {
                    let a = prior[p];
                    let m = choose|m: int| 0 <= m < rest.len() && a == rest[m];
                    assert(arrivals[m].source != arrivals[arrivals.len() - 1].source);
                }
            }
        }
    }
}

/// A source-distinct arrival list stays source-distinct across any
/// reordering that keeps the same arrivals.
proof fn lemma_distinct_sources_perm(a: Seq<Arrival>, b: Seq<Arrival>)
    requires
        a.to_multiset() == b.to_multiset(),
        distinct_sources(a),
    ensures
        distinct_sources(b),
{
    broadcast use group_to_multiset_ensures;

    assert forall|p: int, q: int| 0 <= p < q < b.len() implies b[p].source != b[q].source by {
        if b[p].source == b[q].source {
            if b[p] == b[q] {
                assert(a.no_duplicates()) by {
                    assert forall|i: int, j: int|
                        0 <= i < a.len() && 0 <= j < a.len() && i != j implies a[i] != a[j] by {
                        if i < j {
                            assert(a[i].source != a[j].source);
                        } else {
                            assert(a[j].source != a[i].source);
                        }
                    }
                }
                a.lemma_multiset_has_no_duplicates();
                b.lemma_multiset_has_no_duplicates_conv();
                assert(b[p] != b[q]);
            } else {
                assert(b.contains(b[p]) && b.contains(b[q]));
                assert(b.to_multiset().count(b[p]) > 0 && b.to_multiset().count(b[q]) > 0);
                assert(a.to_multiset().count(b[p]) > 0 && a.to_multiset().count(b[q]) > 0);
                assert(a.contains(b[p]) && a.contains(b[q]));
                let i = choose|i: int| 0 <= i < a.len() && a[i] == b[p];
                let j = choose|j: int| 0 <= j < a.len() && a[j] == b[q];
                assert(i != j);
                if i < j {
                    assert(a[i].source != a[j].source);
                } else {
                    assert(a[j].source != a[i].source);
                }
            }
        }
    }
}

/// Selects the arrivals of still-active sources, in arrival order.
fn filter_active(arrivals: &Vec<Arrival>, registry: &SourceRegistry) -> (out: Vec<Arrival>)
    ensures
        out@ == active_arrivals_of(arrivals@, registry@),
{
    let n = arrivals.len();
    let mut out: Vec<Arrival> = Vec::new();
    let mut i: usize = 0;
    while i < n
        invariant
            i <= n,
            n == arrivals@.len(),
            out@ == active_arrivals_of(arrivals@.take(i as int), registry@),
        decreases n - i,
    {
        proof {
            assert(arrivals@.take(i + 1) =~= arrivals@.take(i as int).push(arrivals@[i as int]));
            lemma_active_arrivals_push(arrivals@.take(i as int), registry@, arrivals@[i as int]);
        }
        let a = arrivals[i];
        if a.source < registry.source_count() && registry.is_active(a.source) {
            out.push(a);
        }
        i = i + 1;
    }
    proof {
        assert(arrivals@.take(n as int) =~= arrivals@);
    }
    out
}

/// Sorts arrivals by `(timestamp, source)` ascending; the result holds
/// exactly the arrivals of `data`.
fn sort_arrivals(data: &Vec<Arrival>) -> (out: Vec<Arrival>)
    ensures
        sorted_arrivals(out@),
        out@.to_multiset() == data@.to_multiset(),
        out@.len() == data@.len(),
{
    let mut out: Vec<Arrival> = Vec::new();
    proof {
        broadcast use group_to_multiset_ensures;

        assert(out@ =~= data@.take(0));
    }
    let n = data.len();
    let mut i: usize = 0;
    while i < n
        invariant
            i <= n,
            n == data@.len(),
            out@.len() == i,
            sorted_arrivals(out@),
            out@.to_multiset() == data@.take(i as int).to_multiset(),
        decreases n - i,
    {
        let x = data[i];
        let mut pos: usize = 0;
        while pos < out.len() && (out[pos].timestamp < x.timestamp || (out[pos].timestamp
            == x.timestamp && out[pos].source <= x.source))
            invariant
                pos <= out@.len(),
                forall|k: int| 0 <= k < pos ==> arrival_le(#[trigger] out@[k], x),
                sorted_arrivals(out@),
            decreases out@.len() - pos,
        {
            pos = pos + 1;
        }
        let ghost old_out = out@;
        out.insert(pos, x);
        proof {
            assert forall|a: int, b: int| 0 <= a < b < out@.len() implies arrival_le(
                out@[a],
                out@[b],
            ) by {
                if b < pos {
                } else if a > pos {
                    assert(out@[a] == old_out[a - 1] && out@[b] == old_out[b - 1]);
                } else if a == pos {
                    assert(out@[a] == x && out@[b] == old_out[b - 1]);
                    assert(!arrival_le(old_out[pos as int], x));
                    assert(pos < b - 1 + 1 <= old_out.len());
                    if pos < b - 1 {
                        assert(arrival_le(old_out[pos as int], old_out[b - 1]));
                    }
                } else if b == pos {
                    assert(out@[a] == old_out[a] && out@[b] == x);
                } else {
                    assert(out@[a] == old_out[a] && out@[b] == old_out[b - 1]);
                    assert(!arrival_le(old_out[pos as int], x));
                    if pos < b - 1 {
                        assert(arrival_le(old_out[pos as int], old_out[b - 1]));
                    }
                    assert(arrival_le(out@[a], x));
                }
            }
            broadcast use vstd::seq_lib::to_multiset_insert;
            broadcast use group_to_multiset_ensures;

            assert(data@.take(i + 1) =~= data@.take(i as int).push(x));
            assert(out@.to_multiset() =~= data@.take(i + 1).to_multiset());
        }
        i = i + 1;
    }
    proof {
        assert(data@.take(n as int) =~= data@);
    }
    out
}

/// One ranked arrival of a compared unit.  `latency` is the delay behind the
/// winner; `recorded` says whether it entered the source's statistics (it is
/// dropped below the noise floor, and the winner itself has none).
#[derive(PartialEq, Eq, Structural, Debug, Clone, Copy)]
pub struct RaceEntry {
    pub source: usize,
    pub timestamp: u64,
    pub latency: u64,
    pub recorded: bool,
}

/// The outcome of comparing one unit: the active sources' arrivals in race
/// order, the winner first.
#[derive(Debug, Clone)]
pub struct UnitRaceResult {
    pub unit: u64,
    pub winner: usize,
    pub winner_timestamp: u64,
    pub rankings: Vec<RaceEntry>,
}

/// The arrivals a ranking list describes.
pub open spec fn entries_arrivals(rankings: Seq<RaceEntry>) -> Seq<Arrival> {
    rankings.map_values(|e: RaceEntry| Arrival { source: e.source, timestamp: e.timestamp })
}

/// The per-entry race arithmetic: each latency is the gap to the winner, and
/// exactly the non-winner entries at or above the noise floor are recorded.
pub open spec fn rankings_arith(rankings: Seq<RaceEntry>, floor: u64) -> bool {
    forall|k: int|
        0 <= k < rankings.len() ==> {
            let e = #[trigger] rankings[k];
            &&& e.latency == e.timestamp - rankings[0].timestamp
            &&& (e.recorded <==> (k > 0 && e.latency >= floor))
        }
}

/// A saturating tally step.
pub open spec fn bump(x: u64) -> u64 {
    if x < u64::MAX {
        (x + 1) as u64
    } else {
        x
    }
}

/// Whether source `i` appears in the ranking list.
pub open spec fn ranked(rankings: Seq<RaceEntry>, i: int) -> bool {
    exists|k: int| 0 <= k < rankings.len() && rankings[k].source == i
}

/// How a comparison changes the per-source statistics: sources outside the
/// ranking keep their statistics untouched; every ranked source is counted
/// as compared once; the winner is counted as first once; every recorded
/// entry pushes its latency sample.
pub open spec fn stats_updated_for_unit(
    olds: Seq<EndpointStats>,
    news: Seq<EndpointStats>,
    rankings: Seq<RaceEntry>,
) -> bool {
    &&& news.len() == olds.len()
    &&& forall|i: int| 0 <= i < olds.len() && !ranked(rankings, i) ==> news[i] == olds[i]
    &&& forall|k: int|
        0 <= k < rankings.len() && (#[trigger] rankings[k]).source < olds.len() ==> {
            let s = rankings[k].source as int;
            let o = olds[s];
            let f = news[s];
            &&& f.total_received == bump(o.total_received)
            &&& f.first_received == if k == 0 {
                bump(o.first_received)
            } else {
                o.first_received
            }
            &&& f.latencies@ == if rankings[k].recorded {
                o.latencies@.push(rankings[k].latency)
            } else {
                o.latencies@
            }
            &&& f.total_latency == if rankings[k].recorded {
                o.total_latency + rankings[k].latency
            } else {
                o.total_latency as int
            }
            &&& f.is_available == o.is_available
            &&& f.has_received_data == o.has_received_data
            &&& f.first_slot == o.first_slot
        }
}

/// Whether source `i` appears in the rankings of any of the results.
pub open spec fn ranked_in_any(results: Seq<UnitRaceResult>, i: int) -> bool {
    exists|j: int| 0 <= j < results.len() && ranked((#[trigger] results[j]).rankings@, i)
}

/// How many entries of a ranking were recorded as latency samples.
pub open spec fn count_recorded(rankings: Seq<RaceEntry>) -> int
    decreases rankings.len(),
{
    if rankings.len() == 0 {
        0
    } else {
        count_recorded(rankings.drop_last()) + if rankings.last().recorded {
            1int
        } else {
            0int
        }
    }
}

/// For any compared unit, exactly one source is credited as winner, and
/// the winner credit plus the recorded latency samples account for every
/// active source that arrived — provided no non-winner latency fell below
/// the noise floor (a sub-floor arrival is dropped as timer noise and then
/// does not appear in either tally).
pub proof fn lemma_winner_accounting(rankings: Seq<RaceEntry>, floor: u64)
    requires
        rankings.len() >= 1,
        rankings_arith(rankings, floor),
        forall|k: int| 0 < k < rankings.len() ==> (#[trigger] rankings[k]).latency >= floor,
    ensures
        1 + count_recorded(rankings) == rankings.len(),
    decreases rankings.len(),
{
    if rankings.len() == 1 {
        assert(count_recorded(rankings.drop_last()) == 0);
    } else {
        let rest = rankings.drop_last();
        assert(rankings_arith(rest, floor)) by {
            assert forall|k: int| 0 <= k < rest.len() implies {
                let e = #[trigger] rest[k];
                &&& e.latency == e.timestamp - rest[0].timestamp
                &&& (e.recorded <==> (k > 0 && e.latency >= floor))
            } by {
                assert(rest[k] == rankings[k]);
                assert(rest[0] == rankings[0]);
            }
        }
        lemma_winner_accounting(rest, floor);
        assert(rankings.last().recorded);
    }
}

/// The rule for when enough active sources have reported to judge alignment
/// and go live.
#[derive(PartialEq, Eq, Structural, Debug, Clone, Copy)]
pub enum QuorumRule {
    /// Every active source must have reported its first unit.
    AllActive,
    /// At least this many active sources must have reported (never fewer
    /// than two).
    AtLeast(usize),
}

/// The comparator's policy knobs.
#[derive(PartialEq, Eq, Structural, Debug, Clone, Copy)]
pub struct ComparatorConfig {
    /// How many units behind the live edge a source's first unit may lie.
    pub alignment_threshold: u64,
    /// Latencies below this many microseconds are timer noise, not samples.
    pub noise_floor_micros: u64,
    /// How many units below the high-water mark the ledger retains.
    pub retention_window: u64,
    /// How long the caller should wait for near-simultaneous arrivals
    /// before comparing a unit.  The library never sleeps itself.
    pub grace_window_millis: u64,
    /// When the warm-up quorum is met.
    pub quorum: QuorumRule,
}

impl ComparatorConfig {
    /// The default policy: alignment threshold 10 units, noise floor
    /// 10 µs (0.01 ms), retention window 100 units, grace window 500 ms,
    /// and a quorum of any two active reporters.
    pub fn standard() -> (c: Self)
        ensures
            c.alignment_threshold == 10,
            c.noise_floor_micros == 10,
            c.retention_window == 100,
            c.grace_window_millis == 500,
            c.quorum == QuorumRule::AtLeast(2),
    {
        ComparatorConfig {
            alignment_threshold: 10,
            noise_floor_micros: 10,
            retention_window: 100,
            grace_window_millis: 500,
            quorum: QuorumRule::AtLeast(2),
        }
    }
}

/// The comparator's run state.  Warm-up records arrivals without comparing;
/// live compares; stopped ignores further events.
#[derive(PartialEq, Eq, Structural, Debug, Clone, Copy)]
pub enum RunState {
    Warmup,
    Live,
    Stopped,
}

/// What one ingested event led to.
#[derive(Debug)]
pub enum IngestOutcome {
    /// The run is stopped; the event was ignored.
    Stopped,
    /// The same source already delivered this unit; discarded.
    Duplicate,
    /// Recorded for bookkeeping only (warm-up, or comparison never started).
    Recorded,
    /// Recorded while live: the caller should wait the grace window and then
    /// call `compare_unit` for this unit.
    AwaitCompare,
    /// This event completed the quorum and the alignment gate let the run
    /// proceed; the warm-up backlog was compared and these are its results.
    WentLive(Vec<UnitRaceResult>),
    /// This event completed the quorum but too few sources survived the
    /// alignment gate; the run stays in warm-up for good.
    GateAborted,
}

/// A fresh per-source statistics record.
pub open spec fn fresh_stats(e: EndpointStats) -> bool {
    &&& e.total_latency == 0
    &&& e.latencies@.len() == 0
    &&& e.first_received == 0
    &&& e.total_received == 0
    &&& e.is_available
    &&& !e.has_received_data
    &&& e.first_slot is None
}

/// Whether enough active sources have reported a first unit to judge
/// alignment: never fewer than two, and under `AllActive` every active
/// source.
pub open spec fn quorum_met(sources: Seq<SourceState>, rule: QuorumRule) -> bool {
    &&& count_active_reporters(sources) >= 2
    &&& match rule {
        QuorumRule::AllActive => count_active_reporters(sources) == count_active(sources),
        QuorumRule::AtLeast(k) => count_active_reporters(sources) >= k,
    }
}

/// The `(source, first unit)` pairs of the active sources that have
/// reported, in source order — what the alignment gate judges.
pub open spec fn reporter_pairs(s: Seq<SourceState>) -> Seq<(usize, u64)>
    decreases s.len(),
{
    if s.len() == 0 {
        Seq::empty()
    } else {
        let rest = reporter_pairs(s.drop_last());
        let x = s.last();
        if x.active && x.first_unit is Some {
            rest.push((((s.len() - 1) as usize), x.first_unit->0))
        } else {
            rest
        }
    }
}

proof fn lemma_reporter_pairs_push(s: Seq<SourceState>, x: SourceState)
    ensures
        reporter_pairs(s.push(x)) == if x.active && x.first_unit is Some {
            reporter_pairs(s).push(((s.len() as usize), x.first_unit->0))
        } else {
            reporter_pairs(s)
        },
{
    assert(s.push(x).drop_last() =~= s);
}

proof fn lemma_reporter_pairs_props(s: Seq<SourceState>)
    ensures
        reporter_pairs(s).len() == count_active_reporters(s),
        forall|k: int|
            0 <= k < reporter_pairs(s).len() ==> (#[trigger] reporter_pairs(s)[k]).0 < s.len(),
    decreases s.len(),
{
    if s.len() > 0 {
        lemma_reporter_pairs_props(s.drop_last());
    }
}

/// Every lagging source id names one of the judged pairs.
proof fn lemma_lagging_elems(s: Seq<(usize, u64)>, edge: int, thr: int)
    ensures
        forall|j: int|
            0 <= j < lagging_sources(s, edge, thr).len() ==> exists|k: int|
                0 <= k < s.len() && (#[trigger] lagging_sources(s, edge, thr)[j]) == s[k].0,
    decreases s.len(),
{
    if s.len() == 0 {
    } else {
        let rest = s.drop_last();
        lemma_lagging_elems(rest, edge, thr);
        let whole = lagging_sources(s, edge, thr);
        let prior = lagging_sources(rest, edge, thr);
        assert forall|j: int| 0 <= j < whole.len() implies exists|k: int|
            0 <= k < s.len() && (#[trigger] whole[j]) == s[k].0 by {
            if j < prior.len() {
                assert(whole[j] == prior[j]);
                assert(exists|k: int| 0 <= k < rest.len() && prior[j] == rest[k].0);
                let k = choose|k: int| 0 <= k < rest.len() && prior[j] == rest[k].0;
                assert(0 <= k < s.len() && whole[j] == s[k].0);
            } else {
                assert(whole[j] == s[s.len() - 1].0);
            }
        }
    }
}

/// The source list after the alignment policy excludes the named sources.
pub open spec fn with_excluded(s: Seq<SourceState>, ex: Seq<usize>) -> Seq<SourceState> {
    Seq::new(
        s.len(),
        |i: int|
            if ex.contains(i as usize) {
                (SourceState { active: false, ..s[i] })
            } else {
                s[i]
            },
    )
}

/// The source list after one first-arrival mark.
pub open spec fn marked_sources(
    s: Seq<SourceState>,
    source: int,
    unit: u64,
    timestamp: u64,
) -> Seq<SourceState> {
    if s[source].first_unit is None {
        s.update(
            source,
            (SourceState {
                first_unit: Some(unit),
                first_arrival_time: Some(timestamp),
                ..s[source]
            }),
        )
    } else {
        s
    }
}

/// The statistics after one first-arrival mark.
pub open spec fn marked_stats(
    st: Seq<EndpointStats>,
    s: Seq<SourceState>,
    source: int,
    unit: u64,
) -> Seq<EndpointStats> {
    if s[source].first_unit is None {
        st.update(
            source,
            (EndpointStats { has_received_data: true, first_slot: Some(unit), ..st[source] }),
        )
    } else {
        st
    }
}

/// How an accepted arrival changes the ledger: the high-water mark rises to
/// the unit if it is ahead, the arrival is appended to its unit, and every
/// unit that fell out of the retention window below the new high-water mark
/// is evicted.
pub open spec fn ledger_recorded(
    pre: &RaceComparator,
    post: &RaceComparator,
    source: usize,
    unit: u64,
    timestamp: u64,
) -> bool {
    &&& post.ledger_high_water() == if unit > pre.ledger_high_water() {
        unit
    } else {
        pre.ledger_high_water()
    }
    &&& forall|u: u64|
        #[trigger] post.arrivals(u) == {
            let appended = if u == unit {
                pre.arrivals(u).push(Arrival { source, timestamp })
            } else {
                pre.arrivals(u)
            };
            if in_window(u, post.ledger_high_water(), pre.cfg().retention_window) {
                appended
            } else {
                Seq::<Arrival>::empty()
            }
        }
}

/// One source's line in the final report.
#[derive(Debug)]
pub struct SourceReport {
    pub name: String,
    pub first_received: u64,
    pub total_received: u64,
    pub is_available: bool,
    pub has_received_data: bool,
    pub first_unit: Option<u64>,
    pub latency: LatencyStats,
}

/// A report line faithfully reflects its source's registry state and
/// statistics, with the latency statistics computed over exactly the
/// recorded samples.
pub open spec fn report_matches(src: SourceState, es: EndpointStats, rep: SourceReport) -> bool {
    &&& rep.name == src.name
    &&& rep.first_received == es.first_received
    &&& rep.total_received == es.total_received
    &&& rep.is_available == src.active
    &&& rep.has_received_data == es.has_received_data
    &&& rep.first_unit == src.first_unit
    &&& rep.latency.inv()
    &&& rep.latency.count == es.latencies@.len()
    &&& rep.latency.latencies@.to_multiset() == es.latencies@.to_multiset()
    &&& es.latencies@.len() > 0 ==> {
        &&& rep.latency.min == rep.latency.latencies@[0]
        &&& rep.latency.max == rep.latency.latencies@[rep.latency.latencies@.len() - 1]
        &&& rep.latency.sum == sum_of(rep.latency.latencies@)
        &&& rep.latency.derived_fields_hold()
    }
}

/// What a correct race result for its unit looks like, judged against the
/// comparator state it came from: the rankings hold exactly the unit's
/// arrivals by active sources, in `(timestamp, source)` order with the
/// winner first, each latency measured against the winner and recorded
/// exactly when it reaches the noise floor.
pub open spec fn result_valid(c: &RaceComparator, r: UnitRaceResult) -> bool {
    let parts = c.active_arrivals(r.unit);
    &&& r.rankings@.len() == parts.len()
    &&& r.rankings@.len() >= 2
    &&& entries_arrivals(r.rankings@).to_multiset() == parts.to_multiset()
    &&& sorted_arrivals(entries_arrivals(r.rankings@))
    &&& distinct_sources(entries_arrivals(r.rankings@))
    &&& r.winner == r.rankings@[0].source
    &&& r.winner_timestamp == r.rankings@[0].timestamp
    &&& rankings_arith(r.rankings@, c.cfg().noise_floor_micros)
    &&& forall|k: int|
        0 <= k < r.rankings@.len() ==> (#[trigger] r.rankings@[k]).source < c.sources().len()
            && c.sources()[r.rankings@[k].source as int].active
}

/// An excluded source is never winner-eligible: no race result produced
/// against a comparator state in which the source is inactive ranks it at
/// all, let alone first.  (Its previously recorded statistics are untouched
/// by exclusion — `report_failure` leaves every statistic as it was — so
/// they still appear in the final snapshot.)
pub proof fn lemma_excluded_never_ranked(c: &RaceComparator, r: UnitRaceResult, s: int)
    requires
        0 <= s < c.sources().len(),
        !c.sources()[s].active,
        result_valid(c, r),
    ensures
        r.winner != s,
        forall|k: int| 0 <= k < r.rankings@.len() ==> (#[trigger] r.rankings@[k]).source != s,
{
    assert forall|k: int|
        0 <= k < r.rankings@.len() implies (#[trigger] r.rankings@[k]).source != s by {
        assert(c.sources()[r.rankings@[k].source as int].active);
    }
    assert(r.rankings@[0].source != s);
}

/// The race comparator.  Feeds push `(source, unit, timestamp)` events into
/// `ingest`; after the grace window the caller hands a live unit to
/// `compare_unit`; `snapshot` reads the per-source report at any time.
pub struct RaceComparator {
    registry: SourceRegistry,
    ledger: UnitLedger,
    stats: Vec<EndpointStats>,
    pending_units: Vec<u64>,
    processed_units: Vec<u64>,
    state: RunState,
    gate_resolved: bool,
    config: ComparatorConfig,
}

impl RaceComparator {
    /// The configured sources' states, indexed by source id.
    pub closed spec fn sources(&self) -> Seq<SourceState> {
        self.registry@
    }

    /// The per-source statistics, indexed by source id.
    pub closed spec fn stats_seq(&self) -> Seq<EndpointStats> {
        self.stats@
    }

    /// The retained arrivals for a unit.
    pub closed spec fn arrivals(&self, unit: u64) -> Seq<Arrival> {
        self.ledger.arrivals_of(unit)
    }

    /// Whether an arrival of `unit` by `source` is on record.
    pub open spec fn has_arrival(&self, unit: u64, source: usize) -> bool {
        exists|k: int|
            0 <= k < self.arrivals(unit).len() && self.arrivals(unit)[k].source == source
    }

    /// The highest unit id ever seen.
    pub closed spec fn ledger_high_water(&self) -> u64 {
        self.ledger.high_water()
    }

    /// The current run state.
    pub closed spec fn run_state(&self) -> RunState {
        self.state
    }

    /// Whether the alignment gate has given its one-shot verdict.
    pub closed spec fn gate_resolved(&self) -> bool {
        self.gate_resolved
    }

    /// The units seen during warm-up, awaiting the first comparison batch.
    pub closed spec fn pending(&self) -> Seq<u64> {
        self.pending_units@
    }

    /// The units already compared (or claimed for comparison).
    pub closed spec fn processed(&self) -> Seq<u64> {
        self.processed_units@
    }

    /// The policy knobs the comparator was built with.
    pub closed spec fn cfg(&self) -> ComparatorConfig {
        self.config
    }

    /// The arrivals of `unit` whose sources are still active.
    pub open spec fn active_arrivals(&self, unit: u64) -> Seq<Arrival> {
        active_arrivals_of(self.arrivals(unit), self.sources())
    }

    /// Internal consistency: the ledger is well-formed and configured with
    /// the retention window; statistics exist for exactly the configured
    /// sources and agree with their samples; every recorded arrival names a
    /// configured source; and a live run has a resolved gate.
    pub closed spec fn wf(&self) -> bool {
        &&& self.ledger.wf()
        &&& self.ledger.window() == self.config.retention_window
        &&& self.stats@.len() == self.registry@.len()
        &&& forall|i: int| 0 <= i < self.stats@.len() ==> (#[trigger] self.stats@[i]).inv()
        &&& forall|u: u64, k: int|
            0 <= k < self.ledger.arrivals_of(u).len() ==> (#[trigger] self.ledger.arrivals_of(
                u,
            )[k]).source < self.registry@.len()
        &&& (self.state is Live ==> self.gate_resolved)
        &&& (self.state is Warmup ==> self.processed_units@ == Seq::<u64>::empty())
        &&& forall|p: int, q: int|
            0 <= p < q < self.pending_units@.len() ==> self.pending_units@[p]
                != self.pending_units@[q]
    }

    /// A comparator over the named sources, in warm-up, with nothing
    /// recorded.
    pub fn new(names: Vec<String>, config: ComparatorConfig) -> (c: Self)
        ensures
            c.wf(),
            c.sources().len() == names@.len(),
            forall|i: int|
                0 <= i < names@.len() ==> (#[trigger] c.sources()[i]) == (SourceState {
                    name: names@[i],
                    active: true,
                    first_unit: None,
                    first_arrival_time: None,
                }),
            forall|i: int| 0 <= i < names@.len() ==> fresh_stats(#[trigger] c.stats_seq()[i]),
            c.run_state() is Warmup,
            !c.gate_resolved(),
            c.pending() == Seq::<u64>::empty(),
            c.processed() == Seq::<u64>::empty(),
            forall|u: u64| #[trigger] c.arrivals(u) == Seq::<Arrival>::empty(),
            c.ledger_high_water() == 0,
            c.cfg() == config,
    {
        let registry = SourceRegistry::new(names);
        let n = registry.source_count();
        let mut stats: Vec<EndpointStats> = Vec::new();
        let mut i: usize = 0;
        while i < n
            invariant
                i <= n,
                stats@.len() == i,
                forall|k: int| 0 <= k < i ==> (#[trigger] stats@[k]).inv(),
                forall|k: int| 0 <= k < i ==> fresh_stats(#[trigger] stats@[k]),
            decreases n - i,
        {
            stats.push(EndpointStats::new());
            i = i + 1;
        }
        RaceComparator {
            registry,
            ledger: UnitLedger::new(config.retention_window),
            stats,
            pending_units: Vec::new(),
            processed_units: Vec::new(),
            state: RunState::Warmup,
            gate_resolved: false,
            config,
        }
    }

    /// Number of configured sources.
    pub fn source_count(&self) -> (n: usize)
        ensures
            n == self.sources().len(),
    {
        self.registry.source_count()
    }

    /// Whether a source is still taking part in comparisons.
    pub fn is_active(&self, source: usize) -> (b: bool)
        requires
            source < self.sources().len(),
        ensures
            b == self.sources()[source as int].active,
    {
        self.registry.is_active(source)
    }

    /// The current run state.
    pub fn state(&self) -> (s: RunState)
        ensures
            s == self.run_state(),
    {
        self.state
    }

    /// The policy the comparator runs under.
    pub fn config(&self) -> (c: ComparatorConfig)
        ensures
            c == self.cfg(),
    {
        self.config
    }

    /// A feed reports an unrecoverable failure: the source is excluded, its
    /// already-recorded statistics stay untouched, and the run carries on
    /// with the remaining sources.
    pub fn report_failure(&mut self, source: usize)
        requires
            old(self).wf(),
            source < old(self).sources().len(),
        ensures
            final(self).wf(),
            final(self).sources() == old(self).sources().update(
                source as int,
                (SourceState { active: false, ..old(self).sources()[source as int] }),
            ),
            final(self).stats_seq() == old(self).stats_seq(),
            forall|u: u64| #[trigger] final(self).arrivals(u) == old(self).arrivals(u),
            final(self).run_state() == old(self).run_state(),
            final(self).gate_resolved() == old(self).gate_resolved(),
            final(self).pending() == old(self).pending(),
            final(self).processed() == old(self).processed(),
            final(self).cfg() == old(self).cfg(),
            final(self).ledger_high_water() == old(self).ledger_high_water(),
    {
        self.registry.exclude(source);
    }

    /// Whether `x` is among the values of `v`.
    fn contains_u64(v: &Vec<u64>, x: u64) -> (b: bool)
        ensures
            b == v@.contains(x),
    {
        let n = v.len();
        let mut i: usize = 0;
        while i < n
            invariant
                i <= n,
                n == v@.len(),
                forall|k: int| 0 <= k < i ==> v@[k] != x,
            decreases n - i,
        {
            if v[i] == x {
                return true;
            }
            i = i + 1;
        }
        false
    }

    /// Compares one unit, once: ranks the retained arrivals of the unit's
    /// still-active sources by `(timestamp, source)`, credits the first as
    /// winner, and records every other source's latency behind the winner
    /// when it reaches the noise floor.  Nothing happens unless the run is
    /// live; a unit already claimed is never compared again; fewer than two
    /// active arrivals mean there is nothing to compare (the unit is still
    /// claimed).
    #[verifier::loop_isolation(false)]
    pub fn compare_unit(&mut self, unit: u64) -> (r: Option<UnitRaceResult>)
        requires
            old(self).wf(),
        ensures
            final(self).wf(),
            final(self).sources() == old(self).sources(),
            forall|u: u64| #[trigger] final(self).arrivals(u) == old(self).arrivals(u),
            final(self).run_state() == old(self).run_state(),
            final(self).gate_resolved() == old(self).gate_resolved(),
            final(self).pending() == old(self).pending(),
            final(self).cfg() == old(self).cfg(),
            final(self).ledger_high_water() == old(self).ledger_high_water(),
            !(old(self).run_state() is Live) ==> r is None && *final(self) == *old(self),
            old(self).run_state() is Live && old(self).processed().contains(unit) ==> r is None
                && *final(self) == *old(self),
            old(self).run_state() is Live && !old(self).processed().contains(unit) ==> {
                &&& final(self).processed() == old(self).processed().push(unit)
                &&& match r {
                    None => old(self).active_arrivals(unit).len() < 2 && final(self).stats_seq()
                        == old(self).stats_seq(),
                    Some(res) => {
                        &&& old(self).active_arrivals(unit).len() >= 2
                        &&& res.unit == unit
                        &&& result_valid(&*final(self), res)
                        &&& stats_updated_for_unit(
                            old(self).stats_seq(),
                            final(self).stats_seq(),
                            res.rankings@,
                        )
                    },
                }
            },
    {
        match self.state {
            RunState::Live => {},
            _ => {
                return None;
            },
        }
        if Self::contains_u64(&self.processed_units, unit) {
            return None;
        }
        self.processed_units.push(unit);
        let arrivals = self.ledger.arrivals_for(unit);
        let active = filter_active(&arrivals, &self.registry);
        proof {
            lemma_active_arrivals_sub(arrivals@, self.registry@);
        }
        if active.len() < 2 {
            return None;
        }
        proof {
            assert(distinct_sources(arrivals@)) by {
                assert forall|p: int, q: int|
                    0 <= p < q < arrivals@.len() implies arrivals@[p].source
                    != arrivals@[q].source by {
                    self.ledger.lemma_at_most_once_per_source(unit, p, q);
                }
            }
        }
        let sorted = sort_arrivals(&active);
        proof {
            lemma_distinct_sources_perm(active@, sorted@);
            broadcast use group_to_multiset_ensures;

            assert forall|k: int| 0 <= k < sorted@.len() implies {
                &&& (#[trigger] sorted@[k]).source < self.registry@.len()
                &&& self.registry@[sorted@[k].source as int].active
            } by {
                assert(sorted@.contains(sorted@[k]));
                assert(sorted@.to_multiset().count(sorted@[k]) > 0);
                assert(active@.to_multiset().count(sorted@[k]) > 0);
                assert(active@.contains(sorted@[k]));
                let m = choose|m: int| 0 <= m < active@.len() && active@[m] == sorted@[k];
                assert(active@[m].source < self.registry@.len());
            }
        }
        let winner_ts = sorted[0].timestamp;
        let floor = self.config.noise_floor_micros;
        let ghost base = self.stats@;
        let mut rankings: Vec<RaceEntry> = Vec::new();
        let m = sorted.len();
        let mut k: usize = 0;
        while k < m
            invariant
                k <= m,
                rankings@.len() == k,
                self.registry == old(self).registry,
                self.ledger == old(self).ledger,
                self.pending_units == old(self).pending_units,
                self.processed_units@ == old(self).processed_units@.push(unit),
                self.state == old(self).state,
                self.gate_resolved == old(self).gate_resolved,
                self.config == old(self).config,
                self.stats@.len() == base.len(),
                forall|j: int|
                    0 <= j < k ==> {
                        let e = #[trigger] rankings@[j];
                        &&& e.source == sorted@[j].source
                        &&& e.timestamp == sorted@[j].timestamp
                        &&& e.latency == sorted@[j].timestamp - winner_ts
                        &&& (e.recorded <==> (j > 0 && e.latency >= floor))
                    },
                forall|i: int|
                    0 <= i < base.len() && !(exists|j: int|
                        0 <= j < k && sorted@[j].source == i) ==> self.stats@[i] == base[i],
                forall|j: int|
                    0 <= j < k ==> {
                        let s = (#[trigger] sorted@[j]).source as int;
                        let o = base[s];
                        let f = self.stats@[s];
                        &&& f.total_received == bump(o.total_received)
                        &&& f.first_received == if j == 0 {
                            bump(o.first_received)
                        } else {
                            o.first_received
                        }
                        &&& f.latencies@ == if rankings@[j].recorded {
                            o.latencies@.push(rankings@[j].latency)
                        } else {
                            o.latencies@
                        }
                        &&& f.total_latency == if rankings@[j].recorded {
                            o.total_latency + rankings@[j].latency
                        } else {
                            o.total_latency as int
                        }
                        &&& f.is_available == o.is_available
                        &&& f.has_received_data == o.has_received_data
                        &&& f.first_slot == o.first_slot
                    },
                forall|i: int| 0 <= i < self.stats@.len() ==> (#[trigger] self.stats@[i]).inv(),
            decreases m - k,
        {
            let a = sorted[k];
            proof {
                if k > 0 {
                    assert(arrival_le(sorted@[0], sorted@[k as int]));
                }
            }
            let lat = a.timestamp - winner_ts;
            let recorded = k > 0 && lat >= floor;
            rankings.push(
                RaceEntry { source: a.source, timestamp: a.timestamp, latency: lat, recorded },
            );
            let ghost pre = self.stats@;
            let mut st = self.stats.remove(a.source);
            proof {
                assert(forall|j: int| 0 <= j < k ==> sorted@[j].source != a.source);
                assert(st == base[a.source as int]);
            }
            st.increment_total_received();
            if k == 0 {
                st.increment_first_received();
            }
            if recorded {
                st.add_latency(lat);
            }
            self.stats.insert(a.source, st);
            proof {
                assert(self.stats@ =~= pre.update(a.source as int, self.stats@[a.source as int]));
            }
            k = k + 1;
        }
        proof {
            assert(entries_arrivals(rankings@) =~= sorted@);
            assert(stats_updated_for_unit(base, self.stats@, rankings@)) by {
                assert forall|i: int|
                    0 <= i < base.len() && !ranked(rankings@, i) implies self.stats@[i] == base[i] by {
                    if exists|j: int| 0 <= j < m && sorted@[j].source == i {
                        let j = choose|j: int| 0 <= j < m && sorted@[j].source == i;
                        assert(rankings@[j].source == i);
                    }
                }
                assert forall|k2: int|
                    0 <= k2 < rankings@.len() && (#[trigger] rankings@[k2]).source
                        < base.len() implies {
                    let s = rankings@[k2].source as int;
                    let o = base[s];
                    let f = self.stats@[s];
                    &&& f.total_received == bump(o.total_received)
                    &&& f.first_received == if k2 == 0 {
                        bump(o.first_received)
                    } else {
                        o.first_received
                    }
                    &&& f.latencies@ == if rankings@[k2].recorded {
                        o.latencies@.push(rankings@[k2].latency)
                    } else {
                        o.latencies@
                    }
                    &&& f.total_latency == if rankings@[k2].recorded {
                        o.total_latency + rankings@[k2].latency
                    } else {
                        o.total_latency as int
                    }
                    &&& f.is_available == o.is_available
                    &&& f.has_received_data == o.has_received_data
                    &&& f.first_slot == o.first_slot
                } by {
                    assert(sorted@[k2].source == rankings@[k2].source);
                }
            }
        }
        let winner = sorted[0].source;
        let result = UnitRaceResult { unit, winner, winner_timestamp: winner_ts, rankings };
        Some(result)
    }

    /// Ingests one arrival event from a feed.  A repeat delivery of the same
    /// unit by the same source is discarded.  The source's first arrival is
    /// marked.  While warm, the unit joins the pending backlog; once the
    /// quorum of active reporters is met the alignment gate gives its
    /// one-shot verdict, and going live compares the whole warm-up backlog
    /// (each unit exactly as `compare_unit` does).  While live, the caller
    /// waits the grace window and then calls `compare_unit` for the unit.
    #[verifier::loop_isolation(false)]
    #[verifier::rlimit(100)]
    pub fn ingest(&mut self, source: usize, unit: u64, timestamp: u64) -> (r: IngestOutcome)
        requires
            old(self).wf(),
            source < old(self).sources().len(),
        ensures
            final(self).wf(),
            final(self).cfg() == old(self).cfg(),
            final(self).sources().len() == old(self).sources().len(),
            (r is Stopped <==> old(self).run_state() is Stopped),
            r is Stopped ==> *final(self) == *old(self),
            (r is Duplicate <==> !(old(self).run_state() is Stopped) && old(self).has_arrival(
                unit,
                source,
            )),
            r is Duplicate ==> *final(self) == *old(self),
            !(r is Stopped) && !(r is Duplicate) ==> {
                &&& !old(self).has_arrival(unit, source)
                &&& ledger_recorded(old(self), final(self), source, unit, timestamp)
                &&& final(self).stats_seq().len() == old(self).stats_seq().len()
            },
            (r is AwaitCompare <==> (old(self).run_state() is Live && !old(self).has_arrival(
                unit,
                source,
            ))),
            r is AwaitCompare ==> {
                &&& final(self).sources() == marked_sources(
                    old(self).sources(),
                    source as int,
                    unit,
                    timestamp,
                )
                &&& final(self).stats_seq() == marked_stats(
                    old(self).stats_seq(),
                    old(self).sources(),
                    source as int,
                    unit,
                )
                &&& final(self).run_state() is Live
                &&& final(self).gate_resolved() == old(self).gate_resolved()
                &&& final(self).pending() == old(self).pending()
                &&& final(self).processed() == old(self).processed()
            },
            r is Recorded ==> {
                &&& old(self).run_state() is Warmup
                &&& final(self).run_state() is Warmup
                &&& final(self).sources() == marked_sources(
                    old(self).sources(),
                    source as int,
                    unit,
                    timestamp,
                )
                &&& final(self).stats_seq() == marked_stats(
                    old(self).stats_seq(),
                    old(self).sources(),
                    source as int,
                    unit,
                )
                &&& final(self).gate_resolved() == old(self).gate_resolved()
                &&& (old(self).gate_resolved() ==> final(self).pending() == old(self).pending())
                &&& (!old(self).gate_resolved() ==> {
                    &&& final(self).pending() == if old(self).pending().contains(unit) {
                        old(self).pending()
                    } else {
                        old(self).pending().push(unit)
                    }
                    &&& !quorum_met(
                        marked_sources(old(self).sources(), source as int, unit, timestamp),
                        old(self).cfg().quorum,
                    )
                })
                &&& final(self).processed() == old(self).processed()
            },
            (r is WentLive || r is GateAborted) ==> {
                let marked = marked_sources(old(self).sources(), source as int, unit, timestamp);
                let firsts = reporter_pairs(marked);
                let excl = lagging_sources(
                    firsts,
                    max_first_unit(firsts),
                    old(self).cfg().alignment_threshold as int,
                );
                &&& old(self).run_state() is Warmup
                &&& !old(self).gate_resolved()
                &&& quorum_met(marked, old(self).cfg().quorum)
                &&& final(self).gate_resolved()
                &&& final(self).sources() == with_excluded(marked, excl)
                &&& final(self).pending() == if old(self).pending().contains(unit) {
                    old(self).pending()
                } else {
                    old(self).pending().push(unit)
                }
                &&& ((firsts.len() - excl.len() >= 2) <==> r is WentLive)
            },
            r is GateAborted ==> {
                &&& final(self).run_state() is Warmup
                &&& final(self).processed() == old(self).processed()
                &&& final(self).stats_seq() == marked_stats(
                    old(self).stats_seq(),
                    old(self).sources(),
                    source as int,
                    unit,
                )
            },
            match r {
                IngestOutcome::WentLive(results) => {
                    &&& final(self).run_state() is Live
                    &&& final(self).processed() == final(self).pending()
                    &&& forall|j: int|
                        0 <= j < results@.len() ==> result_valid(
                            &*final(self),
                            #[trigger] results@[j],
                        ) && final(self).pending().contains(results@[j].unit)
                    &&& forall|i: int|
                        0 <= i < final(self).stats_seq().len() && !ranked_in_any(results@, i)
                            ==> final(self).stats_seq()[i] == marked_stats(
                            old(self).stats_seq(),
                            old(self).sources(),
                            source as int,
                            unit,
                        )[i]
                },
                _ => true,
            },
    {
        match self.state {
            RunState::Stopped => {
                return IngestOutcome::Stopped;
            },
            _ => {},
        }
        let accepted = self.ledger.record_arrival(unit, source, timestamp);
        proof {
            if old(self).has_arrival(unit, source) {
                let k = choose|k: int|
                    0 <= k < old(self).arrivals(unit).len() && old(self).arrivals(unit)[k].source
                        == source;
                assert(old(self).ledger.arrivals_of(unit)[k].source == source);
            }
            if old(self).ledger.contains_pair(unit, source) {
                let k = choose|k: int|
                    0 <= k < old(self).ledger.arrivals_of(unit).len() && old(
                        self,
                    ).ledger.arrivals_of(unit)[k].source == source;
                assert(old(self).arrivals(unit)[k].source == source);
            }
        }
        if !accepted {
            return IngestOutcome::Duplicate;
        }
        proof {
            assert forall|u: u64, k: int|
                0 <= k < self.ledger.arrivals_of(u).len() implies (
            #[trigger] self.ledger.arrivals_of(u)[k]).source < self.registry@.len() by {
                let pre = old(self).ledger.arrivals_of(u);
                if k < pre.len() {
                    assert(pre[k].source < self.registry@.len());
                }
            }
        }
        let is_first = self.registry.mark_first_arrival(source, unit, timestamp);
        if is_first {
            let ghost pre_stats = self.stats@;
            let mut st = self.stats.remove(source);
            st.has_received_data = true;
            st.first_slot = Some(unit);
            self.stats.insert(source, st);
            proof {
                assert(self.stats@ =~= pre_stats.update(
                    source as int,
                    self.stats@[source as int],
                ));
            }
        }
        match self.state {
            RunState::Live => {
                return IngestOutcome::AwaitCompare;
            },
            _ => {},
        }
        if self.gate_resolved {
            return IngestOutcome::Recorded;
        }
        if !Self::contains_u64(&self.pending_units, unit) {
            let ghost pre_pending = self.pending_units@;
            self.pending_units.push(unit);
            proof {
                assert forall|p: int, q: int|
                    0 <= p < q < self.pending_units@.len() implies self.pending_units@[p]
                    != self.pending_units@[q] by {
                    if q < self.pending_units@.len() - 1 {
                        assert(pre_pending[p] != pre_pending[q]);
                    } else {
                        assert(pre_pending.contains(pre_pending[p]));
                    }
                }
            }
        }
        let reporters = self.registry.active_reporter_count();
        let actives = self.registry.active_count();
        let met = reporters >= 2 && (match self.config.quorum {
            QuorumRule::AllActive => reporters == actives,
            QuorumRule::AtLeast(k) => reporters >= k,
        });
        if !met {
            return IngestOutcome::Recorded;
        }
        // collect the active reporters' first units for the alignment check
        let n = self.registry.source_count();
        let mut firsts: Vec<(usize, u64)> = Vec::new();
        let mut i: usize = 0;
        while i < n
            invariant
                i <= n,
                firsts@ == reporter_pairs(self.registry@.take(i as int)),
            decreases n - i,
        {
            proof {
                assert(self.registry@.take(i + 1) =~= self.registry@.take(i as int).push(
                    self.registry@[i as int],
                ));
                lemma_reporter_pairs_push(self.registry@.take(i as int), self.registry@[i as int]);
                assert(self.registry@.take(i as int).len() == i);
            }
            if self.registry.is_active(i) {
                match self.registry.first_unit_of(i) {
                    Some(first) => {
                        firsts.push((i, first));
                    },
                    None => {},
                }
            }
            i = i + 1;
        }
        proof {
            assert(self.registry@.take(n as int) =~= self.registry@);
            lemma_reporter_pairs_props(self.registry@);
        }
        let gate = AlignmentGate::new(self.config.alignment_threshold);
        let outcome = gate.evaluate(&firsts);
        self.gate_resolved = true;
        let ghost marked = self.registry@;
        let ghost excl = outcome.excluded@;
        let ghost led = self.ledger;
        let ghost sts = self.stats@;
        let ghost pnd = self.pending_units@;
        let ghost prc = self.processed_units@;
        proof {
            lemma_lagging_elems(
                firsts@,
                max_first_unit(firsts@),
                self.config.alignment_threshold as int,
            );
        }
        let ne = outcome.excluded.len();
        let mut j: usize = 0;
        while j < ne
            invariant
                j <= ne,
                ne == excl.len(),
                outcome.excluded@ == excl,
                self.ledger == led,
                self.stats@ == sts,
                self.pending_units@ == pnd,
                self.processed_units@ == prc,
                self.state is Warmup,
                self.gate_resolved,
                self.config == old(self).config,
                self.registry@.len() == marked.len(),
                forall|idx: int|
                    0 <= idx < marked.len() ==> #[trigger] self.registry@[idx] == if (exists|q: int|
                        0 <= q < j && excl[q] == idx) {
                        (SourceState { active: false, ..marked[idx] })
                    } else {
                        marked[idx]
                    },
            decreases ne - j,
        {
            let e = outcome.excluded[j];
            proof {
                assert(exists|k: int| 0 <= k < firsts@.len() && excl[j as int] == firsts@[k].0);
                let k = choose|k: int| 0 <= k < firsts@.len() && excl[j as int] == firsts@[k].0;
                assert(firsts@[k].0 < marked.len());
            }
            let ghost pre_reg = self.registry@;
            self.registry.exclude(e);
            proof {
                assert forall|idx: int| 0 <= idx < marked.len() implies #[trigger] self.registry@[idx]
                    == if (exists|q: int| 0 <= q < j + 1 && excl[q] == idx) {
                    (SourceState { active: false, ..marked[idx] })
                } else {
                    marked[idx]
                } by {
                    if idx == e as int {
                        assert(excl[j as int] == idx);
                    } else {
                        assert(self.registry@[idx] == pre_reg[idx]);
                        if exists|q: int| 0 <= q < j + 1 && excl[q] == idx {
                            let q = choose|q: int| 0 <= q < j + 1 && excl[q] == idx;
                            assert(0 <= q < j && excl[q] == idx);
                        }
                    }
                }
            }
            j = j + 1;
        }
        proof {
            assert(self.registry@ =~= with_excluded(marked, excl));
        }
        let proceed = match outcome.decision {
            GateDecision::Proceed => true,
            GateDecision::Abort => false,
        };
        if !proceed {
            return IngestOutcome::GateAborted;
        }
        self.state = RunState::Live;
        // compare the warm-up backlog
        let ghost snap = *self;
        let mut results: Vec<UnitRaceResult> = Vec::new();
        let np = self.pending_units.len();
        let ghost pend = self.pending_units@;
        let mut b: usize = 0;
        proof {
            assert(self.processed_units@ == pend.take(0));
        }
        while b < np
            invariant
                b <= np,
                np == pend.len(),
                self.wf(),
                self.pending_units@ == pend,
                self.state is Live,
                self.gate_resolved,
                self.config == old(self).config,
                self.registry@ == snap.registry@,
                forall|u: u64| #[trigger] self.arrivals(u) == snap.arrivals(u),
                self.ledger.high_water() == snap.ledger.high_water(),
                self.stats@.len() == snap.stats@.len(),
                self.processed_units@ == pend.take(b as int),
                forall|jj: int|
                    0 <= jj < results@.len() ==> result_valid(&self, #[trigger] results@[jj])
                        && pend.contains(results@[jj].unit),
                forall|i: int|
                    0 <= i < snap.stats@.len() && !ranked_in_any(results@, i) ==> self.stats@[i]
                        == snap.stats@[i],
            decreases np - b,
        {
            let u = self.pending_units[b];
            proof {
                assert(!pend.take(b as int).contains(u)) by {
                    if pend.take(b as int).contains(u) {
                        let q = choose|q: int| 0 <= q < b && pend.take(b as int)[q] == u;
                        assert(pend[q] == pend[b as int]);
                    }
                }
            }
            let ghost prev = *self;
            let res = self.compare_unit(u);
            proof {
                assert(self.processed_units@ =~= pend.take(b + 1));
                assert forall|u2: u64| #[trigger] self.arrivals(u2) == snap.arrivals(u2) by {
                    assert(self.arrivals(u2) == prev.arrivals(u2));
                }
                assert forall|jj: int|
                    0 <= jj < results@.len() implies result_valid(&self, #[trigger] results@[jj])
                        && pend.contains(results@[jj].unit) by {
                    let rr = results@[jj];
                    assert(self.arrivals(rr.unit) == prev.arrivals(rr.unit));
                    assert(self.sources() == prev.sources());
                    assert(self.active_arrivals(rr.unit) == prev.active_arrivals(rr.unit));
                }
            }
            let ghost prior_results = results@;
            let ghost res_ghost = res;
            match res {
                Some(rr) => {
                    proof {
                        assert(pend[b as int] == u);
                        assert(pend.contains(u));
                    }
                    results.push(rr);
                },
                None => {},
            }
            proof {
                assert forall|i: int|
                    0 <= i < snap.stats@.len() && !ranked_in_any(results@, i) implies self.stats@[i]
                    == snap.stats@[i] by {
                    assert(!ranked_in_any(prior_results, i)) by {
                        if ranked_in_any(prior_results, i) {
                            let j = choose|j: int|
                                0 <= j < prior_results.len() && ranked(
                                    (#[trigger] prior_results[j]).rankings@,
                                    i,
                                );
                            assert(results@[j] == prior_results[j]);
                            assert(ranked_in_any(results@, i));
                        }
                    }
                    assert(prev.stats@[i] == snap.stats@[i]);
                    if res_ghost is Some {
                        let rr = res_ghost->0;
                        assert(results@[results@.len() - 1] == rr);
                        assert(!ranked(rr.rankings@, i));
                    }
                }
            }
            b = b + 1;
        }
        proof {
            assert(pend.take(np as int) =~= pend);
            assert(marked == marked_sources(old(self).sources(), source as int, unit, timestamp));
            assert(firsts@ == reporter_pairs(marked));
            assert(excl == lagging_sources(
                firsts@,
                max_first_unit(firsts@),
                old(self).cfg().alignment_threshold as int,
            ));
            assert(self.registry@ == with_excluded(marked, excl));
            assert(quorum_met(marked, old(self).cfg().quorum));
            assert(self.pending_units@ == if old(self).pending().contains(unit) {
                old(self).pending()
            } else {
                old(self).pending().push(unit)
            });
            assert(snap.stats@ == marked_stats(
                old(self).stats_seq(),
                old(self).sources(),
                source as int,
                unit,
            ));
        }
        IngestOutcome::WentLive(results)
    }

    /// The per-source report: safe to take at any time, mid-run (partial
    /// results) or after the deadline (final results).
    pub fn snapshot(&self) -> (rep: Vec<SourceReport>)
        requires
            self.wf(),
        ensures
            rep@.len() == self.sources().len(),
            forall|i: int|
                0 <= i < rep@.len() ==> report_matches(
                    self.sources()[i],
                    self.stats_seq()[i],
                    #[trigger] rep@[i],
                ),
    {
        let n = self.registry.source_count();
        let mut rep: Vec<SourceReport> = Vec::new();
        let mut i: usize = 0;
        while i < n
            invariant
                i <= n,
                n == self.registry@.len(),
                self.wf(),
                rep@.len() == i,
                forall|k: int|
                    0 <= k < i ==> report_matches(
                        self.sources()[k],
                        self.stats_seq()[k],
                        #[trigger] rep@[k],
                    ),
            decreases n - i,
        {
            let name = self.registry.name_of(i);
            let es = &self.stats[i];
            let latency = es.get_stats();
            rep.push(
                SourceReport {
                    name,
                    first_received: es.first_received,
                    total_received: es.total_received,
                    is_available: self.registry.is_active(i),
                    has_received_data: es.has_received_data,
                    first_unit: self.registry.first_unit_of(i),
                    latency,
                },
            );
            i = i + 1;
        }
        rep
    }

    /// Ends the run: later events are ignored and no further comparisons
    /// are made.  Statistics stay as they are for the final report.
    pub fn stop(&mut self)
        ensures
            old(self).wf() ==> final(self).wf(),
            final(self).run_state() is Stopped,
            final(self).sources() == old(self).sources(),
            final(self).stats_seq() == old(self).stats_seq(),
            forall|u: u64| #[trigger] final(self).arrivals(u) == old(self).arrivals(u),
            final(self).gate_resolved() == old(self).gate_resolved(),
            final(self).pending() == old(self).pending(),
            final(self).processed() == old(self).processed(),
            final(self).cfg() == old(self).cfg(),
    {
        self.state = RunState::Stopped;
    }
}

} // verus!
