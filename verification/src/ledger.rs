//! The unit ledger: a bounded mapping from unit id to the arrivals observed
//! for that unit.  It discards repeat deliveries of a unit by the same
//! source, and keeps only units within a sliding window below the highest
//! unit id ever seen.

use vstd::prelude::*;

verus! {

/// One observed arrival: which source delivered the unit, and when (µs).
#[derive(PartialEq, Eq, Structural, Debug, Clone, Copy)]
pub struct Arrival {
    pub source: usize,
    pub timestamp: u64,
}

/// The arrivals recorded for one unit.
#[derive(Debug, Clone)]
pub struct LedgerEntry {
    pub unit: u64,
    pub arrivals: Vec<Arrival>,
}

/// A unit is retained while it is at most `window` below the high-water
/// mark.
pub open spec fn in_window(unit: u64, high_water: u64, window: u64) -> bool {
    unit + window >= high_water
}

/// No two entries describe the same unit.
pub open spec fn units_distinct(es: Seq<LedgerEntry>) -> bool {
    forall|i: int, j: int| 0 <= i < j < es.len() ==> es[i].unit != es[j].unit
}

/// An entry holds at least one arrival and at most one per source.
pub open spec fn entry_wf(e: LedgerEntry) -> bool {
    &&& e.arrivals@.len() > 0
    &&& forall|p: int, q: int|
        0 <= p < q < e.arrivals@.len() ==> e.arrivals@[p].source != e.arrivals@[q].source
}

/// The arrivals the entry list holds for `unit`; empty when the unit is
/// absent.
pub open spec fn lookup(es: Seq<LedgerEntry>, unit: u64) -> Seq<Arrival> {
    if exists|i: int| 0 <= i < es.len() && es[i].unit == unit {
        es[choose|i: int| 0 <= i < es.len() && es[i].unit == unit].arrivals@
    } else {
        Seq::empty()
    }
}

proof fn lemma_lookup_present(es: Seq<LedgerEntry>, i: int)
    requires
        units_distinct(es),
        0 <= i < es.len(),
    ensures
        lookup(es, es[i].unit) == es[i].arrivals@,
{
    let u = es[i].unit;
    assert(exists|k: int| 0 <= k < es.len() && es[k].unit == u);
    let w = choose|k: int| 0 <= k < es.len() && es[k].unit == u;
    assert(w == i);
}

proof fn lemma_lookup_absent(es: Seq<LedgerEntry>, unit: u64)
    requires
        forall|i: int| 0 <= i < es.len() ==> es[i].unit != unit,
    ensures
        lookup(es, unit) == Seq::<Arrival>::empty(),
{
}

proof fn lemma_lookup_push_other(es: Seq<LedgerEntry>, e: LedgerEntry, unit: u64)
    requires
        units_distinct(es.push(e)),
        e.unit != unit,
    ensures
        lookup(es.push(e), unit) == lookup(es, unit),
{
    assert forall|i: int, j: int| 0 <= i < j < es.len() implies es[i].unit != es[j].unit by {
        assert(es.push(e)[i].unit != es.push(e)[j].unit);
    }
    if exists|i: int| 0 <= i < es.len() && es[i].unit == unit {
        let i = choose|i: int| 0 <= i < es.len() && es[i].unit == unit;
        assert(es.push(e)[i].unit == unit);
        lemma_lookup_present(es.push(e), i);
        lemma_lookup_present(es, i);
    } else {
        assert(forall|i: int| 0 <= i < es.push(e).len() ==> es.push(e)[i].unit != unit);
        lemma_lookup_absent(es.push(e), unit);
        lemma_lookup_absent(es, unit);
    }
}

proof fn lemma_lookup_update_other(es: Seq<LedgerEntry>, k: int, e: LedgerEntry, unit: u64)
    requires
        units_distinct(es),
        0 <= k < es.len(),
        es[k].unit == e.unit,
        e.unit != unit,
    ensures
        units_distinct(es.update(k, e)),
        lookup(es.update(k, e), unit) == lookup(es, unit),
{
    if exists|i: int| 0 <= i < es.len() && es[i].unit == unit {
        let i = choose|i: int| 0 <= i < es.len() && es[i].unit == unit;
        assert(es.update(k, e)[i].unit == unit);
        lemma_lookup_present(es.update(k, e), i);
        lemma_lookup_present(es, i);
    } else {
        assert(forall|i: int| 0 <= i < es.update(k, e).len() ==> es.update(k, e)[i].unit != unit);
        lemma_lookup_absent(es.update(k, e), unit);
        lemma_lookup_absent(es, unit);
    }
}

/// Bounded working set of recent units.  Keyed by unit id; each unit holds
/// at most one arrival per source; units more than `window` below the
/// highest unit id ever seen are evicted on each accepted arrival.
#[derive(Debug)]
pub struct UnitLedger {
    entries: Vec<LedgerEntry>,
    high_water: u64,
    window: u64,
}

impl UnitLedger {
    /// The arrivals recorded for `unit`, in arrival order; empty when the
    /// unit is not retained.
    pub closed spec fn arrivals_of(&self, unit: u64) -> Seq<Arrival> {
        lookup(self.entries@, unit)
    }

    /// Whether an arrival of `unit` by `source` is on record.
    pub open spec fn contains_pair(&self, unit: u64, source: usize) -> bool {
        exists|i: int|
            0 <= i < self.arrivals_of(unit).len() && self.arrivals_of(unit)[i].source == source
    }

    /// Highest unit id ever seen.
    pub closed spec fn high_water(&self) -> u64 {
        self.high_water
    }

    /// Width of the retention window below the high-water mark.
    pub closed spec fn window(&self) -> u64 {
        self.window
    }

    /// Units are distinct, every unit holds at least one arrival and at most
    /// one per source, and only units inside the retention window are kept.
    pub closed spec fn wf(&self) -> bool {
        &&& units_distinct(self.entries@)
        &&& forall|i: int| 0 <= i < self.entries@.len() ==> entry_wf(#[trigger] self.entries@[i])
        &&& forall|i: int|
            0 <= i < self.entries@.len() ==> #[trigger] self.entries@[i].unit <= self.high_water
                && in_window(self.entries@[i].unit, self.high_water, self.window)
    }

    /// A source appears at most once among the arrivals of any unit:
    /// duplicate deliveries never make it into the ledger.
    pub proof fn lemma_at_most_once_per_source(&self, unit: u64, i: int, j: int)
        requires
            self.wf(),
            0 <= i < j < self.arrivals_of(unit).len(),
        ensures
            self.arrivals_of(unit)[i].source != self.arrivals_of(unit)[j].source,
    {
        if exists|k: int| 0 <= k < self.entries@.len() && self.entries@[k].unit == unit {
            let k = choose|k: int| 0 <= k < self.entries@.len() && self.entries@[k].unit == unit;
            assert(self.arrivals_of(unit) == self.entries@[k].arrivals@);
        }
    }

    /// An empty ledger with the given retention window.
    pub fn new(window: u64) -> (l: Self)
        ensures
            l.wf(),
            l.window() == window,
            l.high_water() == 0,
            forall|u: u64| #[trigger] l.arrivals_of(u) == Seq::<Arrival>::empty(),
    {
        let l = UnitLedger { entries: Vec::new(), high_water: 0, window };
        proof {
            assert forall|u: u64| #[trigger] l.arrivals_of(u) == Seq::<Arrival>::empty() by {
                lemma_lookup_absent(l.entries@, u);
            }
        }
        l
    }

    /// Index of the entry for `unit`, if the unit is retained.
    fn find_unit(&self, unit: u64) -> (r: Option<usize>)
        ensures
            match r {
                Some(i) => i < self.entries@.len() && self.entries@[i as int].unit == unit,
                None => forall|k: int| 0 <= k < self.entries@.len() ==> self.entries@[k].unit != unit,
            },
    {
        let n = self.entries.len();
        let mut i: usize = 0;
        while i < n
            invariant
                i <= n,
                n == self.entries@.len(),
                forall|k: int| 0 <= k < i ==> self.entries@[k].unit != unit,
            decreases n - i,
        {
            if self.entries[i].unit == unit {
                return Some(i);
            }
            i = i + 1;
        }
        None
    }

    /// Whether some arrival in `a` came from `source`.
    fn contains_source(a: &Vec<Arrival>, source: usize) -> (b: bool)
        ensures
            b == exists|k: int| 0 <= k < a@.len() && a@[k].source == source,
    {
        let n = a.len();
        let mut i: usize = 0;
        while i < n
            invariant
                i <= n,
                n == a@.len(),
                forall|k: int| 0 <= k < i ==> a@[k].source != source,
            decreases n - i,
        {
            if a[i].source == source {
                return true;
            }
            i = i + 1;
        }
        false
    }

    /// An element-by-element copy of an arrival list.
    fn copy_arrivals(a: &Vec<Arrival>) -> (out: Vec<Arrival>)
        ensures
            out@ == a@,
    {
        let n = a.len();
        let mut out: Vec<Arrival> = Vec::new();
        let mut i: usize = 0;
        while i < n
            invariant
                i <= n,
                n == a@.len(),
                out@ == a@.take(i as int),
            decreases n - i,
        {
            out.push(a[i]);
            proof {
                assert(a@.take(i + 1) =~= a@.take(i as int).push(a@[i as int]));
            }
            i = i + 1;
        }
        proof {
            assert(a@.take(n as int) =~= a@);
        }
        out
    }

    /// Records one arrival.  A repeat delivery of the same unit by the same
    /// source is rejected without any change.  On acceptance the arrival is
    /// appended to its unit, the high-water mark rises to the unit if the
    /// unit is ahead of it, and every unit that falls more than `window`
    /// below the new high-water mark is evicted.
    #[verifier::loop_isolation(false)]
    pub fn record_arrival(&mut self, unit: u64, source: usize, timestamp: u64) -> (accepted:
        bool)
        requires
            old(self).wf(),
        ensures
            final(self).wf(),
            accepted == !old(self).contains_pair(unit, source),
            final(self).window() == old(self).window(),
            !accepted ==> *final(self) == *old(self),
            accepted ==> final(self).high_water() == if unit > old(self).high_water() {
                unit
            } else {
                old(self).high_water()
            },
            accepted ==> forall|u: u64|
                #[trigger] final(self).arrivals_of(u) == {
                    let appended = if u == unit {
                        old(self).arrivals_of(u).push(Arrival { source, timestamp })
                    } else {
                        old(self).arrivals_of(u)
                    };
                    if in_window(u, final(self).high_water(), old(self).window()) {
                        appended
                    } else {
                        Seq::<Arrival>::empty()
                    }
                },
    {
        let arrival = Arrival { source, timestamp };
        let ghost old_entries = self.entries@;
        match self.find_unit(unit) {
            Some(i) => {
                proof {
                    lemma_lookup_present(old_entries, i as int);
                }
                if Self::contains_source(&self.entries[i].arrivals, source) {
                    proof {
                        let a = old_entries[i as int].arrivals@;
                        let k = choose|k: int| 0 <= k < a.len() && a[k].source == source;
                        assert(old(self).arrivals_of(unit) == a);
                        assert(old(self).arrivals_of(unit)[k].source == source);
                    }
                    return false;
                }
                let mut e = self.entries.remove(i);
                e.arrivals.push(arrival);
                self.entries.insert(i, e);
                proof {
                    let mid = self.entries@;
                    assert(mid =~= old_entries.update(i as int, mid[i as int]));
                    assert(mid[i as int].arrivals@ == old_entries[i as int].arrivals@.push(
                        arrival,
                    ));
                    assert(entry_wf(mid[i as int]));
                    assert(lookup(mid, unit) == old(self).arrivals_of(unit).push(arrival)) by {
                        lemma_lookup_present(mid, i as int);
                    }
                    assert forall|u: u64| u != unit implies lookup(mid, u) == old(
                        self,
                    ).arrivals_of(u) by {
                        lemma_lookup_update_other(old_entries, i as int, mid[i as int], u);
                    }
                    assert(!old(self).contains_pair(unit, source));
                }
            },
            None => {
                proof {
                    lemma_lookup_absent(old_entries, unit);
                    assert(!old(self).contains_pair(unit, source));
                }
                let mut a: Vec<Arrival> = Vec::new();
                a.push(arrival);
                self.entries.push(LedgerEntry { unit, arrivals: a });
                proof {
                    let mid = self.entries@;
                    assert(mid =~= old_entries.push(mid[mid.len() - 1]));
                    assert(mid[mid.len() - 1].arrivals@ =~= Seq::<Arrival>::empty().push(arrival));
                    assert(entry_wf(mid[mid.len() - 1]));
                    assert(units_distinct(mid));
                    assert(lookup(mid, unit) == old(self).arrivals_of(unit).push(arrival)) by {
                        lemma_lookup_present(mid, mid.len() - 1);
                        assert(old(self).arrivals_of(unit) =~= Seq::<Arrival>::empty());
                    }
                    assert forall|u: u64| u != unit implies lookup(mid, u) == old(
                        self,
                    ).arrivals_of(u) by {
                        lemma_lookup_push_other(old_entries, mid[mid.len() - 1], u);
                    }
                }
            },
        }
        let ghost mid = self.entries@;
        if unit > self.high_water {
            self.high_water = unit;
        }
        let hw = self.high_water;
        let w = self.window;
        proof {
            assert(units_distinct(mid));
            assert(forall|k: int| 0 <= k < mid.len() ==> entry_wf(#[trigger] mid[k]));
            assert(forall|k: int| 0 <= k < mid.len() ==> (#[trigger] mid[k].unit) <= hw);
        }
        let mut kept: Vec<LedgerEntry> = Vec::new();
        proof {
            assert forall|u: u64| #[trigger] lookup(kept@, u) == Seq::<Arrival>::empty() by {
                lemma_lookup_absent(kept@, u);
            }
        }
        let n = self.entries.len();
        let mut i: usize = 0;
        while i < n
            invariant
                i <= n,
                units_distinct(kept@),
                forall|k: int|
                    0 <= k < kept@.len() ==> exists|m: int|
                        0 <= m < i && (#[trigger] kept@[k].unit) == mid[m].unit,
                forall|k: int| 0 <= k < kept@.len() ==> entry_wf(#[trigger] kept@[k]),
                forall|k: int|
                    0 <= k < kept@.len() ==> (#[trigger] kept@[k].unit) <= hw && in_window(
                        kept@[k].unit,
                        hw,
                        w,
                    ),
                forall|u: u64|
                    #[trigger] lookup(kept@, u) == if (exists|m: int|
                        0 <= m < i && mid[m].unit == u) && in_window(u, hw, w) {
                        lookup(mid, u)
                    } else {
                        Seq::<Arrival>::empty()
                    },
            decreases n - i,
        {
            let keep = hw - self.entries[i].unit <= w;
            let ghost prev = kept@;
            if keep {
                let unit_i = self.entries[i].unit;
                let arrivals_i = Self::copy_arrivals(&self.entries[i].arrivals);
                kept.push(LedgerEntry { unit: unit_i, arrivals: arrivals_i });
                proof {
                    let e = kept@[kept@.len() - 1];
                    assert(e.unit == mid[i as int].unit && e.arrivals@ == mid[i as int].arrivals@);
                    assert forall|a: int, b: int| 0 <= a < b < kept@.len() implies kept@[a].unit
                        != kept@[b].unit by {
                        if b < kept@.len() - 1 {
                            assert(prev[a].unit != prev[b].unit);
                        } else {
                            let m = choose|m: int|
                                0 <= m < i && (#[trigger] prev[a].unit) == mid[m].unit;
                            assert(mid[m].unit != mid[i as int].unit);
                        }
                    }
                    lemma_lookup_present(kept@, kept@.len() - 1);
                    lemma_lookup_present(mid, i as int);
                    assert forall|u: u64| u != e.unit implies #[trigger] lookup(kept@, u)
                        == lookup(prev, u) by {
                        assert(kept@ =~= prev.push(e));
                        lemma_lookup_push_other(prev, e, u);
                    }
                    assert forall|k: int| 0 <= k < kept@.len() implies exists|m: int|
                        0 <= m < i + 1 && (#[trigger] kept@[k].unit) == mid[m].unit by {
                        if k < kept@.len() - 1 {
                            let m = choose|m: int|
                                0 <= m < i && (#[trigger] prev[k].unit) == mid[m].unit;
                            assert(0 <= m < i + 1 && kept@[k].unit == mid[m].unit);
                        } else {
                            assert(kept@[k].unit == mid[i as int].unit);
                        }
                    }
                    assert forall|u: u64|
                        #[trigger] lookup(kept@, u) == if (exists|m: int|
                            0 <= m < i + 1 && mid[m].unit == u) && in_window(u, hw, w) {
                            lookup(mid, u)
                        } else {
                            Seq::<Arrival>::empty()
                        } by {
                        if u == e.unit {
                            assert(mid[i as int].unit == u);
                        } else {
                            if exists|m: int| 0 <= m < i + 1 && mid[m].unit == u {
                                let m = choose|m: int| 0 <= m < i + 1 && mid[m].unit == u;
                                assert(m != i);
                                assert(0 <= m < i && mid[m].unit == u);
                            }
                            if exists|m: int| 0 <= m < i && mid[m].unit == u {
                                let m = choose|m: int| 0 <= m < i && mid[m].unit == u;
                                assert(0 <= m < i + 1 && mid[m].unit == u);
                            }
                        }
                    }
                }
            } else {
                proof {
                    assert(!in_window(mid[i as int].unit, hw, w));
                    assert forall|k: int| 0 <= k < kept@.len() implies exists|m: int|
                        0 <= m < i + 1 && (#[trigger] kept@[k].unit) == mid[m].unit by {
                        let m = choose|m: int|
                            0 <= m < i && (#[trigger] kept@[k].unit) == mid[m].unit;
                        assert(0 <= m < i + 1 && kept@[k].unit == mid[m].unit);
                    }
                    assert forall|u: u64|
                        #[trigger] lookup(kept@, u) == if (exists|m: int|
                            0 <= m < i + 1 && mid[m].unit == u) && in_window(u, hw, w) {
                            lookup(mid, u)
                        } else {
                            Seq::<Arrival>::empty()
                        } by {
                        if (exists|m: int| 0 <= m < i + 1 && mid[m].unit == u) && in_window(
                            u,
                            hw,
                            w,
                        ) {
                            let m = choose|m: int| 0 <= m < i + 1 && mid[m].unit == u;
                            assert(m != i);
                            assert(0 <= m < i && mid[m].unit == u);
                        } else {
                            if exists|m: int| 0 <= m < i && mid[m].unit == u {
                                let m = choose|m: int| 0 <= m < i && mid[m].unit == u;
                                assert(0 <= m < i + 1 && mid[m].unit == u);
                            }
                        }
                    }
                }
            }
            i = i + 1;
        }
        self.entries = kept;
        proof {
            assert forall|u: u64|
                #[trigger] self.arrivals_of(u) == {
                    let appended = if u == unit {
                        old(self).arrivals_of(u).push(arrival)
                    } else {
                        old(self).arrivals_of(u)
                    };
                    if in_window(u, hw, w) {
                        appended
                    } else {
                        Seq::<Arrival>::empty()
                    }
                } by {
                if in_window(u, hw, w) {
                    if exists|m: int| 0 <= m < mid.len() && mid[m].unit == u {
                    } else {
                        lemma_lookup_absent(mid, u);
                    }
                }
            }
        }
        true
    }

    /// Read access for the comparator: an immutable snapshot of the arrivals
    /// recorded for `unit`, never a live reference.
    pub fn arrivals_for(&self, unit: u64) -> (out: Vec<Arrival>)
        requires
            self.wf(),
        ensures
            out@ == self.arrivals_of(unit),
    {
        let n = self.entries.len();
        let mut i: usize = 0;
        while i < n
            invariant
                i <= n,
                n == self.entries@.len(),
                self.wf(),
                forall|k: int| 0 <= k < i ==> self.entries@[k].unit != unit,
            decreases n - i,
        {
            if self.entries[i].unit == unit {
                proof {
                    lemma_lookup_present(self.entries@, i as int);
                }
                let mut out: Vec<Arrival> = Vec::new();
                let a = &self.entries[i].arrivals;
                let m = a.len();
                let mut j: usize = 0;
                while j < m
                    invariant
                        j <= m,
                        m == a@.len(),
                        out@ == a@.take(j as int),
                    decreases m - j,
                {
                    out.push(a[j]);
                    proof {
                        assert(a@.take(j + 1) =~= a@.take(j as int).push(a@[j as int]));
                    }
                    j = j + 1;
                }
                proof {
                    assert(a@.take(m as int) =~= a@);
                }
                return out;
            }
            i = i + 1;
        }
        proof {
            lemma_lookup_absent(self.entries@, unit);
        }
        Vec::new()
    }
}

} // verus!
