//! The source registry: which sources are configured, which are still
//! active, and each source's first-arrival bookkeeping for the alignment
//! check.

use vstd::prelude::*;

verus! {

/// One configured source.  `active` flips to false permanently when the
/// source errors, disconnects or fails alignment; it is never resurrected
/// within a run.
#[derive(Debug, Clone)]
pub struct SourceState {
    pub name: String,
    pub active: bool,
    pub first_unit: Option<u64>,
    pub first_arrival_time: Option<u64>,
}

/// How many sources in the list are active.
pub open spec fn count_active(s: Seq<SourceState>) -> int
    decreases s.len(),
{
    if s.len() == 0 {
        0
    } else {
        count_active(s.drop_last()) + if s.last().active {
            1int
        } else {
            0int
        }
    }
}

/// How many sources in the list are active and have reported a first unit.
pub open spec fn count_active_reporters(s: Seq<SourceState>) -> int
    decreases s.len(),
{
    if s.len() == 0 {
        0
    } else {
        count_active_reporters(s.drop_last()) + if s.last().active && s.last().first_unit is Some {
            1int
        } else {
            0int
        }
    }
}

pub proof fn lemma_count_push(s: Seq<SourceState>, x: SourceState)
    ensures
        count_active(s.push(x)) == count_active(s) + if x.active {
            1int
        } else {
            0int
        },
        count_active_reporters(s.push(x)) == count_active_reporters(s) + if x.active
            && x.first_unit is Some {
            1int
        } else {
            0int
        },
{
    assert(s.push(x).drop_last() =~= s);
}

/// Tracks the configured sources.  Viewed as the sequence of their states,
/// indexed by source id.
#[derive(Debug)]
pub struct SourceRegistry {
    sources: Vec<SourceState>,
}

impl View for SourceRegistry {
    type V = Seq<SourceState>;

    closed spec fn view(&self) -> Seq<SourceState> {
        self.sources@
    }
}

impl SourceRegistry {
    /// One source per name, all active, none yet reported.
    pub fn new(names: Vec<String>) -> (r: Self)
        ensures
            r@.len() == names@.len(),
            forall|i: int|
                0 <= i < names@.len() ==> (#[trigger] r@[i]) == (SourceState {
                    name: names@[i],
                    active: true,
                    first_unit: None,
                    first_arrival_time: None,
                }),
    {
        let mut sources: Vec<SourceState> = Vec::new();
        let n = names.len();
        let mut i: usize = 0;
        while i < n
            invariant
                i <= n,
                n == names@.len(),
                sources@.len() == i,
                forall|k: int|
                    0 <= k < i ==> (#[trigger] sources@[k]) == (SourceState {
                        name: names@[k],
                        active: true,
                        first_unit: None,
                        first_arrival_time: None,
                    }),
            decreases n - i,
        {
            let name = names[i].clone();
            sources.push(
                SourceState { name, active: true, first_unit: None, first_arrival_time: None },
            );
            i = i + 1;
        }
        SourceRegistry { sources }
    }

    /// Number of configured sources.
    pub fn source_count(&self) -> (n: usize)
        ensures
            n == self@.len(),
    {
        self.sources.len()
    }

    /// Whether the source is still taking part in comparisons.
    pub fn is_active(&self, source: usize) -> (b: bool)
        requires
            source < self@.len(),
        ensures
            b == self@[source as int].active,
    {
        self.sources[source].active
    }

    /// Whether the source has reported its first unit.
    pub fn has_reported(&self, source: usize) -> (b: bool)
        requires
            source < self@.len(),
        ensures
            b == (self@[source as int].first_unit is Some),
    {
        self.sources[source].first_unit.is_some()
    }

    /// The source's first reported unit, if any.
    pub fn first_unit_of(&self, source: usize) -> (r: Option<u64>)
        requires
            source < self@.len(),
        ensures
            r == self@[source as int].first_unit,
    {
        self.sources[source].first_unit
    }

    /// A copy of the source's name.
    pub fn name_of(&self, source: usize) -> (r: String)
        requires
            source < self@.len(),
        ensures
            r == self@[source as int].name,
    {
        self.sources[source].name.clone()
    }

    /// Records the source's first arrival.  Idempotent: only the first call
    /// per source takes effect, and the result says whether this was it.
    pub fn mark_first_arrival(&mut self, source: usize, unit: u64, time: u64) -> (is_first: bool)
        requires
            source < old(self)@.len(),
        ensures
            is_first == (old(self)@[source as int].first_unit is None),
            !is_first ==> final(self)@ == old(self)@,
            is_first ==> final(self)@ == old(self)@.update(
                source as int,
                (SourceState {
                    first_unit: Some(unit),
                    first_arrival_time: Some(time),
                    ..old(self)@[source as int]
                }),
            ),
    {
        let ghost old_sources = self.sources@;
        let mut s = self.sources.remove(source);
        if s.first_unit.is_none() {
            s.first_unit = Some(unit);
            s.first_arrival_time = Some(time);
            self.sources.insert(source, s);
            proof {
                assert(self.sources@ =~= old_sources.update(
                    source as int,
                    self.sources@[source as int],
                ));
            }
            true
        } else {
            self.sources.insert(source, s);
            proof {
                assert(self.sources@ =~= old_sources);
            }
            false
        }
    }

    /// Marks the source inactive; irreversible for the run.
    pub fn exclude(&mut self, source: usize)
        requires
            source < old(self)@.len(),
        ensures
            final(self)@ == old(self)@.update(
                source as int,
                (SourceState { active: false, ..old(self)@[source as int] }),
            ),
    {
        let ghost old_sources = self.sources@;
        let mut s = self.sources.remove(source);
        s.active = false;
        self.sources.insert(source, s);
        proof {
            assert(self.sources@ =~= old_sources.update(source as int, self.sources@[source as int]));
        }
    }

    /// How many sources are still active.
    pub fn active_count(&self) -> (n: usize)
        ensures
            n == count_active(self@),
    {
        let total = self.sources.len();
        let mut n: usize = 0;
        let mut i: usize = 0;
        while i < total
            invariant
                i <= total,
                total == self.sources@.len(),
                n == count_active(self.sources@.take(i as int)),
                n <= i,
            decreases total - i,
        {
            proof {
                assert(self.sources@.take(i + 1) =~= self.sources@.take(i as int).push(
                    self.sources@[i as int],
                ));
                lemma_count_push(self.sources@.take(i as int), self.sources@[i as int]);
            }
            if self.sources[i].active {
                n = n + 1;
            }
            i = i + 1;
        }
        proof {
            assert(self.sources@.take(total as int) =~= self.sources@);
        }
        n
    }

    /// How many sources are active and have reported their first unit.
    pub fn active_reporter_count(&self) -> (n: usize)
        ensures
            n == count_active_reporters(self@),
    {
        let total = self.sources.len();
        let mut n: usize = 0;
        let mut i: usize = 0;
        while i < total
            invariant
                i <= total,
                total == self.sources@.len(),
                n == count_active_reporters(self.sources@.take(i as int)),
                n <= i,
            decreases total - i,
        {
            proof {
                assert(self.sources@.take(i + 1) =~= self.sources@.take(i as int).push(
                    self.sources@[i as int],
                ));
                lemma_count_push(self.sources@.take(i as int), self.sources@[i as int]);
            }
            if self.sources[i].active && self.sources[i].first_unit.is_some() {
                n = n + 1;
            }
            i = i + 1;
        }
        proof {
            assert(self.sources@.take(total as int) =~= self.sources@);
        }
        n
    }
}

} // verus!
