//! The alignment gate: a one-shot policy that decides, once the active
//! sources have reported their first units, whether those first units are
//! close enough together to compare, and which sources joined too far behind
//! the live edge to take part.

use vstd::prelude::*;

verus! {

/// What the alignment policy can decide: start comparing, or never leave
/// warm-up.
#[derive(PartialEq, Eq, Structural, Debug, Clone, Copy)]
pub enum GateDecision {
    Proceed,
    Abort,
}

/// The live edge: the largest first unit any reporter saw (0 with no
/// reporters).
pub open spec fn max_first_unit(s: Seq<(usize, u64)>) -> int
    decreases s.len(),
{
    if s.len() == 0 {
        0
    } else if s.last().1 > max_first_unit(s.drop_last()) {
        s.last().1 as int
    } else {
        max_first_unit(s.drop_last())
    }
}

/// The sources whose first unit lies more than `threshold` below the edge,
/// in report order.
pub open spec fn lagging_sources(s: Seq<(usize, u64)>, edge: int, threshold: int) -> Seq<usize>
    decreases s.len(),
{
    if s.len() == 0 {
        Seq::empty()
    } else {
        let rest = lagging_sources(s.drop_last(), edge, threshold);
        if edge - s.last().1 > threshold {
            rest.push(s.last().0)
        } else {
            rest
        }
    }
}

proof fn lemma_edge_push(s: Seq<(usize, u64)>, x: (usize, u64), edge: int, threshold: int)
    ensures
        max_first_unit(s.push(x)) == if s.len() == 0 || x.1 > max_first_unit(s) {
            x.1 as int
        } else {
            max_first_unit(s)
        },
        lagging_sources(s.push(x), edge, threshold) == if edge - x.1 > threshold {
            lagging_sources(s, edge, threshold).push(x.0)
        } else {
            lagging_sources(s, edge, threshold)
        },
{
    let t = s.push(x);
    assert(t.drop_last() =~= s);
    assert(t.last() == x);
    assert(t.len() == s.len() + 1);
    if s.len() == 0 {
        assert(max_first_unit(s) == 0);
    }
}

/// No first unit lies above the edge.
pub proof fn lemma_edge_ge(s: Seq<(usize, u64)>, k: int)
    requires
        0 <= k < s.len(),
    ensures
        s[k].1 <= max_first_unit(s),
    decreases s.len(),
{
    if k < s.len() - 1 {
        lemma_edge_ge(s.drop_last(), k);
    }
}

proof fn lemma_lagging_len(s: Seq<(usize, u64)>, edge: int, threshold: int)
    ensures
        lagging_sources(s, edge, threshold).len() <= s.len(),
    decreases s.len(),
{
    if s.len() > 0 {
        lemma_lagging_len(s.drop_last(), edge, threshold);
    }
}

/// What the alignment policy decided, and whom it excluded.
#[derive(Debug)]
pub struct AlignmentOutcome {
    pub excluded: Vec<usize>,
    pub decision: GateDecision,
}

/// The one-shot alignment policy, parameterized by how many units behind
/// the live edge a source's first unit may lie.
#[derive(PartialEq, Eq, Structural, Debug, Clone, Copy)]
pub struct AlignmentGate {
    pub threshold: u64,
}

impl AlignmentGate {
    pub fn new(threshold: u64) -> (g: Self)
        ensures
            g.threshold == threshold,
    {
        AlignmentGate { threshold }
    }

    /// Judges the reporters' first units, given as `(source, first unit)`
    /// pairs.  Excluded are exactly the sources whose first unit lies more
    /// than `threshold` below the largest first unit among the reporters;
    /// the verdict is to proceed exactly when at least two reporters remain.
    pub fn evaluate(&self, firsts: &Vec<(usize, u64)>) -> (o: AlignmentOutcome)
        requires
            firsts@.len() >= 2,
        ensures
            o.excluded@ == lagging_sources(
                firsts@,
                max_first_unit(firsts@),
                self.threshold as int,
            ),
            o.decision == (if firsts@.len() - o.excluded@.len() >= 2 {
                GateDecision::Proceed
            } else {
                GateDecision::Abort
            }),
            o.excluded@.len() < firsts@.len(),
    {
        let n = firsts.len();
        let mut edge: u64 = 0;
        let mut i: usize = 0;
        while i < n
            invariant
                i <= n,
                n == firsts@.len(),
                edge == if i == 0 {
                    0int
                } else {
                    max_first_unit(firsts@.take(i as int))
                },
            decreases n - i,
        {
            proof {
                assert(firsts@.take(i + 1) =~= firsts@.take(i as int).push(firsts@[i as int]));
                lemma_edge_push(firsts@.take(i as int), firsts@[i as int], 0, 0);
            }
            let v = firsts[i].1;
            if i == 0 || v > edge {
                edge = v;
            }
            i = i + 1;
        }
        proof {
            assert(firsts@.take(n as int) =~= firsts@);
        }
        let ghost e = max_first_unit(firsts@);
        let ghost thr = self.threshold as int;
        let mut excluded: Vec<usize> = Vec::new();
        let mut i: usize = 0;
        while i < n
            invariant
                i <= n,
                n == firsts@.len(),
                edge == max_first_unit(firsts@),
                e == max_first_unit(firsts@),
                thr == self.threshold as int,
                excluded@ == lagging_sources(firsts@.take(i as int), e, thr),
                excluded@.len() <= i,
            decreases n - i,
        {
            proof {
                assert(firsts@.take(i + 1) =~= firsts@.take(i as int).push(firsts@[i as int]));
                lemma_edge_push(firsts@.take(i as int), firsts@[i as int], e, thr);
                lemma_edge_ge(firsts@, i as int);
            }
            let p = firsts[i];
            if edge - p.1 > self.threshold {
                excluded.push(p.0);
                proof {
                    assert(lagging_sources(firsts@.take(i + 1), e, thr) == lagging_sources(
                        firsts@.take(i as int),
                        e,
                        thr,
                    ).push(firsts@[i as int].0));
                }
            } else {
                proof {
                    assert(lagging_sources(firsts@.take(i + 1), e, thr) == lagging_sources(
                        firsts@.take(i as int),
                        e,
                        thr,
                    ));
                }
            }
            i = i + 1;
        }
        proof {
            assert(firsts@.take(n as int) =~= firsts@);
            lemma_lagging_len(firsts@, e, thr);
            // the reporter at the live edge is never lagging, so at least one
            // reporter stays
            assert(excluded@.len() < firsts@.len()) by {
                lemma_lagging_strict(firsts@, e, thr);
            }
        }
        let kept = n - excluded.len();
        let decision = if kept >= 2 {
            GateDecision::Proceed
        } else {
            GateDecision::Abort
        };
        AlignmentOutcome { excluded, decision }
    }
}

/// A list whose every first unit sits within the window below the edge
/// contributes nothing to the lagging list; one that holds the edge itself
/// keeps at least that reporter.
proof fn lemma_lagging_strict(s: Seq<(usize, u64)>, edge: int, threshold: int)
    requires
        s.len() > 0,
        edge == max_first_unit(s),
        threshold >= 0,
    ensures
        lagging_sources(s, edge, threshold).len() < s.len(),
    decreases s.len(),
{
    if s.len() == 1 {
        assert(s.drop_last().len() == 0);
        assert(max_first_unit(s.drop_last()) == 0);
        assert(lagging_sources(s.drop_last(), edge, threshold).len() == 0);
        assert(edge == s.last().1);
        assert(lagging_sources(s, edge, threshold).len() == 0);
    } else {
        let rest = s.drop_last();
        if s.last().1 > max_first_unit(rest) {
            // the last reporter holds the edge and is kept
            assert(edge == s.last().1);
            assert(lagging_sources(s, edge, threshold) == lagging_sources(rest, edge, threshold));
            lemma_lagging_len(rest, edge, threshold);
        } else {
            assert(edge == max_first_unit(rest));
            lemma_lagging_strict(rest, edge, threshold);
            assert(lagging_sources(s, edge, threshold).len() <= lagging_sources(
                rest,
                edge,
                threshold,
            ).len() + 1);
        }
    }
}

} // verus!
