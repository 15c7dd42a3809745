use vstd::prelude::*;
use crate::graph::{
    Unit, UnitGraph, deps_of, graph_wf, closure, closure_upto, dependents, only, any_marked,
    propagate, dependents_of, lemma_closure_step, lemma_closure_len,
};
use crate::scheduler::{JobState, Scheduler};

verus! {

/// The staleness digest of a unit: the digests of its inputs and flags.
#[derive(Clone, Copy, Debug, PartialEq, Eq, Structural)]
pub struct Fingerprint {
    pub inputs: u64,
    pub flags: u64,
}

/// The fingerprint recorded for each unit, by unit index; a missing entry
/// (absent or past the end) means the unit never compiled successfully.
#[derive(Clone, Debug)]
pub struct FingerprintStore {
    pub records: Vec<Option<Fingerprint>>,
}

/// The fingerprint a unit has now.
pub open spec fn fingerprint_of(u: Unit) -> Fingerprint {
    Fingerprint { inputs: u.inputs, flags: u.flags }
}

pub open spec fn record_at(rec: Seq<Option<Fingerprint>>, u: int) -> Option<Fingerprint> {
    if 0 <= u < rec.len() {
        rec[u]
    } else {
        None
    }
}

/// A unit is stale on its own account when nothing was recorded for it, or
/// its inputs or flags differ from what was recorded.
pub open spec fn own_stale(g: Seq<Unit>, rec: Seq<Option<Fingerprint>>, u: int) -> bool {
    record_at(rec, u) != Some(fingerprint_of(g[u]))
}

pub open spec fn own_stale_marks(g: Seq<Unit>, rec: Seq<Option<Fingerprint>>) -> Seq<bool> {
    Seq::new(g.len(), |u: int| own_stale(g, rec, u))
}

/// The stale units: those stale on their own account, and every unit that
/// depends on a stale unit.
pub open spec fn stale(g: Seq<Unit>, rec: Seq<Option<Fingerprint>>) -> Seq<bool> {
    closure(deps_of(g), own_stale_marks(g, rec))
}

/// The records after a build in which every stale unit compiled successfully
/// and had its fingerprint recorded.
pub open spec fn rebuilt(
    g: Seq<Unit>,
    rec: Seq<Option<Fingerprint>>,
    rec2: Seq<Option<Fingerprint>>,
) -> bool {
    forall|u: int|
        0 <= u < g.len() ==> #[trigger] record_at(rec2, u) == if stale(g, rec)[u] {
            Some(fingerprint_of(g[u]))
        } else {
            record_at(rec, u)
        }
}

impl FingerprintStore {
    /// A store with nothing recorded.
    pub fn new() -> (r: FingerprintStore)
        ensures
            r.records@.len() == 0,
    {
        FingerprintStore { records: Vec::new() }
    }

    /// The staleness of every unit of the graph.
    pub fn stale_units(&self, g: &UnitGraph) -> (r: Vec<bool>)
        ensures
            r@ == stale(g.units@, self.records@),
    {
        let n = g.units.len();
        let mut seed: Vec<bool> = Vec::new();
        let mut u: usize = 0;
        while u < n
            invariant
                n == g.units@.len(),
                u <= n,
                seed@.len() == u,
                forall|j: int| 0 <= j < u ==> seed@[j] == own_stale(g.units@, self.records@, j),
            decreases n - u,
        {
            let fp = Fingerprint { inputs: g.units[u].inputs, flags: g.units[u].flags };
            let fresh = u < self.records.len() && match self.records[u] {
                Some(r) => r == fp,
                None => false,
            };
            seed.push(!fresh);
            u = u + 1;
        }
        assert(seed@ =~= own_stale_marks(g.units@, self.records@));
        propagate(g, &seed)
    }

    /// Whether unit `u` must be recompiled.
    pub fn is_stale(&self, g: &UnitGraph, u: usize) -> (r: bool)
        requires
            u < g.units@.len(),
        ensures
            r == stale(g.units@, self.records@)[u as int],
    {
        let s = self.stale_units(g);
        proof {
            lemma_closure_len(deps_of(g.units@), own_stale_marks(g.units@, self.records@), g.units@.len());
        }
        s[u]
    }

    /// Records unit `u`'s current fingerprint, and clears the records of
    /// every unit that depends on `u`, directly or transitively: they were
    /// built against an older `u`, so they are stale until rebuilt. Only a
    /// unit whose job has succeeded in the build `s` gets a record, so a
    /// failed or interrupted compile never marks its inputs as fresh.
    pub fn record(&mut self, g: &UnitGraph, s: &Scheduler, u: usize)
        requires
            g.wf(),
            u < g.units@.len(),
            u < s.states@.len(),
            s.states@[u as int] == JobState::Succeeded,
        ensures
            forall|v: int|
                #[trigger] record_at(final(self).records@, v) == if v == u {
                    Some(fingerprint_of(g.units@[u as int]))
                } else if 0 <= v < g.units@.len() && dependents(deps_of(g.units@), u as int)[v] {
                    None
                } else {
                    record_at(old(self).records@, v)
                },
            forall|v: int|
                0 <= v < g.units@.len() && v != u && #[trigger] dependents(deps_of(g.units@), u as int)[v]
                    ==> stale(g.units@, final(self).records@)[v],
    {
        let ghost d = deps_of(g.units@);
        let n = g.units.len();
        let marks = dependents_of(g, u);
        proof {
            lemma_closure_len(d, only(d.len(), u as int), d.len());
        }
        while self.records.len() < n
            invariant
                u < n,
                n == g.units@.len(),
                forall|v: int| #[trigger] record_at(self.records@, v) == record_at(old(self).records@, v),
            decreases n - self.records@.len(),
        {
            let ghost before = self.records@;
            self.records.push(None);
            assert forall|v: int| #[trigger] record_at(self.records@, v) == record_at(before, v) by {
                if 0 <= v < before.len() {
                    assert(self.records@[v] == before[v]);
                }
            }
        }
        let ghost start = self.records@;
        let mut v: usize = 0;
        while v < n
            invariant
                u < n,
                n == g.units@.len(),
                v <= n,
                n <= self.records@.len(),
                self.records@.len() == start.len(),
                marks@ == dependents(d, u as int),
                marks@.len() == n,
                forall|w: int| #[trigger] record_at(start, w) == record_at(old(self).records@, w),
                forall|w: int|
                    #[trigger] record_at(self.records@, w) == if 0 <= w < v && w != u && marks@[w] {
                        None
                    } else {
                        record_at(start, w)
                    },
            decreases n - v,
        {
            let ghost before = self.records@;
            if v != u && marks[v] {
                self.records.set(v, None);
            }
            assert forall|w: int| #[trigger] record_at(self.records@, w) == if 0 <= w < v + 1 && w != u
                && marks@[w] {
                None
            } else {
                record_at(start, w)
            } by {
                if 0 <= w < self.records@.len() && w != v {
                    assert(self.records@[w] == before[w]);
                    assert(record_at(before, w) == record_at(self.records@, w));
                }
            }
            v = v + 1;
        }
        let ghost before = self.records@;
        let fp = Fingerprint { inputs: g.units[u].inputs, flags: g.units[u].flags };
        self.records.set(u, Some(fp));
        assert forall|w: int| #[trigger] record_at(self.records@, w) == if w == u {
            Some(fingerprint_of(g.units@[u as int]))
        } else if 0 <= w < g.units@.len() && dependents(d, u as int)[w] {
            None
        } else {
            record_at(old(self).records@, w)
        } by {
            assert(record_at(before, w) == if 0 <= w < n && w != u && marks@[w] {
                None
            } else {
                record_at(start, w)
            });
            assert(record_at(start, w) == record_at(old(self).records@, w));
            if 0 <= w < before.len() && w != u {
                assert(self.records@[w] == before[w]);
                assert(record_at(before, w) == record_at(self.records@, w));
            }
            if w < 0 || w >= before.len() {
                assert(record_at(before, w) == record_at(self.records@, w));
            }
        }
        proof {
            assert forall|w: int|
                0 <= w < g.units@.len() && w != u && #[trigger] dependents(d, u as int)[w]
                    implies stale(g.units@, self.records@)[w] by {
                assert(record_at(self.records@, w) is None);
                lemma_closure_step(d, own_stale_marks(g.units@, self.records@), w);
            }
        }
    }
}

proof fn lemma_closure_none(d: Seq<Seq<usize>>, seed: Seq<bool>, n: nat)
    requires
        forall|i: int| 0 <= i < n ==> !seed[i],
    ensures
        forall|i: int| 0 <= i < n ==> !#[trigger] closure_upto(d, seed, n)[i],
    decreases n,
{
    lemma_closure_len(d, seed, n);
    if n > 0 {
        let p = closure_upto(d, seed, (n - 1) as nat);
        lemma_closure_none(d, seed, (n - 1) as nat);
        lemma_closure_len(d, seed, (n - 1) as nat);
        assert(!any_marked(d[n - 1], p));
        assert forall|i: int| 0 <= i < n implies !#[trigger] closure_upto(d, seed, n)[i] by {
            if i < n - 1 {
                assert(closure_upto(d, seed, n)[i] == p[i]);
            }
        }
    }
}

/// A unit that is not stale has its current fingerprint recorded.
pub proof fn lemma_fresh_is_recorded(g: Seq<Unit>, rec: Seq<Option<Fingerprint>>, u: int)
    requires
        graph_wf(deps_of(g)),
        0 <= u < g.len(),
        !stale(g, rec)[u],
    ensures
        record_at(rec, u) == Some(fingerprint_of(g[u])),
{
    lemma_closure_step(deps_of(g), own_stale_marks(g, rec), u);
}

/// A second build with no source changes compiles nothing: once every stale
/// unit has been rebuilt and recorded, no unit is stale.
pub proof fn lemma_rebuild_leaves_nothing_stale(
    g: Seq<Unit>,
    rec: Seq<Option<Fingerprint>>,
    rec2: Seq<Option<Fingerprint>>,
)
    requires
        graph_wf(deps_of(g)),
        rebuilt(g, rec, rec2),
    ensures
        stale(g, rec2).len() == g.len(),
        forall|u: int| 0 <= u < g.len() ==> !#[trigger] stale(g, rec2)[u],
{
    let seed = own_stale_marks(g, rec2);
    lemma_closure_len(deps_of(g), own_stale_marks(g, rec), g.len());
    assert forall|u: int| 0 <= u < g.len() implies !seed[u] by {
        assert(record_at(rec2, u) == if stale(g, rec)[u] {
            Some(fingerprint_of(g[u]))
        } else {
            record_at(rec, u)
        });
        if !stale(g, rec)[u] {
            lemma_fresh_is_recorded(g, rec, u);
        }
    }
    lemma_closure_len(deps_of(g), seed, g.len());
    lemma_closure_none(deps_of(g), seed, g.len());
}

/// Touching one unit's inputs after a complete build makes exactly that unit
/// and the units depending on it, directly or transitively, stale.
pub proof fn lemma_touch_makes_dependents_stale(
    g: Seq<Unit>,
    g2: Seq<Unit>,
    rec: Seq<Option<Fingerprint>>,
    t: int,
)
    requires
        graph_wf(deps_of(g)),
        forall|u: int| 0 <= u < g.len() ==> !#[trigger] stale(g, rec)[u],
        0 <= t < g.len(),
        g2.len() == g.len(),
        forall|u: int| 0 <= u < g.len() && u != t ==> g2[u] == g[u],
        g2[t].deps@ == g[t].deps@,
        g2[t].flags == g[t].flags,
        g2[t].inputs != g[t].inputs,
    ensures
        stale(g2, rec) == dependents(deps_of(g), t),
{
    assert(deps_of(g2) =~= deps_of(g));
    assert forall|u: int| 0 <= u < g.len() implies #[trigger] own_stale_marks(g2, rec)[u] == only(
        g.len(),
        t,
    )[u] by {
        lemma_fresh_is_recorded(g, rec, u);
    }
    assert(own_stale_marks(g2, rec) =~= only(deps_of(g).len(), t));
}

} // verus!
