use vstd::prelude::*;

verus! {

/// One compilation task: the units it depends on (by index into the graph),
/// a digest of its input files and a digest of its compiler flags.
#[derive(Clone, Debug)]
pub struct Unit {
    pub deps: Vec<usize>,
    pub inputs: u64,
    pub flags: u64,
}

/// The unit DAG, stored in topological order: every unit depends only on
/// units with a smaller index.
#[derive(Clone, Debug)]
pub struct UnitGraph {
    pub units: Vec<Unit>,
}

pub open spec fn deps_of(g: Seq<Unit>) -> Seq<Seq<usize>> {
    g.map_values(|u: Unit| u.deps@)
}

/// Every dependency edge points to an earlier unit.
pub open spec fn graph_wf(d: Seq<Seq<usize>>) -> bool {
    forall|u: int, k: int| 0 <= u < d.len() && 0 <= k < d[u].len() ==> #[trigger] d[u][k] < u
}

impl UnitGraph {
    pub open spec fn wf(&self) -> bool {
        graph_wf(deps_of(self.units@))
    }
}

/// Some dependency in `deps` is marked in `marks`.
pub open spec fn any_marked(deps: Seq<usize>, marks: Seq<bool>) -> bool {
    exists|k: int| 0 <= k < deps.len() && deps[k] < marks.len() && #[trigger] marks[deps[k] as int]
}

/// The marks of the first `n` units after closing `seed` over dependency
/// edges: a unit is marked when its seed is, or when one of its dependencies
/// is marked.
pub open spec fn closure_upto(d: Seq<Seq<usize>>, seed: Seq<bool>, n: nat) -> Seq<bool>
    decreases n,
{
    if n == 0 {
        Seq::empty()
    } else {
        let p = closure_upto(d, seed, (n - 1) as nat);
        p.push(seed[n - 1] || any_marked(d[n - 1], p))
    }
}

/// Marks of all units after closing `seed` downward through the DAG.
pub open spec fn closure(d: Seq<Seq<usize>>, seed: Seq<bool>) -> Seq<bool> {
    closure_upto(d, seed, d.len())
}

/// The units that are `t` or depend on it, directly or transitively.
pub open spec fn dependents(d: Seq<Seq<usize>>, t: int) -> Seq<bool> {
    closure(d, only(d.len(), t))
}

/// `n` marks with only unit `t` marked.
pub open spec fn only(n: nat, t: int) -> Seq<bool> {
    Seq::new(n, |u: int| u == t)
}

pub proof fn lemma_closure_len(d: Seq<Seq<usize>>, seed: Seq<bool>, n: nat)
    ensures
        closure_upto(d, seed, n).len() == n,
    decreases n,
{
    if n > 0 {
        lemma_closure_len(d, seed, (n - 1) as nat);
    }
}

/// A unit's mark does not change once later units are added.
pub proof fn lemma_closure_prefix(d: Seq<Seq<usize>>, seed: Seq<bool>, n: nat, m: nat)
    requires
        n <= m,
    ensures
        closure_upto(d, seed, m).len() == m,
        closure_upto(d, seed, m).subrange(0, n as int) == closure_upto(d, seed, n),
    decreases m,
{
    lemma_closure_len(d, seed, m);
    lemma_closure_len(d, seed, n);
    if n < m {
        lemma_closure_prefix(d, seed, n, (m - 1) as nat);
        let p = closure_upto(d, seed, (m - 1) as nat);
        assert(closure_upto(d, seed, m).subrange(0, n as int) =~= p.subrange(0, n as int));
    } else {
        assert(closure_upto(d, seed, m).subrange(0, n as int) =~= closure_upto(d, seed, n));
    }
}

/// The mark of unit `u`, stated over the final marks: a unit is marked
/// exactly when its seed is or one of its dependencies is.
pub proof fn lemma_closure_step(d: Seq<Seq<usize>>, seed: Seq<bool>, u: int)
    requires
        graph_wf(d),
        0 <= u < d.len(),
    ensures
        closure(d, seed).len() == d.len(),
        closure(d, seed)[u] == (seed[u] || any_marked(d[u], closure(d, seed))),
{
    let c = closure(d, seed);
    lemma_closure_prefix(d, seed, (u + 1) as nat, d.len());
    lemma_closure_prefix(d, seed, u as nat, d.len());
    let p = closure_upto(d, seed, u as nat);
    assert(c[u] == closure_upto(d, seed, (u + 1) as nat)[u]);
    assert(any_marked(d[u], p) == any_marked(d[u], c)) by {
        if any_marked(d[u], p) {
            let k = choose|k: int|
                0 <= k < d[u].len() && d[u][k] < p.len() && #[trigger] p[d[u][k] as int];
            assert(c.subrange(0, u)[d[u][k] as int] == c[d[u][k] as int]);
        }
        if any_marked(d[u], c) {
            let k = choose|k: int|
                0 <= k < d[u].len() && d[u][k] < c.len() && #[trigger] c[d[u][k] as int];
            assert(d[u][k] < u);
            assert(c.subrange(0, u)[d[u][k] as int] == c[d[u][k] as int]);
        }
    }
}

/// Whether any entry of `deps` is marked in `marks`.
pub fn any_dep_marked(deps: &Vec<usize>, marks: &Vec<bool>) -> (r: bool)
    ensures
        r == any_marked(deps@, marks@),
{
    let mut k: usize = 0;
    while k < deps.len()
        invariant
            k <= deps@.len(),
            forall|j: int|
                0 <= j < k ==> !(deps@[j] < marks@.len() && #[trigger] marks@[deps@[j] as int]),
        decreases deps@.len() - k,
    {
        let d = deps[k];
        if d < marks.len() && marks[d] {
            return true;
        }
        k = k + 1;
    }
    false
}

/// Closes `seed` over the graph's dependency edges: the marked units are the
/// seeded ones and all units that depend on one of them.
pub fn propagate(g: &UnitGraph, seed: &Vec<bool>) -> (r: Vec<bool>)
    requires
        seed@.len() == g.units@.len(),
    ensures
        r@ == closure(deps_of(g.units@), seed@),
{
    let ghost d = deps_of(g.units@);
    let mut marks: Vec<bool> = Vec::new();
    let n = g.units.len();
    let mut u: usize = 0;
    while u < n
        invariant
            n == g.units@.len(),
            d == deps_of(g.units@),
            seed@.len() == n,
            u <= n,
            marks@ == closure_upto(d, seed@, u as nat),
        decreases n - u,
    {
        let m = seed[u] || any_dep_marked(&g.units[u].deps, &marks);
        assert(d[u as int] == g.units@[u as int].deps@);
        marks.push(m);
        u = u + 1;
    }
    assert(d.len() == n);
    marks
}

/// The units that are `t` or depend on it, directly or transitively.
pub fn dependents_of(g: &UnitGraph, t: usize) -> (r: Vec<bool>)
    ensures
        r@ == dependents(deps_of(g.units@), t as int),
{
    let mut seed: Vec<bool> = Vec::new();
    let n = g.units.len();
    let mut u: usize = 0;
    while u < n
        invariant
            n == g.units@.len(),
            u <= n,
            seed@.len() == u,
            forall|j: int| 0 <= j < u ==> seed@[j] == (j == t),
        decreases n - u,
    {
        seed.push(u == t);
        u = u + 1;
    }
    assert(seed@ =~= only(deps_of(g.units@).len(), t as int));
    propagate(g, &seed)
}

} // verus!
