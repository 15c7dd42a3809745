use vstd::prelude::*;
use crate::versions::{Version, VersionReq, req_matches, version_lt};
use crate::errors::{CargoError, CargoErrorKind};
use vstd::string::StringExecFns;
use vstd::relations::{sorted_by, total_ordering};
use vstd::seq_lib::{group_to_multiset_ensures, lemma_multiset_commutative, lemma_sorted_unique};
use vstd::multiset::group_multiset_axioms;

verus! {

/// The identity of one exact package: name, version and source, the names
/// and sources interned as numbers.
#[derive(Clone, Copy, Debug, PartialEq, Eq, Structural)]
pub struct PackageId {
    pub name: u32,
    pub version: Version,
    pub source: u32,
}

/// A declared requirement on a package of a given name and source.
#[derive(Clone, Copy, Debug, PartialEq, Eq, Structural)]
pub struct Dependency {
    pub name: u32,
    pub source: u32,
    pub req: VersionReq,
}

/// One candidate version a source offers, with its own requirements.
#[derive(Clone, Debug)]
pub struct Summary {
    pub id: PackageId,
    pub deps: Vec<Dependency>,
}

/// A requirement together with the package that declared it (`None` for
/// a root requirement).
#[derive(Clone, Copy, Debug, PartialEq, Eq, Structural)]
pub struct Requirement {
    pub parent: Option<PackageId>,
    pub dep: Dependency,
}

/// One activation decision: the package chosen, the index of its summary
/// among the candidates, and the requirement that caused it.
#[derive(Clone, Copy, Debug, PartialEq, Eq, Structural)]
pub struct Activation {
    pub id: PackageId,
    pub summary: usize,
    pub by: Requirement,
}

/// The result of a resolution: the activated packages, in activation order.
#[derive(Clone, Debug)]
pub struct Resolve {
    pub activations: Vec<Activation>,
}

/// Why a resolution failed.
#[derive(Clone, Copy, Debug, PartialEq, Eq, Structural)]
pub enum ResolveError {
    /// `req` cannot be met: either the package already activated for its
    /// name and source (`existing`, with the requirement that activated it)
    /// has a version outside `req`, or no candidate matches at all.
    Conflict { req: Requirement, existing: Option<Activation> },
    /// The search took more steps than its limit allows.
    TooComplex,
}

/// The most steps the search takes before giving up: as many as a `u64`
/// counts, so in practice memory bounds the search first.
pub const SEARCH_LIMIT: u64 = 18446744073709551615;

pub open spec fn same_key(id: PackageId, d: Dependency) -> bool {
    id.name == d.name && id.source == d.source
}

/// Index of the activation for `d`'s name and source, searching from the
/// most recent one.
pub open spec fn find_active(act: Seq<Activation>, d: Dependency) -> Option<int>
    decreases act.len(),
{
    if act.len() == 0 {
        None
    } else if same_key(act.last().id, d) {
        Some(act.len() - 1)
    } else {
        find_active(act.drop_last(), d)
    }
}

/// Summary `s` may be tried for `d`, below version `below` and skipping
/// version `skip` where those are given.
pub open spec fn eligible(s: Summary, d: Dependency, below: Option<Version>, skip: Option<Version>) -> bool {
    &&& same_key(s.id, d)
    &&& req_matches(d.req, s.id.version)
    &&& (below matches Some(b) ==> version_lt(s.id.version, b))
    &&& (skip matches Some(k) ==> s.id.version != k)
}

/// The newest eligible candidate among the first `n` (the first of equals).
pub open spec fn best_upto(
    reg: Seq<Summary>,
    d: Dependency,
    below: Option<Version>,
    skip: Option<Version>,
    n: nat,
) -> Option<int>
    decreases n,
{
    if n == 0 {
        None
    } else {
        let b = best_upto(reg, d, below, skip, (n - 1) as nat);
        let i = n - 1;
        if eligible(reg[i], d, below, skip) && (b matches Some(j) ==> version_lt(
            reg[j].id.version,
            reg[i].id.version,
        )) {
            Some(i)
        } else {
            b
        }
    }
}

pub open spec fn best(reg: Seq<Summary>, d: Dependency, below: Option<Version>, skip: Option<Version>) -> Option<int> {
    best_upto(reg, d, below, skip, reg.len())
}

pub open spec fn in_lock(lock: Seq<PackageId>, id: PackageId) -> bool {
    exists|j: int| 0 <= j < lock.len() && lock[j] == id
}

/// The first of the first `n` candidates that matches `d` and is locked.
pub open spec fn locked_upto(reg: Seq<Summary>, lock: Seq<PackageId>, d: Dependency, n: nat) -> Option<int>
    decreases n,
{
    if n == 0 {
        None
    } else {
        let b = locked_upto(reg, lock, d, (n - 1) as nat);
        if b is Some {
            b
        } else if eligible(reg[n - 1], d, None, None) && in_lock(lock, reg[n - 1].id) {
            Some(n - 1)
        } else {
            None
        }
    }
}

pub open spec fn locked_candidate(reg: Seq<Summary>, lock: Seq<PackageId>, d: Dependency) -> Option<int> {
    locked_upto(reg, lock, d, reg.len())
}

/// The requirements a summary declares, as work items.
pub open spec fn reqs_of(s: Summary) -> Seq<Requirement> {
    Seq::new(s.deps@.len(), |k: int| Requirement { parent: Some(s.id), dep: s.deps@[k] })
}

/// The backtracking search. The first pending requirement is met by the
/// package already activated for its name and source, or else by activating
/// a candidate: a locked one first, then from newest to oldest. New
/// requirements go to the front of the work list.
pub open spec fn search_spec(
    reg: Seq<Summary>,
    lock: Seq<PackageId>,
    act: Seq<Activation>,
    work: Seq<Requirement>,
    fuel: nat,
) -> Result<Seq<Activation>, ResolveError>
    decreases fuel,
{
    if fuel == 0 {
        Err(ResolveError::TooComplex)
    } else if work.len() == 0 {
        Ok(act)
    } else {
        let req = work[0];
        let rest = work.drop_first();
        match find_active(act, req.dep) {
            Some(i) => if req_matches(req.dep.req, act[i].id.version) {
                search_spec(reg, lock, act, rest, (fuel - 1) as nat)
            } else {
                Err(ResolveError::Conflict { req, existing: Some(act[i]) })
            },
            None => match locked_candidate(reg, lock, req.dep) {
                Some(li) => try_spec(
                    reg,
                    lock,
                    act,
                    rest,
                    req,
                    li,
                    None,
                    Some(reg[li].id.version),
                    (fuel - 1) as nat,
                ),
                None => match best(reg, req.dep, None, None) {
                    Some(ci) => try_spec(
                        reg,
                        lock,
                        act,
                        rest,
                        req,
                        ci,
                        Some(reg[ci].id.version),
                        None,
                        (fuel - 1) as nat,
                    ),
                    None => Err(ResolveError::Conflict { req, existing: None }),
                },
            },
        }
    }
}

/// Tries candidate `ci` for `req`; on a conflict, tries the next candidate
/// (the newest eligible below `below`, skipping `skip`), and reports the
/// last conflict when none is left.
pub open spec fn try_spec(
    reg: Seq<Summary>,
    lock: Seq<PackageId>,
    act: Seq<Activation>,
    rest: Seq<Requirement>,
    req: Requirement,
    ci: int,
    below: Option<Version>,
    skip: Option<Version>,
    fuel: nat,
) -> Result<Seq<Activation>, ResolveError>
    decreases fuel,
{
    if fuel == 0 {
        Err(ResolveError::TooComplex)
    } else {
        let s = reg[ci];
        let act2 = act.push(Activation { id: s.id, summary: ci as usize, by: req });
        match search_spec(reg, lock, act2, reqs_of(s) + rest, (fuel - 1) as nat) {
            Ok(r) => Ok(r),
            Err(ResolveError::TooComplex) => Err(ResolveError::TooComplex),
            Err(e) => match best(reg, req.dep, below, skip) {
                Some(cj) => try_spec(
                    reg,
                    lock,
                    act,
                    rest,
                    req,
                    cj,
                    Some(reg[cj].id.version),
                    skip,
                    (fuel - 1) as nat,
                ),
                None => Err(e),
            },
        }
    }
}

pub open spec fn roots_work(roots: Seq<Dependency>) -> Seq<Requirement> {
    Seq::new(roots.len(), |k: int| Requirement { parent: None, dep: roots[k] })
}

/// The outcome of resolving `roots` against the candidates `reg`,
/// preferring the versions in `lock`.
pub open spec fn resolve_spec(reg: Seq<Summary>, roots: Seq<Dependency>, lock: Seq<PackageId>) -> Result<Seq<Activation>, ResolveError> {
    search_spec(reg, lock, Seq::empty(), roots_work(roots), SEARCH_LIMIT as nat)
}

pub open spec fn result_view(r: Result<Vec<Activation>, ResolveError>) -> Result<Seq<Activation>, ResolveError> {
    match r {
        Ok(v) => Ok(v@),
        Err(e) => Err(e),
    }
}

/// What `find_active` finds: the activation for `d`'s name and source, or
/// none when no activation has them.
pub proof fn lemma_find_active(act: Seq<Activation>, d: Dependency)
    ensures
        find_active(act, d) matches Some(i) ==> 0 <= i < act.len() && same_key(act[i].id, d),
        find_active(act, d) is None ==> forall|j: int|
            0 <= j < act.len() ==> !same_key(#[trigger] act[j].id, d),
    decreases act.len(),
{
    if act.len() > 0 && !same_key(act.last().id, d) {
        lemma_find_active(act.drop_last(), d);
        if find_active(act, d) is None {
            assert forall|j: int| 0 <= j < act.len() implies !same_key(#[trigger] act[j].id, d) by {
                if j < act.len() - 1 {
                    assert(act[j] == act.drop_last()[j]);
                }
            }
        }
    }
}

fn find_active_exec(act: &Vec<Activation>, d: &Dependency) -> (r: Option<usize>)
    ensures
        match r {
            Some(i) => find_active(act@, *d) == Some(i as int),
            None => find_active(act@, *d) is None,
        },
        r matches Some(i) ==> i < act@.len(),
{
    proof {
        lemma_find_active(act@, *d);
    }
    let mut i = act.len();
    assert(act@.subrange(0, i as int) =~= act@);
    while i > 0
        invariant
            i <= act@.len(),
            find_active(act@, *d) == find_active(act@.subrange(0, i as int), *d),
        decreases i,
    {
        let a = act[i - 1];
        assert(act@.subrange(0, i as int).last() == a);
        if a.id.name == d.name && a.id.source == d.source {
            return Some(i - 1);
        }
        assert(act@.subrange(0, i as int).drop_last() =~= act@.subrange(0, i - 1));
        i = i - 1;
    }
    None
}

fn eligible_exec(s: &Summary, d: &Dependency, below: Option<Version>, skip: Option<Version>) -> (r: bool)
    ensures
        r == eligible(*s, *d, below, skip),
{
    s.id.name == d.name && s.id.source == d.source && d.req.matches(&s.id.version) && match below {
        Some(b) => s.id.version.lt(&b),
        None => true,
    } && match skip {
        Some(k) => s.id.version != k,
        None => true,
    }
}

fn best_exec(reg: &Vec<Summary>, d: &Dependency, below: Option<Version>, skip: Option<Version>) -> (r: Option<usize>)
    ensures
        match r {
            Some(i) => best(reg@, *d, below, skip) == Some(i as int),
            None => best(reg@, *d, below, skip) is None,
        },
        r matches Some(i) ==> i < reg@.len(),
{
    let mut b: Option<usize> = None;
    let mut i: usize = 0;
    while i < reg.len()
        invariant
            i <= reg@.len(),
            match b {
                Some(j) => best_upto(reg@, *d, below, skip, i as nat) == Some(j as int),
                None => best_upto(reg@, *d, below, skip, i as nat) is None,
            },
            b matches Some(j) ==> j < i,
        decreases reg@.len() - i,
    {
        if eligible_exec(&reg[i], d, below, skip) {
            let newer = match b {
                Some(j) => reg[j].id.version.lt(&reg[i].id.version),
                None => true,
            };
            if newer {
                b = Some(i);
            }
        }
        i = i + 1;
    }
    b
}

fn in_lock_exec(lock: &Vec<PackageId>, id: &PackageId) -> (r: bool)
    ensures
        r == in_lock(lock@, *id),
{
    let mut j: usize = 0;
    while j < lock.len()
        invariant
            j <= lock@.len(),
            forall|k: int| 0 <= k < j ==> lock@[k] != *id,
        decreases lock@.len() - j,
    {
        if lock[j] == *id {
            return true;
        }
        j = j + 1;
    }
    false
}

fn locked_exec(reg: &Vec<Summary>, lock: &Vec<PackageId>, d: &Dependency) -> (r: Option<usize>)
    ensures
        match r {
            Some(i) => locked_candidate(reg@, lock@, *d) == Some(i as int),
            None => locked_candidate(reg@, lock@, *d) is None,
        },
        r matches Some(i) ==> i < reg@.len(),
{
    let mut i: usize = 0;
    while i < reg.len()
        invariant
            i <= reg@.len(),
            locked_upto(reg@, lock@, *d, i as nat) is None,
        decreases reg@.len() - i,
    {
        if eligible_exec(&reg[i], d, None, None) && in_lock_exec(lock, &reg[i].id) {
            proof {
                lemma_locked_stays(reg@, lock@, *d, (i + 1) as nat, reg@.len());
            }
            return Some(i);
        }
        i = i + 1;
    }
    None
}

proof fn lemma_locked_stays(reg: Seq<Summary>, lock: Seq<PackageId>, d: Dependency, n: nat, m: nat)
    requires
        n <= m,
        locked_upto(reg, lock, d, n) is Some,
    ensures
        locked_upto(reg, lock, d, m) == locked_upto(reg, lock, d, n),
    decreases m,
{
    if n < m {
        lemma_locked_stays(reg, lock, d, n, (m - 1) as nat);
    }
}

fn copy_activations(v: &Vec<Activation>) -> (r: Vec<Activation>)
    ensures
        r@ == v@,
{
    let mut r: Vec<Activation> = Vec::new();
    let mut i: usize = 0;
    while i < v.len()
        invariant
            i <= v@.len(),
            r@ == v@.subrange(0, i as int),
        decreases v@.len() - i,
    {
        r.push(v[i]);
        i = i + 1;
        assert(r@ =~= v@.subrange(0, i as int));
    }
    assert(r@ =~= v@);
    r
}

/// The work list after activating `s`: its requirements, then `rest`.
fn extend_work(s: &Summary, work: &Vec<Requirement>, from: usize) -> (r: Vec<Requirement>)
    requires
        from <= work@.len(),
    ensures
        r@ == reqs_of(*s) + work@.subrange(from as int, work@.len() as int),
{
    let mut r: Vec<Requirement> = Vec::new();
    let mut k: usize = 0;
    while k < s.deps.len()
        invariant
            k <= s.deps@.len(),
            r@ == reqs_of(*s).subrange(0, k as int),
        decreases s.deps@.len() - k,
    {
        r.push(Requirement { parent: Some(s.id), dep: s.deps[k] });
        k = k + 1;
        assert(r@ =~= reqs_of(*s).subrange(0, k as int));
    }
    let mut j: usize = from;
    while j < work.len()
        invariant
            from <= j <= work@.len(),
            r@ == reqs_of(*s) + work@.subrange(from as int, j as int),
        decreases work@.len() - j,
    {
        r.push(work[j]);
        j = j + 1;
        assert(r@ =~= reqs_of(*s) + work@.subrange(from as int, j as int));
    }
    r
}

fn work_tail(work: &Vec<Requirement>) -> (r: Vec<Requirement>)
    requires
        work@.len() > 0,
    ensures
        r@ == work@.drop_first(),
{
    let mut r: Vec<Requirement> = Vec::new();
    let mut j: usize = 1;
    while j < work.len()
        invariant
            1 <= j <= work@.len(),
            r@ == work@.subrange(1, j as int),
        decreases work@.len() - j,
    {
        r.push(work[j]);
        j = j + 1;
        assert(r@ =~= work@.subrange(1, j as int));
    }
    assert(r@ =~= work@.drop_first());
    r
}

fn search(
    reg: &Vec<Summary>,
    lock: &Vec<PackageId>,
    act: Vec<Activation>,
    work: Vec<Requirement>,
    fuel: u64,
) -> (r: Result<Vec<Activation>, ResolveError>)
    ensures
        result_view(r) == search_spec(reg@, lock@, act@, work@, fuel as nat),
    decreases fuel,
{
    if fuel == 0 {
        return Err(ResolveError::TooComplex);
    }
    if work.len() == 0 {
        return Ok(act);
    }
    let req = work[0];
    let rest = work_tail(&work);
    match find_active_exec(&act, &req.dep) {
        Some(i) => {
            if req.dep.req.matches(&act[i].id.version) {
                search(reg, lock, act, rest, fuel - 1)
            } else {
                Err(ResolveError::Conflict { req, existing: Some(act[i]) })
            }
        },
        None => match locked_exec(reg, lock, &req.dep) {
            Some(li) => {
                let v = reg[li].id.version;
                try_candidate(reg, lock, &act, &rest, req, li, None, Some(v), fuel - 1)
            },
            None => match best_exec(reg, &req.dep, None, None) {
                Some(ci) => {
                    let v = reg[ci].id.version;
                    try_candidate(reg, lock, &act, &rest, req, ci, Some(v), None, fuel - 1)
                },
                None => Err(ResolveError::Conflict { req, existing: None }),
            },
        },
    }
}

fn try_candidate(
    reg: &Vec<Summary>,
    lock: &Vec<PackageId>,
    act: &Vec<Activation>,
    rest: &Vec<Requirement>,
    req: Requirement,
    ci: usize,
    below: Option<Version>,
    skip: Option<Version>,
    fuel: u64,
) -> (r: Result<Vec<Activation>, ResolveError>)
    requires
        ci < reg@.len(),
    ensures
        result_view(r) == try_spec(
            reg@,
            lock@,
            act@,
            rest@,
            req,
            ci as int,
            below,
            skip,
            fuel as nat,
        ),
    decreases fuel,
{
    if fuel == 0 {
        return Err(ResolveError::TooComplex);
    }
    let s = &reg[ci];
    let mut act2 = copy_activations(act);
    act2.push(Activation { id: s.id, summary: ci, by: req });
    let work2 = extend_work(s, rest, 0);
    assert(rest@.subrange(0, rest@.len() as int) =~= rest@);
    match search(reg, lock, act2, work2, fuel - 1) {
        Ok(r) => Ok(r),
        Err(ResolveError::TooComplex) => Err(ResolveError::TooComplex),
        Err(e) => match best_exec(reg, &req.dep, below, skip) {
            Some(cj) => {
                let v = reg[cj].id.version;
                try_candidate(reg, lock, act, rest, req, cj, Some(v), skip, fuel - 1)
            },
            None => Err(e),
        },
    }
}

/// Resolves `roots` against the candidates in `reg`, trying the versions in
/// `lock` before any other. The search counts its steps: after
/// `SEARCH_LIMIT` (`u64::MAX`) steps without an answer it gives up with
/// `ResolveError::TooComplex`.
pub fn resolve(reg: &Vec<Summary>, roots: &Vec<Dependency>, lock: &Vec<PackageId>) -> (r: Result<Resolve, ResolveError>)
    ensures
        match r {
            Ok(res) => resolve_spec(reg@, roots@, lock@) == Ok::<Seq<Activation>, ResolveError>(
                res.activations@,
            ),
            Err(e) => resolve_spec(reg@, roots@, lock@) == Err::<Seq<Activation>, ResolveError>(e),
        },
        r matches Ok(res) ==> valid_resolve(reg@, roots@, res.activations@),
        r matches Err(e) ==> names_both(e),
{
    let mut work: Vec<Requirement> = Vec::new();
    let mut k: usize = 0;
    while k < roots.len()
        invariant
            k <= roots@.len(),
            work@ == roots_work(roots@).subrange(0, k as int),
        decreases roots@.len() - k,
    {
        work.push(Requirement { parent: None, dep: roots[k] });
        k = k + 1;
        assert(work@ =~= roots_work(roots@).subrange(0, k as int));
    }
    assert(work@ =~= roots_work(roots@));
    let out = search(reg, lock, Vec::new(), work, SEARCH_LIMIT);
    let n_candidates = reg.len();
    proof {
        assert(reg@.len() == n_candidates);
        if out is Ok {
            lemma_resolve_satisfies(reg@, roots@, lock@, out->Ok_0@);
        } else {
            lemma_conflict_names_both(reg@, roots@, lock@, out->Err_0);
        }
    }
    match out {
        Ok(activations) => Ok(Resolve { activations }),
        Err(e) => Err(e),
    }
}

/// Some activation has `d`'s name and source and a version `d` accepts.
pub open spec fn satisfied(act: Seq<Activation>, d: Dependency) -> bool {
    exists|i: int|
        0 <= i < act.len() && same_key(#[trigger] act[i].id, d) && req_matches(d.req, act[i].id.version)
}

/// At most one activation per name and source.
pub open spec fn keys_unique(act: Seq<Activation>) -> bool {
    forall|i: int, j: int|
        0 <= i < act.len() && 0 <= j < act.len() && i != j ==> !(#[trigger] act[i].id.name
            == #[trigger] act[j].id.name && act[i].id.source == act[j].id.source)
}

/// Every activation names a candidate summary with its own identity.
pub open spec fn from_candidates(reg: Seq<Summary>, act: Seq<Activation>) -> bool {
    forall|i: int|
        0 <= i < act.len() ==> #[trigger] act[i].summary < reg.len() && reg[act[i].summary as int].id
            == act[i].id
}

/// The requirements an activation declares.
pub open spec fn edges(reg: Seq<Summary>, a: Activation) -> Seq<Dependency> {
    reg[a.summary as int].deps@
}

pub open spec fn met_or_pending(act: Seq<Activation>, work: Seq<Requirement>, d: Dependency) -> bool {
    satisfied(act, d) || exists|j: int| 0 <= j < work.len() && (#[trigger] work[j]).dep == d
}

/// The search's invariant: every requirement of the roots and of every
/// activated package is met, or still waits in the work list.
pub open spec fn search_inv(
    reg: Seq<Summary>,
    roots: Seq<Dependency>,
    act: Seq<Activation>,
    work: Seq<Requirement>,
) -> bool {
    &&& keys_unique(act)
    &&& from_candidates(reg, act)
    &&& forall|i: int, k: int|
        0 <= i < act.len() && 0 <= k < edges(reg, act[i]).len() ==> met_or_pending(
            act,
            work,
            #[trigger] edges(reg, act[i])[k],
        )
    &&& forall|k: int| 0 <= k < roots.len() ==> met_or_pending(act, work, #[trigger] roots[k])
}

/// A resolution of `roots`: one package per name and source, each one a
/// candidate, and every root requirement and every requirement of an
/// activated package met.
pub open spec fn valid_resolve(reg: Seq<Summary>, roots: Seq<Dependency>, r: Seq<Activation>) -> bool {
    &&& keys_unique(r)
    &&& from_candidates(reg, r)
    &&& forall|i: int, k: int|
        0 <= i < r.len() && 0 <= k < edges(reg, r[i]).len() ==> satisfied(
            r,
            #[trigger] edges(reg, r[i])[k],
        )
    &&& forall|k: int| 0 <= k < roots.len() ==> satisfied(r, #[trigger] roots[k])
}

proof fn lemma_best(reg: Seq<Summary>, d: Dependency, below: Option<Version>, skip: Option<Version>, n: nat)
    requires
        n <= reg.len(),
    ensures
        best_upto(reg, d, below, skip, n) matches Some(i) ==> 0 <= i < n && eligible(
            reg[i],
            d,
            below,
            skip,
        ),
    decreases n,
{
    if n > 0 {
        lemma_best(reg, d, below, skip, (n - 1) as nat);
    }
}

proof fn lemma_locked(reg: Seq<Summary>, lock: Seq<PackageId>, d: Dependency, n: nat)
    requires
        n <= reg.len(),
    ensures
        locked_upto(reg, lock, d, n) matches Some(i) ==> 0 <= i < n && eligible(
            reg[i],
            d,
            None,
            None,
        ) && in_lock(lock, reg[i].id),
    decreases n,
{
    if n > 0 {
        lemma_locked(reg, lock, d, (n - 1) as nat);
    }
}

/// Meeting the first pending requirement and replacing it by `pre` keeps
/// every requirement met or pending, as long as earlier activations stay.
proof fn lemma_transfer(
    act: Seq<Activation>,
    work: Seq<Requirement>,
    act2: Seq<Activation>,
    pre: Seq<Requirement>,
    d: Dependency,
)
    requires
        work.len() > 0,
        act.len() <= act2.len(),
        act2.subrange(0, act.len() as int) == act,
        satisfied(act2, work[0].dep),
        met_or_pending(act, work, d),
    ensures
        met_or_pending(act2, pre + work.drop_first(), d),
{
    let work2 = pre + work.drop_first();
    if satisfied(act, d) {
        let i = choose|i: int|
            0 <= i < act.len() && same_key(#[trigger] act[i].id, d) && req_matches(d.req, act[i].id.version);
        assert(act2[i] == act2.subrange(0, act.len() as int)[i]);
        assert(same_key(act2[i].id, d));
    } else {
        let j = choose|j: int| 0 <= j < work.len() && (#[trigger] work[j]).dep == d;
        if j > 0 {
            assert(work2[pre.len() + j - 1] == work[j]);
        }
    }
}

proof fn lemma_search_sound(
    reg: Seq<Summary>,
    roots: Seq<Dependency>,
    lock: Seq<PackageId>,
    act: Seq<Activation>,
    work: Seq<Requirement>,
    fuel: nat,
)
    requires
        search_inv(reg, roots, act, work),
        reg.len() <= usize::MAX,
    ensures
        search_spec(reg, lock, act, work, fuel) matches Ok(r) ==> valid_resolve(reg, roots, r),
    decreases fuel,
{
    if fuel == 0 {
    } else if work.len() == 0 {
    } else {
        let req = work[0];
        let rest = work.drop_first();
        lemma_find_active(act, req.dep);
        assert(rest =~= Seq::<Requirement>::empty() + rest);
        match find_active(act, req.dep) {
            Some(i) => {
                if req_matches(req.dep.req, act[i].id.version) {
                    assert(satisfied(act, req.dep));
                    assert(act.subrange(0, act.len() as int) =~= act);
                    assert forall|i: int, k: int|
                        0 <= i < act.len() && 0 <= k < edges(reg, act[i]).len() implies met_or_pending(
                        act,
                        rest,
                        #[trigger] edges(reg, act[i])[k],
                    ) by {
                        lemma_transfer(act, work, act, Seq::empty(), edges(reg, act[i])[k]);
                    }
                    assert forall|k: int| 0 <= k < roots.len() implies met_or_pending(
                        act,
                        rest,
                        #[trigger] roots[k],
                    ) by {
                        lemma_transfer(act, work, act, Seq::empty(), roots[k]);
                    }
                    lemma_search_sound(reg, roots, lock, act, rest, (fuel - 1) as nat);
                }
            },
            None => {
                lemma_locked(reg, lock, req.dep, reg.len());
                lemma_best(reg, req.dep, None, None, reg.len());
                match locked_candidate(reg, lock, req.dep) {
                    Some(li) => {
                        lemma_try_sound(
                            reg,
                            roots,
                            lock,
                            act,
                            work,
                            li,
                            None,
                            Some(reg[li].id.version),
                            (fuel - 1) as nat,
                        );
                    },
                    None => match best(reg, req.dep, None, None) {
                        Some(ci) => {
                            lemma_try_sound(
                                reg,
                                roots,
                                lock,
                                act,
                                work,
                                ci,
                                Some(reg[ci].id.version),
                                None,
                                (fuel - 1) as nat,
                            );
                        },
                        None => {},
                    },
                }
            },
        }
    }
}

proof fn lemma_try_sound(
    reg: Seq<Summary>,
    roots: Seq<Dependency>,
    lock: Seq<PackageId>,
    act: Seq<Activation>,
    work: Seq<Requirement>,
    ci: int,
    below: Option<Version>,
    skip: Option<Version>,
    fuel: nat,
)
    requires
        search_inv(reg, roots, act, work),
        reg.len() <= usize::MAX,
        work.len() > 0,
        find_active(act, work[0].dep) is None,
        0 <= ci < reg.len(),
        eligible(reg[ci], work[0].dep, None, None),
    ensures
        try_spec(reg, lock, act, work.drop_first(), work[0], ci, below, skip, fuel) matches Ok(r)
            ==> valid_resolve(reg, roots, r),
    decreases fuel,
{
    if fuel > 0 {
        let req = work[0];
        let rest = work.drop_first();
        let s = reg[ci];
        let a = Activation { id: s.id, summary: ci as usize, by: req };
        let act2 = act.push(a);
        let work2 = reqs_of(s) + rest;
        lemma_find_active(act, req.dep);
        assert(act2[act.len() as int] == a);
        assert(same_key(act2[act.len() as int].id, req.dep));
        assert(satisfied(act2, req.dep));
        assert(act2.subrange(0, act.len() as int) =~= act);
        assert(keys_unique(act2)) by {
            assert forall|i: int, j: int|
                0 <= i < act2.len() && 0 <= j < act2.len() && i != j implies !(
                #[trigger] act2[i].id.name == #[trigger] act2[j].id.name && act2[i].id.source
                    == act2[j].id.source) by {
                if i < act.len() && j < act.len() {
                    assert(act2[i] == act[i] && act2[j] == act[j]);
                } else if i < act.len() {
                    assert(act2[i] == act[i]);
                    assert(!same_key(act[i].id, req.dep));
                } else {
                    assert(act2[j] == act[j]);
                    assert(!same_key(act[j].id, req.dep));
                }
            }
        }
        assert(from_candidates(reg, act2)) by {
            assert forall|i: int| 0 <= i < act2.len() implies #[trigger] act2[i].summary < reg.len()
                && reg[act2[i].summary as int].id == act2[i].id by {
                if i < act.len() {
                    assert(act2[i] == act[i]);
                }
            }
        }
        assert forall|i: int, k: int|
            0 <= i < act2.len() && 0 <= k < edges(reg, act2[i]).len() implies met_or_pending(
            act2,
            work2,
            #[trigger] edges(reg, act2[i])[k],
        ) by {
            if i < act.len() {
                assert(act2[i] == act[i]);
                lemma_transfer(act, work, act2, reqs_of(s), edges(reg, act[i])[k]);
            } else {
                assert(work2[k] == reqs_of(s)[k]);
            }
        }
        assert forall|k: int| 0 <= k < roots.len() implies met_or_pending(
            act2,
            work2,
            #[trigger] roots[k],
        ) by {
            lemma_transfer(act, work, act2, reqs_of(s), roots[k]);
        }
        lemma_search_sound(reg, roots, lock, act2, work2, (fuel - 1) as nat);
        lemma_best(reg, req.dep, below, skip, reg.len());
        match best(reg, req.dep, below, skip) {
            Some(cj) => {
                lemma_try_sound(
                    reg,
                    roots,
                    lock,
                    act,
                    work,
                    cj,
                    Some(reg[cj].id.version),
                    skip,
                    (fuel - 1) as nat,
                );
            },
            None => {},
        }
    }
}

/// Every requirement in a resolution is met: each root requirement and each
/// edge of an activated package has its target (the one activation with the
/// required name and source) at a version the requirement accepts.
pub proof fn lemma_resolve_satisfies(
    reg: Seq<Summary>,
    roots: Seq<Dependency>,
    lock: Seq<PackageId>,
    r: Seq<Activation>,
)
    requires
        reg.len() <= usize::MAX,
        resolve_spec(reg, roots, lock) == Ok::<Seq<Activation>, ResolveError>(r),
    ensures
        valid_resolve(reg, roots, r),
        forall|i: int, k: int, j: int|
            0 <= i < r.len() && 0 <= k < edges(reg, r[i]).len() && 0 <= j < r.len() && same_key(
                #[trigger] r[j].id,
                #[trigger] edges(reg, r[i])[k],
            ) ==> req_matches(edges(reg, r[i])[k].req, r[j].id.version),
{
    let work = roots_work(roots);
    assert forall|k: int| 0 <= k < roots.len() implies met_or_pending(
        Seq::empty(),
        work,
        #[trigger] roots[k],
    ) by {
        assert(work[k].dep == roots[k]);
    }
    lemma_search_sound(reg, roots, lock, Seq::empty(), work, SEARCH_LIMIT as nat);
    assert forall|i: int, k: int, j: int|
        0 <= i < r.len() && 0 <= k < edges(reg, r[i]).len() && 0 <= j < r.len() && same_key(
            #[trigger] r[j].id,
            #[trigger] edges(reg, r[i])[k],
        ) implies req_matches(edges(reg, r[i])[k].req, r[j].id.version) by {
        let d = edges(reg, r[i])[k];
        assert(satisfied(r, d));
        let w = choose|w: int| 0 <= w < r.len() && same_key(#[trigger] r[w].id, d) && req_matches(d.req, r[w].id.version);
        if w != j {
            assert(!(r[w].id.name == r[j].id.name && r[w].id.source == r[j].id.source));
        }
    }
}

/// The order of lockfile entries: by name, then version, then source.
pub open spec fn id_lt(a: PackageId, b: PackageId) -> bool {
    a.name < b.name || (a.name == b.name && (version_lt(a.version, b.version) || (a.version
        == b.version && a.source < b.source)))
}

/// `s` with `x` inserted before the first entry that sorts after it.
pub open spec fn insert_sorted(s: Seq<PackageId>, x: PackageId) -> Seq<PackageId>
    decreases s.len(),
{
    if s.len() == 0 || id_lt(x, s[0]) {
        seq![x] + s
    } else {
        seq![s[0]] + insert_sorted(s.drop_first(), x)
    }
}

/// The entries of `s`, sorted by insertion.
pub open spec fn sort_ids(s: Seq<PackageId>) -> Seq<PackageId>
    decreases s.len(),
{
    if s.len() == 0 {
        s
    } else {
        insert_sorted(sort_ids(s.drop_last()), s.last())
    }
}

pub open spec fn ids_of(act: Seq<Activation>) -> Seq<PackageId> {
    act.map_values(|a: Activation| a.id)
}

/// The lockfile of a resolution: its package identities, sorted.
pub open spec fn lockfile_of(act: Seq<Activation>) -> Seq<PackageId> {
    sort_ids(ids_of(act))
}

proof fn lemma_insert_at(s: Seq<PackageId>, x: PackageId, p: int)
    requires
        0 <= p <= s.len(),
        forall|j: int| 0 <= j < p ==> !id_lt(x, #[trigger] s[j]),
        p == s.len() || id_lt(x, s[p]),
    ensures
        insert_sorted(s, x) == s.insert(p, x),
    decreases p,
{
    if p == 0 {
        assert(seq![x] + s =~= s.insert(0, x));
    } else {
        assert forall|j: int| 0 <= j < p - 1 implies !id_lt(x, #[trigger] s.drop_first()[j]) by {
            assert(s.drop_first()[j] == s[j + 1]);
        }
        if p < s.len() {
            assert(s.drop_first()[p - 1] == s[p]);
        }
        lemma_insert_at(s.drop_first(), x, p - 1);
        assert(seq![s[0]] + s.drop_first().insert(p - 1, x) =~= s.insert(p, x));
    }
}

impl PackageId {
    fn lt(&self, other: &PackageId) -> (r: bool)
        ensures
            r == id_lt(*self, *other),
    {
        self.name < other.name || (self.name == other.name && (self.version.lt(&other.version) || (
        self.version == other.version && self.source < other.source)))
    }
}

impl Resolve {
    /// The lockfile: every activated package's identity, sorted by name,
    /// then version, then source.
    pub fn lockfile(&self) -> (r: Vec<PackageId>)
        ensures
            r@ == lockfile_of(self.activations@),
    {
        let ghost ids = ids_of(self.activations@);
        let mut out: Vec<PackageId> = Vec::new();
        let mut i: usize = 0;
        while i < self.activations.len()
            invariant
                i <= self.activations@.len(),
                ids == ids_of(self.activations@),
                out@ == sort_ids(ids.subrange(0, i as int)),
            decreases self.activations@.len() - i,
        {
            let x = self.activations[i].id;
            let mut p: usize = 0;
            while p < out.len() && !x.lt(&out[p])
                invariant
                    p <= out@.len(),
                    forall|j: int| 0 <= j < p ==> !id_lt(x, #[trigger] out@[j]),
                decreases out@.len() - p,
            {
                p = p + 1;
            }
            proof {
                lemma_insert_at(out@, x, p as int);
                assert(ids.subrange(0, i + 1).drop_last() =~= ids.subrange(0, i as int));
                assert(ids.subrange(0, i + 1).last() == x);
            }
            out.insert(p, x);
            i = i + 1;
        }
        assert(ids.subrange(0, i as int) =~= ids);
        out
    }
}

/// Resolution is deterministic: two resolutions of the same requirements
/// against the same candidates and lock yield the same lockfile.
pub proof fn lemma_resolve_deterministic(
    reg: Seq<Summary>,
    roots: Seq<Dependency>,
    lock: Seq<PackageId>,
    r1: Seq<Activation>,
    r2: Seq<Activation>,
)
    requires
        resolve_spec(reg, roots, lock) == Ok::<Seq<Activation>, ResolveError>(r1),
        resolve_spec(reg, roots, lock) == Ok::<Seq<Activation>, ResolveError>(r2),
    ensures
        lockfile_of(r1) == lockfile_of(r2),
{
}

/// No two candidates share an identity.
pub open spec fn ids_unique(reg: Seq<Summary>) -> bool {
    forall|i: int, j: int|
        0 <= i < reg.len() && 0 <= j < reg.len() && i != j ==> #[trigger] reg[i].id != #[trigger] reg[j].id
}

pub open spec fn activated(r: Seq<Activation>, id: PackageId) -> bool {
    exists|j: int| 0 <= j < r.len() && #[trigger] r[j].id == id
}

proof fn lemma_locked_found(reg: Seq<Summary>, lock: Seq<PackageId>, d: Dependency, n: nat, s: int)
    requires
        0 <= s < n <= reg.len(),
        eligible(reg[s], d, None, None),
        in_lock(lock, reg[s].id),
    ensures
        locked_upto(reg, lock, d, n) is Some,
    decreases n,
{
    if s < n - 1 {
        lemma_locked_found(reg, lock, d, (n - 1) as nat, s);
    }
}

/// The activation of `r0` for `d`'s name and source, which `r0` must have.
proof fn lemma_lock_target(reg: Seq<Summary>, roots: Seq<Dependency>, r0: Seq<Activation>, d: Dependency) -> (w: int)
    requires
        valid_resolve(reg, roots, r0),
        satisfied(r0, d),
    ensures
        0 <= w < r0.len(),
        same_key(r0[w].id, d),
        req_matches(d.req, r0[w].id.version),
        forall|j: int| 0 <= j < r0.len() && same_key(#[trigger] r0[j].id, d) ==> j == w,
{
    let w = choose|w: int|
        0 <= w < r0.len() && same_key(#[trigger] r0[w].id, d) && req_matches(d.req, r0[w].id.version);
    assert forall|j: int| 0 <= j < r0.len() && same_key(#[trigger] r0[j].id, d) implies j == w by {
        if j != w {
            assert(!(r0[j].id.name == r0[w].id.name && r0[j].id.source == r0[w].id.source));
        }
    }
    w
}

/// With a lock holding the packages of a resolution `r0`, and work whose
/// requirements `r0` meets, the search only activates packages of `r0`
/// and succeeds unless it runs out of steps.
proof fn lemma_lock_search(
    reg: Seq<Summary>,
    roots: Seq<Dependency>,
    r0: Seq<Activation>,
    act: Seq<Activation>,
    work: Seq<Requirement>,
    fuel: nat,
)
    requires
        reg.len() <= usize::MAX,
        ids_unique(reg),
        valid_resolve(reg, roots, r0),
        forall|i: int| 0 <= i < act.len() ==> activated(r0, #[trigger] act[i].id),
        forall|k: int| 0 <= k < work.len() ==> satisfied(r0, (#[trigger] work[k]).dep),
        search_spec(reg, ids_of(r0), act, work, fuel) != Err::<Seq<Activation>, ResolveError>(
            ResolveError::TooComplex,
        ),
    ensures
        search_spec(reg, ids_of(r0), act, work, fuel) is Ok,
        search_spec(reg, ids_of(r0), act, work, fuel) matches Ok(r) ==> forall|i: int|
            0 <= i < r.len() ==> activated(r0, #[trigger] r[i].id),
    decreases fuel,
{
    let lock = ids_of(r0);
    if fuel > 0 && work.len() > 0 {
        let req = work[0];
        let d = req.dep;
        let rest = work.drop_first();
        assert(satisfied(r0, work[0].dep));
        let w = lemma_lock_target(reg, roots, r0, d);
        lemma_find_active(act, d);
        assert forall|k: int| 0 <= k < rest.len() implies satisfied(r0, (#[trigger] rest[k]).dep) by {
            assert(rest[k] == work[k + 1]);
        }
        match find_active(act, d) {
            Some(i) => {
                assert(activated(r0, act[i].id));
                let j = choose|j: int| 0 <= j < r0.len() && #[trigger] r0[j].id == act[i].id;
                assert(same_key(r0[j].id, d));
                lemma_lock_search(reg, roots, r0, act, rest, (fuel - 1) as nat);
            },
            None => {
                let sw = r0[w].summary as int;
                assert(lock[w] == r0[w].id);
                lemma_locked_found(reg, lock, d, reg.len(), sw);
                lemma_locked(reg, lock, d, reg.len());
                let ci = locked_candidate(reg, lock, d)->Some_0;
                let j = choose|j: int| 0 <= j < lock.len() && lock[j] == reg[ci].id;
                assert(r0[j].id == reg[ci].id);
                assert(same_key(r0[j].id, d));
                assert(ci == sw);
                lemma_lock_try(reg, roots, r0, act, rest, req, ci, (fuel - 1) as nat);
            },
        }
    }
}

proof fn lemma_lock_try(
    reg: Seq<Summary>,
    roots: Seq<Dependency>,
    r0: Seq<Activation>,
    act: Seq<Activation>,
    rest: Seq<Requirement>,
    req: Requirement,
    ci: int,
    fuel: nat,
)
    requires
        reg.len() <= usize::MAX,
        ids_unique(reg),
        valid_resolve(reg, roots, r0),
        0 <= ci < reg.len(),
        exists|w: int| 0 <= w < r0.len() && #[trigger] r0[w].summary == ci,
        forall|i: int| 0 <= i < act.len() ==> activated(r0, #[trigger] act[i].id),
        forall|k: int| 0 <= k < rest.len() ==> satisfied(r0, (#[trigger] rest[k]).dep),
        try_spec(reg, ids_of(r0), act, rest, req, ci, None, Some(reg[ci].id.version), fuel)
            != Err::<Seq<Activation>, ResolveError>(ResolveError::TooComplex),
    ensures
        try_spec(reg, ids_of(r0), act, rest, req, ci, None, Some(reg[ci].id.version), fuel) is Ok,
        try_spec(reg, ids_of(r0), act, rest, req, ci, None, Some(reg[ci].id.version), fuel) matches Ok(
            r,
        ) ==> forall|i: int| 0 <= i < r.len() ==> activated(r0, #[trigger] r[i].id),
    decreases fuel,
{
    let w = choose|w: int| 0 <= w < r0.len() && #[trigger] r0[w].summary == ci;
    let s = reg[ci];
    let act2 = act.push(Activation { id: s.id, summary: ci as usize, by: req });
    let work2 = reqs_of(s) + rest;
    assert(from_candidates(reg, r0));
    assert(r0[w].summary < reg.len() && reg[r0[w].summary as int].id == r0[w].id);
    assert forall|i: int| 0 <= i < act2.len() implies activated(r0, #[trigger] act2[i].id) by {
        if i < act.len() {
            assert(act2[i] == act[i]);
        } else {
            assert(r0[w].id == act2[i].id);
        }
    }
    assert forall|k: int| 0 <= k < work2.len() implies satisfied(r0, (#[trigger] work2[k]).dep) by {
        if k < reqs_of(s).len() {
            assert(work2[k].dep == edges(reg, r0[w])[k]);
        } else {
            assert(work2[k] == rest[k - reqs_of(s).len()]);
        }
    }
    if fuel > 0 {
        lemma_lock_search(reg, roots, r0, act2, work2, (fuel - 1) as nat);
    }
}

/// A lock taken from a resolution is kept: resolving the same roots with a
/// lock that holds the packages of a grounded resolution `r0` succeeds
/// (unless the search runs out of steps) and activates exactly the locked
/// packages, whatever newer candidates have appeared.
pub proof fn lemma_lock_is_kept(reg: Seq<Summary>, roots: Seq<Dependency>, r0: Seq<Activation>)
    requires
        reg.len() <= usize::MAX,
        ids_unique(reg),
        valid_resolve(reg, roots, r0),
        grounded(reg, roots, r0),
        resolve_spec(reg, roots, ids_of(r0)) != Err::<Seq<Activation>, ResolveError>(
            ResolveError::TooComplex,
        ),
    ensures
        resolve_spec(reg, roots, ids_of(r0)) is Ok,
        resolve_spec(reg, roots, ids_of(r0)) matches Ok(r) ==> (forall|i: int|
            0 <= i < r.len() ==> activated(r0, #[trigger] r[i].id)) && (forall|i: int|
            0 <= i < r0.len() ==> activated(r, #[trigger] r0[i].id)),
{
    let work = roots_work(roots);
    assert forall|k: int| 0 <= k < work.len() implies satisfied(r0, (#[trigger] work[k]).dep) by {
        assert(work[k].dep == roots[k]);
    }
    lemma_lock_search(reg, roots, r0, Seq::empty(), work, SEARCH_LIMIT as nat);
    let r = resolve_spec(reg, roots, ids_of(r0))->Ok_0;
    lemma_resolve_satisfies(reg, roots, ids_of(r0), r);
    assert forall|i: int| 0 <= i < r0.len() implies activated(r, #[trigger] r0[i].id) by {
        lemma_grounded_in(reg, roots, r0, r, i);
    }
}

proof fn lemma_grounded_in(reg: Seq<Summary>, roots: Seq<Dependency>, r0: Seq<Activation>, r: Seq<Activation>, i: int)
    requires
        ids_unique(reg),
        valid_resolve(reg, roots, r),
        valid_resolve(reg, roots, r0),
        grounded(reg, roots, r0),
        forall|x: int| 0 <= x < r.len() ==> activated(r0, #[trigger] r[x].id),
        0 <= i < r0.len(),
    ensures
        activated(r, r0[i].id),
    decreases i,
{
    let q = r0[i].by;
    assert(same_key(r0[i].id, q.dep));
    match q.parent {
        None => {
            let k = choose|k: int| 0 <= k < roots.len() && #[trigger] roots[k] == q.dep;
            assert(satisfied(r, roots[k]));
        },
        Some(p) => {
            let j = choose|j: int| 0 <= j < i && #[trigger] r0[j].id == p && declares(reg, r0, j, q.dep);
            let k = choose|k: int| 0 <= k < edges(reg, r0[j]).len() && #[trigger] edges(reg, r0[j])[k] == q.dep;
            lemma_grounded_in(reg, roots, r0, r, j);
            let m = choose|m: int| 0 <= m < r.len() && #[trigger] r[m].id == r0[j].id;
            assert(r[m].summary < reg.len() && reg[r[m].summary as int].id == r[m].id);
            assert(r0[j].summary < reg.len() && reg[r0[j].summary as int].id == r0[j].id);
            assert(r[m].summary == r0[j].summary);
            assert(edges(reg, r[m])[k] == q.dep);
            assert(satisfied(r, edges(reg, r[m])[k]));
        },
    }
    assert(satisfied(r, q.dep));
    let x = choose|x: int| 0 <= x < r.len() && same_key(#[trigger] r[x].id, q.dep) && req_matches(q.dep.req, r[x].id.version);
    assert(activated(r0, r[x].id));
    let y = choose|y: int| 0 <= y < r0.len() && #[trigger] r0[y].id == r[x].id;
    if y != i {
        assert(!(r0[y].id.name == r0[i].id.name && r0[y].id.source == r0[i].id.source));
    }
}

/// Resolving again with the lockfile of an earlier resolution, with the
/// same roots, activates exactly the packages that lockfile holds and so
/// reproduces the lockfile (unless the search runs out of steps), even where
/// newer candidates match.
pub proof fn lemma_relock_reproduces(
    reg: Seq<Summary>,
    roots: Seq<Dependency>,
    lock: Seq<PackageId>,
    r0: Seq<Activation>,
)
    requires
        reg.len() <= usize::MAX,
        ids_unique(reg),
        resolve_spec(reg, roots, lock) == Ok::<Seq<Activation>, ResolveError>(r0),
        resolve_spec(reg, roots, ids_of(r0)) != Err::<Seq<Activation>, ResolveError>(
            ResolveError::TooComplex,
        ),
    ensures
        resolve_spec(reg, roots, ids_of(r0)) is Ok,
        resolve_spec(reg, roots, ids_of(r0)) matches Ok(r) ==> (forall|id: PackageId|
            activated(r, id) <==> activated(r0, id)) && lockfile_of(r) == lockfile_of(r0),
{
    lemma_resolve_satisfies(reg, roots, lock, r0);
    lemma_resolve_grounded(reg, roots, lock, r0);
    lemma_lock_is_kept(reg, roots, r0);
    let r = resolve_spec(reg, roots, ids_of(r0))->Ok_0;
    assert forall|id: PackageId| activated(r, id) <==> activated(r0, id) by {
        if activated(r, id) {
            let j = choose|j: int| 0 <= j < r.len() && #[trigger] r[j].id == id;
        }
        if activated(r0, id) {
            let j = choose|j: int| 0 <= j < r0.len() && #[trigger] r0[j].id == id;
        }
    }
    lemma_resolve_satisfies(reg, roots, ids_of(r0), r);
    lemma_same_packages_same_lockfile(r, r0);
}

/// Activation `j` of `r` declares requirement `d`.
pub open spec fn declares(reg: Seq<Summary>, r: Seq<Activation>, j: int, d: Dependency) -> bool {
    exists|k: int| 0 <= k < edges(reg, r[j]).len() && #[trigger] edges(reg, r[j])[k] == d
}

/// Requirement `q` comes from the roots, or from an activation before `i`.
pub open spec fn justified_before(
    reg: Seq<Summary>,
    roots: Seq<Dependency>,
    r: Seq<Activation>,
    q: Requirement,
    i: int,
) -> bool {
    match q.parent {
        None => exists|k: int| 0 <= k < roots.len() && #[trigger] roots[k] == q.dep,
        Some(p) => exists|j: int| 0 <= j < i && #[trigger] r[j].id == p && declares(reg, r, j, q.dep),
    }
}

/// Every activation was made for a requirement on its name and source that
/// comes from the roots or from an earlier activation.
pub open spec fn grounded(reg: Seq<Summary>, roots: Seq<Dependency>, r: Seq<Activation>) -> bool {
    forall|i: int|
        0 <= i < r.len() ==> same_key(#[trigger] r[i].id, r[i].by.dep) && justified_before(
            reg,
            roots,
            r,
            r[i].by,
            i,
        )
}

pub open spec fn work_grounded(
    reg: Seq<Summary>,
    roots: Seq<Dependency>,
    act: Seq<Activation>,
    work: Seq<Requirement>,
) -> bool {
    forall|k: int| 0 <= k < work.len() ==> justified_before(reg, roots, act, #[trigger] work[k], act.len() as int)
}

proof fn lemma_justified_grows(
    reg: Seq<Summary>,
    roots: Seq<Dependency>,
    act: Seq<Activation>,
    act2: Seq<Activation>,
    q: Requirement,
    i: int,
    i2: int,
)
    requires
        0 <= i <= i2,
        i <= act.len(),
        act.len() <= act2.len(),
        act2.subrange(0, act.len() as int) == act,
        justified_before(reg, roots, act, q, i),
    ensures
        justified_before(reg, roots, act2, q, i2),
{
    if let Some(p) = q.parent {
        let j = choose|j: int| 0 <= j < i && #[trigger] act[j].id == p && declares(reg, act, j, q.dep);
        assert(act2[j] == act2.subrange(0, act.len() as int)[j]);
        let k = choose|k: int| 0 <= k < edges(reg, act[j]).len() && #[trigger] edges(reg, act[j])[k] == q.dep;
        assert(edges(reg, act2[j])[k] == q.dep);
    }
}

proof fn lemma_search_grounded(
    reg: Seq<Summary>,
    roots: Seq<Dependency>,
    lock: Seq<PackageId>,
    act: Seq<Activation>,
    work: Seq<Requirement>,
    fuel: nat,
)
    requires
        grounded(reg, roots, act),
        work_grounded(reg, roots, act, work),
        reg.len() <= usize::MAX,
    ensures
        search_spec(reg, lock, act, work, fuel) matches Ok(r) ==> grounded(reg, roots, r),
    decreases fuel,
{
    if fuel > 0 && work.len() > 0 {
        let req = work[0];
        let rest = work.drop_first();
        assert(justified_before(reg, roots, act, work[0], act.len() as int));
        assert forall|k: int| 0 <= k < rest.len() implies justified_before(
            reg,
            roots,
            act,
            #[trigger] rest[k],
            act.len() as int,
        ) by {
            assert(rest[k] == work[k + 1]);
        }
        lemma_locked(reg, lock, req.dep, reg.len());
        lemma_best(reg, req.dep, None, None, reg.len());
        match find_active(act, req.dep) {
            Some(i) => {
                lemma_search_grounded(reg, roots, lock, act, rest, (fuel - 1) as nat);
            },
            None => match locked_candidate(reg, lock, req.dep) {
                Some(li) => {
                    lemma_try_grounded(
                        reg,
                        roots,
                        lock,
                        act,
                        rest,
                        req,
                        li,
                        None,
                        Some(reg[li].id.version),
                        (fuel - 1) as nat,
                    );
                },
                None => match best(reg, req.dep, None, None) {
                    Some(ci) => {
                        lemma_try_grounded(
                            reg,
                            roots,
                            lock,
                            act,
                            rest,
                            req,
                            ci,
                            Some(reg[ci].id.version),
                            None,
                            (fuel - 1) as nat,
                        );
                    },
                    None => {},
                },
            },
        }
    }
}

proof fn lemma_try_grounded(
    reg: Seq<Summary>,
    roots: Seq<Dependency>,
    lock: Seq<PackageId>,
    act: Seq<Activation>,
    rest: Seq<Requirement>,
    req: Requirement,
    ci: int,
    below: Option<Version>,
    skip: Option<Version>,
    fuel: nat,
)
    requires
        grounded(reg, roots, act),
        work_grounded(reg, roots, act, rest),
        justified_before(reg, roots, act, req, act.len() as int),
        0 <= ci < reg.len(),
        reg.len() <= usize::MAX,
        eligible(reg[ci], req.dep, None, None),
    ensures
        try_spec(reg, lock, act, rest, req, ci, below, skip, fuel) matches Ok(r) ==> grounded(
            reg,
            roots,
            r,
        ),
    decreases fuel,
{
    if fuel > 0 {
        let s = reg[ci];
        let a = Activation { id: s.id, summary: ci as usize, by: req };
        let act2 = act.push(a);
        let work2 = reqs_of(s) + rest;
        let n = act.len() as int;
        assert(act2.subrange(0, n) =~= act);
        assert forall|i: int| 0 <= i < act2.len() implies same_key(
            #[trigger] act2[i].id,
            act2[i].by.dep,
        ) && justified_before(reg, roots, act2, act2[i].by, i) by {
            if i < n {
                assert(act2[i] == act[i]);
                assert(same_key(act[i].id, act[i].by.dep));
                lemma_justified_grows(reg, roots, act, act2, act[i].by, i, i);
            } else {
                lemma_justified_grows(reg, roots, act, act2, req, n, n);
            }
        }
        assert forall|k: int| 0 <= k < work2.len() implies justified_before(
            reg,
            roots,
            act2,
            #[trigger] work2[k],
            act2.len() as int,
        ) by {
            if k < reqs_of(s).len() {
                assert(act2[n].id == s.id);
                assert(edges(reg, act2[n])[k] == work2[k].dep);
                assert(declares(reg, act2, n, work2[k].dep));
            } else {
                assert(work2[k] == rest[k - reqs_of(s).len()]);
                lemma_justified_grows(reg, roots, act, act2, work2[k], n, n + 1);
            }
        }
        lemma_search_grounded(reg, roots, lock, act2, work2, (fuel - 1) as nat);
        lemma_best(reg, req.dep, below, skip, reg.len());
        match best(reg, req.dep, below, skip) {
            Some(cj) => {
                lemma_try_grounded(
                    reg,
                    roots,
                    lock,
                    act,
                    rest,
                    req,
                    cj,
                    Some(reg[cj].id.version),
                    skip,
                    (fuel - 1) as nat,
                );
            },
            None => {},
        }
    }
}

/// Every package of a resolution was activated for a requirement on it that
/// comes from the roots or from a package activated before it.
pub proof fn lemma_resolve_grounded(
    reg: Seq<Summary>,
    roots: Seq<Dependency>,
    lock: Seq<PackageId>,
    r: Seq<Activation>,
)
    requires
        reg.len() <= usize::MAX,
        resolve_spec(reg, roots, lock) == Ok::<Seq<Activation>, ResolveError>(r),
    ensures
        grounded(reg, roots, r),
{
    let work = roots_work(roots);
    assert forall|k: int| 0 <= k < work.len() implies justified_before(
        reg,
        roots,
        Seq::empty(),
        #[trigger] work[k],
        0,
    ) by {
        assert(roots[k] == work[k].dep);
    }
    lemma_search_grounded(reg, roots, lock, Seq::empty(), work, SEARCH_LIMIT as nat);
}

pub open spec fn id_le(a: PackageId, b: PackageId) -> bool {
    !id_lt(b, a)
}

pub open spec fn id_order() -> spec_fn(PackageId, PackageId) -> bool {
    |a: PackageId, b: PackageId| id_le(a, b)
}

proof fn lemma_id_order()
    ensures
        total_ordering(id_order()),
{
    let leq = id_order();
    assert forall|x: PackageId, y: PackageId| #[trigger] leq(x, y) && #[trigger] leq(y, x) implies x == y by {
        assert(x.version == y.version);
    }
}

proof fn lemma_insert_sorted(t: Seq<PackageId>, x: PackageId)
    requires
        sorted_by(t, id_order()),
    ensures
        sorted_by(insert_sorted(t, x), id_order()),
        insert_sorted(t, x).to_multiset() == t.to_multiset().insert(x),
    decreases t.len(),
{
    broadcast use group_to_multiset_ensures, group_multiset_axioms;

    let leq = id_order();
    lemma_id_order();
    if t.len() == 0 || id_lt(x, t[0]) {
        let out = seq![x] + t;
        lemma_multiset_commutative(seq![x], t);
        assert(seq![x] =~= Seq::<PackageId>::empty().push(x));
        assert forall|i: int, j: int| 0 <= i < j < out.len() implies leq(out[i], out[j]) by {
            if i == 0 {
                assert(leq(x, t[0]));
                if j > 1 {
                    assert(leq(t[0], t[j - 1]));
                }
            } else {
                assert(leq(t[i - 1], t[j - 1]));
            }
        }
    } else {
        let rest = t.drop_first();
        assert(sorted_by(rest, leq)) by {
            assert forall|i: int, j: int| 0 <= i < j < rest.len() implies leq(rest[i], rest[j]) by {
                assert(leq(t[i + 1], t[j + 1]));
            }
        }
        lemma_insert_sorted(rest, x);
        let u = insert_sorted(rest, x);
        let out = seq![t[0]] + u;
        lemma_multiset_commutative(seq![t[0]], u);
        lemma_multiset_commutative(seq![t[0]], rest);
        assert(seq![t[0]] =~= Seq::<PackageId>::empty().push(t[0]));
        assert(seq![t[0]] + rest =~= t);
        assert forall|k: int| 0 <= k < u.len() implies leq(t[0], #[trigger] u[k]) by {
            assert(u.contains(u[k]));
            assert(u.to_multiset().count(u[k]) > 0);
            if u[k] != x {
                assert(rest.to_multiset().count(u[k]) > 0);
                assert(rest.contains(u[k]));
                let m = choose|m: int| 0 <= m < rest.len() && rest[m] == u[k];
                assert(leq(t[0], t[m + 1]));
            }
        }
        assert forall|i: int, j: int| 0 <= i < j < out.len() implies leq(out[i], out[j]) by {
            if i == 0 {
                assert(out[j] == u[j - 1]);
            } else {
                assert(leq(u[i - 1], u[j - 1]));
            }
        }
        assert(out.to_multiset() =~= t.to_multiset().insert(x));
    }
}

/// Sorting orders the entries and keeps them all.
pub proof fn lemma_sort_ids(s: Seq<PackageId>)
    ensures
        sorted_by(sort_ids(s), id_order()),
        sort_ids(s).to_multiset() == s.to_multiset(),
    decreases s.len(),
{
    broadcast use group_to_multiset_ensures;

    if s.len() > 0 {
        lemma_sort_ids(s.drop_last());
        lemma_insert_sorted(sort_ids(s.drop_last()), s.last());
        assert(s.drop_last().push(s.last()) =~= s);
    }
}

proof fn lemma_ids_multiset(r: Seq<Activation>, id: PackageId)
    requires
        keys_unique(r),
    ensures
        ids_of(r).to_multiset().count(id) == if activated(r, id) {
            1nat
        } else {
            0nat
        },
{
    broadcast use group_to_multiset_ensures;

    let ids = ids_of(r);
    assert(ids.no_duplicates()) by {
        assert forall|i: int, j: int| 0 <= i < ids.len() && 0 <= j < ids.len() && i != j implies ids[i]
            != ids[j] by {
            assert(!(r[i].id.name == r[j].id.name && r[i].id.source == r[j].id.source));
        }
    }
    ids.lemma_multiset_has_no_duplicates();
    if activated(r, id) {
        let j = choose|j: int| 0 <= j < r.len() && #[trigger] r[j].id == id;
        assert(ids[j] == id);
        assert(ids.contains(id));
    } else {
        assert(!ids.contains(id));
    }
}

/// Two resolutions with the same packages have the same lockfile.
pub proof fn lemma_same_packages_same_lockfile(r: Seq<Activation>, r0: Seq<Activation>)
    requires
        keys_unique(r),
        keys_unique(r0),
        forall|id: PackageId| activated(r, id) <==> activated(r0, id),
    ensures
        lockfile_of(r) == lockfile_of(r0),
{
    assert forall|id: PackageId| ids_of(r).to_multiset().count(id) == ids_of(r0).to_multiset().count(id) by {
        lemma_ids_multiset(r, id);
        lemma_ids_multiset(r0, id);
    }
    assert(ids_of(r).to_multiset() =~= ids_of(r0).to_multiset());
    lemma_sort_ids(ids_of(r));
    lemma_sort_ids(ids_of(r0));
    lemma_id_order();
    lemma_sorted_unique(lockfile_of(r), lockfile_of(r0), id_order());
}

/// A reported conflict is two-sided and real: it names the requirement that
/// failed and the package already activated for the same name and source,
/// together with the requirement that activated it; that requirement accepts
/// the package's version and the failed one does not.
pub open spec fn names_both(e: ResolveError) -> bool {
    match e {
        ResolveError::Conflict { req, existing: Some(a) } => {
            &&& same_key(a.id, req.dep)
            &&& same_key(a.id, a.by.dep)
            &&& req_matches(a.by.dep.req, a.id.version)
            &&& !req_matches(req.dep.req, a.id.version)
        },
        _ => true,
    }
}

/// Every activation meets the requirement it was made for.
pub open spec fn activations_meet_causes(act: Seq<Activation>) -> bool {
    forall|i: int|
        0 <= i < act.len() ==> same_key(#[trigger] act[i].id, act[i].by.dep) && req_matches(
            act[i].by.dep.req,
            act[i].id.version,
        )
}

proof fn lemma_search_conflict(
    reg: Seq<Summary>,
    lock: Seq<PackageId>,
    act: Seq<Activation>,
    work: Seq<Requirement>,
    fuel: nat,
)
    requires
        activations_meet_causes(act),
    ensures
        search_spec(reg, lock, act, work, fuel) matches Err(e) ==> names_both(e),
    decreases fuel,
{
    if fuel > 0 && work.len() > 0 {
        let req = work[0];
        let rest = work.drop_first();
        lemma_find_active(act, req.dep);
        lemma_locked(reg, lock, req.dep, reg.len());
        lemma_best(reg, req.dep, None, None, reg.len());
        match find_active(act, req.dep) {
            Some(i) => {
                assert(same_key(act[i].id, act[i].by.dep));
                lemma_search_conflict(reg, lock, act, rest, (fuel - 1) as nat);
            },
            None => match locked_candidate(reg, lock, req.dep) {
                Some(li) => {
                    lemma_try_conflict(reg, lock, act, rest, req, li, None, Some(reg[li].id.version), (fuel - 1) as nat);
                },
                None => match best(reg, req.dep, None, None) {
                    Some(ci) => {
                        lemma_try_conflict(reg, lock, act, rest, req, ci, Some(reg[ci].id.version), None, (fuel - 1) as nat);
                    },
                    None => {},
                },
            },
        }
    }
}

proof fn lemma_try_conflict(
    reg: Seq<Summary>,
    lock: Seq<PackageId>,
    act: Seq<Activation>,
    rest: Seq<Requirement>,
    req: Requirement,
    ci: int,
    below: Option<Version>,
    skip: Option<Version>,
    fuel: nat,
)
    requires
        activations_meet_causes(act),
        0 <= ci < reg.len(),
        eligible(reg[ci], req.dep, None, None),
    ensures
        try_spec(reg, lock, act, rest, req, ci, below, skip, fuel) matches Err(e) ==> names_both(e),
    decreases fuel,
{
    if fuel > 0 {
        let s = reg[ci];
        let act2 = act.push(Activation { id: s.id, summary: ci as usize, by: req });
        assert forall|i: int| 0 <= i < act2.len() implies same_key(#[trigger] act2[i].id, act2[i].by.dep)
            && req_matches(act2[i].by.dep.req, act2[i].id.version) by {
            if i < act.len() {
                assert(act2[i] == act[i]);
            }
        }
        lemma_search_conflict(reg, lock, act2, reqs_of(s) + rest, (fuel - 1) as nat);
        lemma_best(reg, req.dep, below, skip, reg.len());
        match best(reg, req.dep, below, skip) {
            Some(cj) => {
                lemma_try_conflict(reg, lock, act, rest, req, cj, Some(reg[cj].id.version), skip, (fuel - 1) as nat);
            },
            None => {},
        }
    }
}

/// Conflicts name both sides: when resolution fails because a package is
/// already activated at a version some requirement rejects, the error names
/// that requirement and the one the package was activated for, which
/// accepts its version.
pub proof fn lemma_conflict_names_both(
    reg: Seq<Summary>,
    roots: Seq<Dependency>,
    lock: Seq<PackageId>,
    e: ResolveError,
)
    requires
        resolve_spec(reg, roots, lock) == Err::<Seq<Activation>, ResolveError>(e),
    ensures
        names_both(e),
{
    lemma_search_conflict(reg, lock, Seq::empty(), roots_work(roots), SEARCH_LIMIT as nat);
}

proof fn lemma_resolution_carries_over(
    reg0: Seq<Summary>,
    reg: Seq<Summary>,
    roots: Seq<Dependency>,
    r0: Seq<Activation>,
)
    requires
        reg0.len() <= reg.len(),
        reg.subrange(0, reg0.len() as int) == reg0,
        valid_resolve(reg0, roots, r0),
        grounded(reg0, roots, r0),
    ensures
        valid_resolve(reg, roots, r0),
        grounded(reg, roots, r0),
{
    assert forall|i: int| 0 <= i < r0.len() implies edges(reg, #[trigger] r0[i]) == edges(reg0, r0[i])
        && r0[i].summary < reg.len() && reg[r0[i].summary as int].id == r0[i].id by {
        assert(r0[i].summary < reg0.len());
        assert(reg[r0[i].summary as int] == reg.subrange(0, reg0.len() as int)[r0[i].summary as int]);
    }
    assert forall|i: int, k: int|
        0 <= i < r0.len() && 0 <= k < edges(reg, r0[i]).len() implies satisfied(
        r0,
        #[trigger] edges(reg, r0[i])[k],
    ) by {
        assert(edges(reg, r0[i]) == edges(reg0, r0[i]));
        assert(satisfied(r0, edges(reg0, r0[i])[k]));
    }
    assert forall|i: int| 0 <= i < r0.len() implies same_key(#[trigger] r0[i].id, r0[i].by.dep)
        && justified_before(reg, roots, r0, r0[i].by, i) by {
        assert(same_key(r0[i].id, r0[i].by.dep));
        assert(justified_before(reg0, roots, r0, r0[i].by, i));
        if let Some(p) = r0[i].by.parent {
            let j = choose|j: int| 0 <= j < i && #[trigger] r0[j].id == p && declares(reg0, r0, j, r0[i].by.dep);
            assert(edges(reg, r0[j]) == edges(reg0, r0[j]));
            let k = choose|k: int| 0 <= k < edges(reg0, r0[j]).len() && #[trigger] edges(reg0, r0[j])[k] == r0[i].by.dep;
            assert(edges(reg, r0[j])[k] == r0[i].by.dep);
            assert(declares(reg, r0, j, r0[i].by.dep));
        }
    }
}

/// Lockfile stability when newer versions appear upstream: take the
/// lockfile of a resolution against `reg0`, as `Resolve::lockfile` writes
/// it; once the source offers more candidates (`reg` extends `reg0`),
/// resolving the same roots with that lockfile activates exactly the locked packages and reproduces the
/// lockfile, unless the search runs out of steps. A source offers each
/// package identity once.
pub proof fn lemma_relock_after_new_versions(
    reg0: Seq<Summary>,
    reg: Seq<Summary>,
    roots: Seq<Dependency>,
    lock0: Seq<PackageId>,
    r0: Seq<Activation>,
)
    requires
        reg.len() <= usize::MAX,
        ids_unique(reg),
        reg0.len() <= reg.len(),
        reg.subrange(0, reg0.len() as int) == reg0,
        resolve_spec(reg0, roots, lock0) == Ok::<Seq<Activation>, ResolveError>(r0),
        resolve_spec(reg, roots, lockfile_of(r0)) != Err::<Seq<Activation>, ResolveError>(
            ResolveError::TooComplex,
        ),
    ensures
        resolve_spec(reg, roots, lockfile_of(r0)) is Ok,
        resolve_spec(reg, roots, lockfile_of(r0)) matches Ok(r) ==> (forall|id: PackageId|
            activated(r, id) <==> activated(r0, id)) && lockfile_of(r) == lockfile_of(r0),
{
    lemma_lockfile_same_lock(r0);
    lemma_resolve_same_lock(reg, roots, lockfile_of(r0), ids_of(r0));
    lemma_resolve_satisfies(reg0, roots, lock0, r0);
    lemma_resolve_grounded(reg0, roots, lock0, r0);
    lemma_resolution_carries_over(reg0, reg, roots, r0);
    lemma_lock_is_kept(reg, roots, r0);
    let r = resolve_spec(reg, roots, ids_of(r0))->Ok_0;
    assert forall|id: PackageId| activated(r, id) <==> activated(r0, id) by {
        if activated(r, id) {
            let j = choose|j: int| 0 <= j < r.len() && #[trigger] r[j].id == id;
        }
        if activated(r0, id) {
            let j = choose|j: int| 0 <= j < r0.len() && #[trigger] r0[j].id == id;
        }
    }
    lemma_resolve_satisfies(reg, roots, ids_of(r0), r);
    lemma_same_packages_same_lockfile(r, r0);
}

/// Two locks hold the same packages.
pub open spec fn same_lock(la: Seq<PackageId>, lb: Seq<PackageId>) -> bool {
    forall|id: PackageId| #[trigger] in_lock(la, id) == in_lock(lb, id)
}

proof fn lemma_locked_same(reg: Seq<Summary>, la: Seq<PackageId>, lb: Seq<PackageId>, d: Dependency, n: nat)
    requires
        same_lock(la, lb),
    ensures
        locked_upto(reg, la, d, n) == locked_upto(reg, lb, d, n),
    decreases n,
{
    if n > 0 {
        lemma_locked_same(reg, la, lb, d, (n - 1) as nat);
        assert(in_lock(la, reg[n - 1].id) == in_lock(lb, reg[n - 1].id));
    }
}

proof fn lemma_search_same_lock(
    reg: Seq<Summary>,
    la: Seq<PackageId>,
    lb: Seq<PackageId>,
    act: Seq<Activation>,
    work: Seq<Requirement>,
    fuel: nat,
)
    requires
        same_lock(la, lb),
    ensures
        search_spec(reg, la, act, work, fuel) == search_spec(reg, lb, act, work, fuel),
    decreases fuel,
{
    if fuel > 0 && work.len() > 0 {
        let req = work[0];
        let rest = work.drop_first();
        lemma_locked_same(reg, la, lb, req.dep, reg.len());
        match find_active(act, req.dep) {
            Some(i) => {
                lemma_search_same_lock(reg, la, lb, act, rest, (fuel - 1) as nat);
            },
            None => match locked_candidate(reg, la, req.dep) {
                Some(li) => {
                    lemma_try_same_lock(reg, la, lb, act, rest, req, li, None, Some(reg[li].id.version), (fuel - 1) as nat);
                },
                None => match best(reg, req.dep, None, None) {
                    Some(ci) => {
                        lemma_try_same_lock(reg, la, lb, act, rest, req, ci, Some(reg[ci].id.version), None, (fuel - 1) as nat);
                    },
                    None => {},
                },
            },
        }
    }
}

proof fn lemma_try_same_lock(
    reg: Seq<Summary>,
    la: Seq<PackageId>,
    lb: Seq<PackageId>,
    act: Seq<Activation>,
    rest: Seq<Requirement>,
    req: Requirement,
    ci: int,
    below: Option<Version>,
    skip: Option<Version>,
    fuel: nat,
)
    requires
        same_lock(la, lb),
    ensures
        try_spec(reg, la, act, rest, req, ci, below, skip, fuel) == try_spec(reg, lb, act, rest, req, ci, below, skip, fuel),
    decreases fuel,
{
    if fuel > 0 {
        let s = reg[ci];
        let act2 = act.push(Activation { id: s.id, summary: ci as usize, by: req });
        lemma_search_same_lock(reg, la, lb, act2, reqs_of(s) + rest, (fuel - 1) as nat);
        match best(reg, req.dep, below, skip) {
            Some(cj) => {
                lemma_try_same_lock(reg, la, lb, act, rest, req, cj, Some(reg[cj].id.version), skip, (fuel - 1) as nat);
            },
            None => {},
        }
    }
}

/// Resolution depends on the lock only through the packages it holds: a
/// lock in any order, such as a sorted lockfile, gives the same outcome.
pub proof fn lemma_resolve_same_lock(
    reg: Seq<Summary>,
    roots: Seq<Dependency>,
    la: Seq<PackageId>,
    lb: Seq<PackageId>,
)
    requires
        same_lock(la, lb),
    ensures
        resolve_spec(reg, roots, la) == resolve_spec(reg, roots, lb),
{
    lemma_search_same_lock(reg, la, lb, Seq::empty(), roots_work(roots), SEARCH_LIMIT as nat);
}

/// A lockfile holds exactly the packages of its resolution.
pub proof fn lemma_lockfile_same_lock(r: Seq<Activation>)
    ensures
        same_lock(lockfile_of(r), ids_of(r)),
{
    broadcast use group_to_multiset_ensures;

    lemma_sort_ids(ids_of(r));
    assert forall|id: PackageId| #[trigger] in_lock(lockfile_of(r), id) == in_lock(ids_of(r), id) by {
        let l = lockfile_of(r);
        let ids = ids_of(r);
        assert(l.to_multiset().count(id) == ids.to_multiset().count(id));
        if in_lock(l, id) {
            let j = choose|j: int| 0 <= j < l.len() && l[j] == id;
            assert(l.contains(id));
        }
        if in_lock(ids, id) {
            let j = choose|j: int| 0 <= j < ids.len() && ids[j] == id;
            assert(ids.contains(id));
        }
    }
}

impl ResolveError {
    /// This failure as an error of the `ResolutionConflict` kind, at the
    /// head of a new cause chain.
    pub fn to_cargo_error(&self) -> (r: CargoError)
        ensures
            r.kind == CargoErrorKind::ResolutionConflict,
            r.causes@.len() == 0,
            *self is Conflict ==> r.message@ == "failed to select a version for a requirement"@,
            *self is TooComplex ==> r.message@ == "dependency resolution took too many steps"@,
    {
        proof {
            reveal_strlit("failed to select a version for a requirement");
            reveal_strlit("dependency resolution took too many steps");
        }
        let message = match self {
            ResolveError::Conflict { .. } => String::from_str("failed to select a version for a requirement"),
            ResolveError::TooComplex => String::from_str("dependency resolution took too many steps"),
        };
        CargoError { kind: CargoErrorKind::ResolutionConflict, message, causes: Vec::new() }
    }
}

} // verus!
