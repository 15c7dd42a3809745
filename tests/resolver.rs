use cargo::resolver::{
    resolve, Activation, Dependency, PackageId, Requirement, ResolveError, Summary,
};
use cargo::versions::{Version, VersionReq};
use cargo::errors::CargoErrorKind;

const A: u32 = 1;
const B: u32 = 2;
const X: u32 = 3;
const SRC: u32 = 0;

fn v(major: u64, minor: u64, patch: u64) -> Version {
    Version::new(major, minor, patch)
}

fn id(name: u32, version: Version) -> PackageId {
    PackageId { name, version, source: SRC }
}

fn dep(name: u32, req: VersionReq) -> Dependency {
    Dependency { name, source: SRC, req }
}

fn summary(name: u32, version: Version, deps: Vec<Dependency>) -> Summary {
    Summary { id: id(name, version), deps }
}

fn version_of(acts: &[Activation], name: u32) -> Option<Version> {
    acts.iter().find(|a| a.id.name == name).map(|a| a.id.version)
}

#[test]
fn caret_requirement_matches_compatible_versions() {
    let r = VersionReq::Caret(v(1, 2, 3));
    assert!(r.matches(&v(1, 2, 3)));
    assert!(r.matches(&v(1, 9, 0)));
    assert!(!r.matches(&v(2, 0, 0)));
    assert!(!r.matches(&v(1, 2, 2)));
    let z = VersionReq::Caret(v(0, 2, 3));
    assert!(z.matches(&v(0, 2, 9)));
    assert!(!z.matches(&v(0, 3, 0)));
    let zz = VersionReq::Caret(v(0, 0, 3));
    assert!(zz.matches(&v(0, 0, 3)));
    assert!(!zz.matches(&v(0, 0, 4)));
}

#[test]
fn tilde_exact_and_at_least_requirements() {
    assert!(VersionReq::Tilde(v(1, 2, 0)).matches(&v(1, 2, 7)));
    assert!(!VersionReq::Tilde(v(1, 2, 0)).matches(&v(1, 3, 0)));
    assert!(VersionReq::Exact(v(1, 0, 0)).matches(&v(1, 0, 0)));
    assert!(!VersionReq::Exact(v(1, 0, 0)).matches(&v(1, 0, 1)));
    assert!(VersionReq::AtLeast(v(1, 0, 0)).matches(&v(3, 0, 0)));
    assert!(!VersionReq::AtLeast(v(1, 0, 0)).matches(&v(0, 9, 0)));
    assert!(VersionReq::Any.matches(&v(0, 0, 0)));
}

#[test]
fn prefers_newest_compatible_version() {
    let reg = vec![
        summary(X, v(1, 0, 0), vec![]),
        summary(X, v(1, 4, 0), vec![]),
        summary(X, v(2, 0, 0), vec![]),
    ];
    let roots = vec![dep(X, VersionReq::Caret(v(1, 0, 0)))];
    let res = resolve(&reg, &roots, &vec![]).unwrap();
    assert_eq!(res.activations.len(), 1);
    assert_eq!(res.activations[0].id, id(X, v(1, 4, 0)));
    assert_eq!(res.activations[0].summary, 1);
}

#[test]
fn resolving_twice_gives_identical_lockfiles() {
    let reg = vec![
        summary(A, v(1, 0, 0), vec![dep(X, VersionReq::Caret(v(1, 0, 0)))]),
        summary(B, v(1, 0, 0), vec![dep(X, VersionReq::AtLeast(v(1, 1, 0)))]),
        summary(X, v(1, 0, 0), vec![]),
        summary(X, v(1, 2, 0), vec![]),
    ];
    let roots = vec![dep(B, VersionReq::Any), dep(A, VersionReq::Any)];
    let first = resolve(&reg, &roots, &vec![]).unwrap().lockfile();
    let second = resolve(&reg, &roots, &vec![]).unwrap().lockfile();
    assert_eq!(first, second);
    assert_eq!(first, vec![id(A, v(1, 0, 0)), id(B, v(1, 0, 0)), id(X, v(1, 2, 0))]);
}

#[test]
fn every_edge_target_satisfies_its_requirement() {
    let reg = vec![
        summary(A, v(1, 0, 0), vec![dep(X, VersionReq::Caret(v(1, 0, 0))), dep(B, VersionReq::Any)]),
        summary(B, v(1, 0, 0), vec![dep(X, VersionReq::Tilde(v(1, 1, 0)))]),
        summary(X, v(1, 0, 0), vec![]),
        summary(X, v(1, 1, 5), vec![]),
        summary(X, v(1, 3, 0), vec![]),
    ];
    let roots = vec![dep(A, VersionReq::Any)];
    let res = resolve(&reg, &roots, &vec![]).unwrap();
    for a in &res.activations {
        for d in &reg[a.summary].deps {
            let target = version_of(&res.activations, d.name).unwrap();
            assert!(d.req.matches(&target));
        }
    }
    // the newest X is tried first and abandoned once B's requirement rules it out
    assert_eq!(version_of(&res.activations, X), Some(v(1, 1, 5)));
}

#[test]
fn locked_versions_are_kept_when_newer_ones_appear() {
    let old_reg = vec![
        summary(A, v(1, 0, 0), vec![dep(X, VersionReq::Caret(v(1, 0, 0)))]),
        summary(X, v(1, 0, 0), vec![]),
    ];
    let roots = vec![dep(A, VersionReq::Caret(v(1, 0, 0)))];
    let lock = resolve(&old_reg, &roots, &vec![]).unwrap().lockfile();
    let new_reg = vec![
        summary(A, v(1, 0, 0), vec![dep(X, VersionReq::Caret(v(1, 0, 0)))]),
        summary(A, v(1, 1, 0), vec![dep(X, VersionReq::Caret(v(1, 0, 0)))]),
        summary(X, v(1, 0, 0), vec![]),
        summary(X, v(1, 5, 0), vec![]),
    ];
    let again = resolve(&new_reg, &roots, &lock).unwrap().lockfile();
    assert_eq!(again, lock);
    let fresh = resolve(&new_reg, &roots, &vec![]).unwrap().lockfile();
    assert_eq!(fresh, vec![id(A, v(1, 1, 0)), id(X, v(1, 5, 0))]);
}

#[test]
fn incompatible_requirements_report_both_sides() {
    let x_one = dep(X, VersionReq::Caret(v(1, 0, 0)));
    let x_two = dep(X, VersionReq::Caret(v(2, 0, 0)));
    let reg = vec![
        summary(A, v(1, 0, 0), vec![x_one]),
        summary(B, v(1, 0, 0), vec![x_two]),
        summary(X, v(1, 0, 0), vec![]),
        summary(X, v(2, 0, 0), vec![]),
    ];
    let roots = vec![dep(A, VersionReq::Any), dep(B, VersionReq::Any)];
    let err = resolve(&reg, &roots, &vec![]).unwrap_err();
    assert_eq!(
        err,
        ResolveError::Conflict {
            req: Requirement { parent: Some(id(B, v(1, 0, 0))), dep: x_two },
            existing: Some(Activation {
                id: id(X, v(1, 0, 0)),
                summary: 2,
                by: Requirement { parent: Some(id(A, v(1, 0, 0))), dep: x_one },
            }),
        }
    );
}

#[test]
fn missing_package_is_a_conflict_without_existing() {
    let roots = vec![dep(X, VersionReq::Any)];
    let err = resolve(&vec![], &roots, &vec![]).unwrap_err();
    assert_eq!(
        err,
        ResolveError::Conflict { req: Requirement { parent: None, dep: roots[0] }, existing: None }
    );
}

#[test]
fn empty_roots_resolve_to_nothing() {
    let res = resolve(&vec![summary(X, v(1, 0, 0), vec![])], &vec![], &vec![]).unwrap();
    assert!(res.activations.is_empty());
    assert!(res.lockfile().is_empty());
}

#[test]
fn package_cycles_are_permitted() {
    let reg = vec![
        summary(A, v(1, 0, 0), vec![dep(B, VersionReq::Any)]),
        summary(B, v(1, 0, 0), vec![dep(A, VersionReq::Any)]),
    ];
    let res = resolve(&reg, &vec![dep(A, VersionReq::Any)], &vec![]).unwrap();
    assert_eq!(res.lockfile(), vec![id(A, v(1, 0, 0)), id(B, v(1, 0, 0))]);
}

#[test]
fn resolve_errors_become_resolution_conflicts() {
    let roots = vec![dep(X, VersionReq::Any)];
    let err = resolve(&vec![], &roots, &vec![]).unwrap_err();
    let e = err.to_cargo_error();
    assert_eq!(e.kind, CargoErrorKind::ResolutionConflict);
    assert_eq!(e.message, "failed to select a version for a requirement");
    assert!(e.causes.is_empty());
    let t = ResolveError::TooComplex.to_cargo_error();
    assert_eq!(t.kind, CargoErrorKind::ResolutionConflict);
    assert_eq!(t.message, "dependency resolution took too many steps");
}

#[test]
fn sorted_lockfile_keeps_locked_versions() {
    let reg = vec![
        summary(B, v(1, 0, 0), vec![dep(A, VersionReq::Caret(v(1, 0, 0)))]),
        summary(A, v(1, 0, 0), vec![]),
    ];
    let roots = vec![dep(B, VersionReq::Any)];
    let first = resolve(&reg, &roots, &vec![]).unwrap();
    let lock = first.lockfile();
    assert_eq!(lock, vec![id(A, v(1, 0, 0)), id(B, v(1, 0, 0))]);
    let mut newer = reg.clone();
    newer.push(summary(A, v(1, 9, 0), vec![]));
    newer.push(summary(B, v(1, 9, 0), vec![dep(A, VersionReq::Caret(v(1, 0, 0)))]));
    assert_eq!(resolve(&newer, &roots, &lock).unwrap().lockfile(), lock);
}
