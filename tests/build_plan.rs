use cargo::fingerprint::{Fingerprint, FingerprintStore};
use cargo::graph::{dependents_of, Unit, UnitGraph};
use cargo::scheduler::{JobState, Scheduler};

fn unit(deps: Vec<usize>, inputs: u64) -> Unit {
    Unit { deps, inputs, flags: 7 }
}

// 0: leaf, 1: depends on 0, 2: depends on 1, 3: independent, 4: depends on 3
fn two_branches() -> UnitGraph {
    UnitGraph {
        units: vec![
            unit(vec![], 10),
            unit(vec![0], 11),
            unit(vec![1], 12),
            unit(vec![], 13),
            unit(vec![3], 14),
        ],
    }
}

/// Runs a whole build with the given budget; `fails` lists units whose
/// compiler invocation fails. Returns the compiled units in start order and
/// the highest number of jobs that ran at once.
fn run_build(
    g: &UnitGraph,
    store: &mut FingerprintStore,
    budget: usize,
    fails: &[usize],
) -> (Vec<usize>, usize, Scheduler) {
    let stale = store.stale_units(g);
    let mut s = Scheduler::new(g, &stale, budget);
    let mut started = Vec::new();
    let mut running: Vec<usize> = Vec::new();
    let mut peak = 0;
    loop {
        while s.has_token() {
            match s.next_ready(g) {
                Some(u) => {
                    s.start(g, u);
                    started.push(u);
                    running.push(u);
                }
                None => break,
            }
        }
        peak = peak.max(s.running);
        if running.is_empty() {
            break;
        }
        let u = running.remove(0);
        let ok = !fails.contains(&u);
        s.finish(g, u, ok);
        if ok {
            store.record(g, &s, u);
        }
    }
    (started, peak, s)
}

#[test]
fn first_build_compiles_everything_in_dependency_order() {
    let g = two_branches();
    let mut store = FingerprintStore::new();
    let (started, _, s) = run_build(&g, &mut store, 4, &[]);
    assert_eq!(started.len(), 5);
    let pos = |u: usize| started.iter().position(|&x| x == u).unwrap();
    assert!(pos(0) < pos(1) && pos(1) < pos(2) && pos(3) < pos(4));
    assert!(s.states.iter().all(|st| *st == JobState::Succeeded));
}

#[test]
fn second_build_without_changes_compiles_nothing() {
    let g = two_branches();
    let mut store = FingerprintStore::new();
    run_build(&g, &mut store, 2, &[]);
    let (started, _, _) = run_build(&g, &mut store, 2, &[]);
    assert!(started.is_empty());
    assert_eq!(store.stale_units(&g), vec![false; 5]);
}

#[test]
fn touching_a_leaf_rebuilds_exactly_its_dependents() {
    let mut g = two_branches();
    let mut store = FingerprintStore::new();
    run_build(&g, &mut store, 2, &[]);
    g.units[0].inputs = 99;
    assert_eq!(store.stale_units(&g), vec![true, true, true, false, false]);
    assert_eq!(dependents_of(&g, 0), vec![true, true, true, false, false]);
    let (mut started, _, _) = run_build(&g, &mut store, 2, &[]);
    started.sort();
    assert_eq!(started, vec![0, 1, 2]);
}

#[test]
fn changed_flags_make_a_unit_stale() {
    let mut g = two_branches();
    let mut store = FingerprintStore::new();
    run_build(&g, &mut store, 1, &[]);
    g.units[3].flags = 8;
    assert!(store.is_stale(&g, 3));
    assert!(store.is_stale(&g, 4));
    assert!(!store.is_stale(&g, 0));
    assert_eq!(store.records[3], Some(Fingerprint { inputs: 13, flags: 7 }));
}

#[test]
fn failure_in_one_branch_lets_the_other_finish() {
    let g = two_branches();
    let mut store = FingerprintStore::new();
    let (started, _, s) = run_build(&g, &mut store, 2, &[0]);
    assert!(!started.contains(&1) && !started.contains(&2));
    assert_eq!(
        s.states,
        vec![
            JobState::Failed,
            JobState::Failed,
            JobState::Failed,
            JobState::Succeeded,
            JobState::Succeeded,
        ]
    );
    assert_eq!(store.stale_units(&g), vec![true, true, true, false, false]);
}

#[test]
fn running_jobs_never_exceed_the_budget() {
    let g = UnitGraph { units: (0..6).map(|i| unit(vec![], i)).collect() };
    let mut store = FingerprintStore::new();
    let (started, peak, _) = run_build(&g, &mut store, 2, &[]);
    assert_eq!(started.len(), 6);
    assert_eq!(peak, 2);
    let mut store1 = FingerprintStore::new();
    let (started1, peak1, _) = run_build(&g, &mut store1, 1, &[]);
    assert_eq!(started1, vec![0, 1, 2, 3, 4, 5]);
    assert_eq!(peak1, 1);
}

#[test]
fn start_and_finish_update_the_running_count() {
    let g = two_branches();
    let mut s = Scheduler::new(&g, &vec![true; 5], 3);
    assert_eq!(s.next_ready(&g), Some(0));
    s.start(&g, 0);
    assert_eq!(s.running, 1);
    assert_eq!(s.next_ready(&g), Some(3));
    s.finish(&g, 0, true);
    assert_eq!(s.running, 0);
    assert_eq!(s.states[0], JobState::Succeeded);
    assert_eq!(s.next_ready(&g), Some(1));
}

#[test]
fn dependent_that_failed_after_its_dependency_was_rebuilt_stays_stale() {
    let mut g = two_branches();
    let mut store = FingerprintStore::new();
    run_build(&g, &mut store, 2, &[]);
    g.units[0].inputs = 42;
    let (started, _, _) = run_build(&g, &mut store, 2, &[1]);
    assert_eq!(started, vec![0, 1]);
    assert_eq!(store.records[1], None);
    assert_eq!(store.stale_units(&g), vec![false, true, true, false, false]);
    let (mut again, _, _) = run_build(&g, &mut store, 2, &[]);
    again.sort();
    assert_eq!(again, vec![1, 2]);
}
