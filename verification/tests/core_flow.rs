use asterisk_core::fingerprint::FingerprintStore;
use asterisk_core::graph::{build_graph, ConfigurationError, DepGraph, Unit};
use asterisk_core::schedule::{BuildReport, BuildSession, InvokeOutcome, InvokeStatus, Outcome};

fn unit(id: &str, deps: &[&str]) -> Unit {
    Unit { id: id.to_string(), deps: deps.iter().map(|d| d.to_string()).collect() }
}

fn graph_of(units: &Vec<Unit>) -> DepGraph {
    match build_graph(units) {
        Ok(g) => g,
        Err(_) => panic!("expected a well-formed dependency set"),
    }
}

/// Runs one whole build: every dispatched unit whose identity is in
/// `fail` reports a compile failure, the rest succeed.
fn run_build(
    units: &Vec<Unit>,
    store: &mut FingerprintStore,
    current: &Vec<u64>,
    fail: &[&str],
) -> BuildReport {
    let graph = graph_of(units);
    let mut session = BuildSession::start(graph, store, current.clone());
    while !session.finished() {
        let dispatched = session.to_dispatch();
        let mut results: Vec<InvokeOutcome> = Vec::new();
        for &u in dispatched.iter() {
            let failed = fail.iter().any(|f| *f == session.graph.ids[u]);
            results.push(InvokeOutcome {
                status: if failed { InvokeStatus::CompileFailed } else { InvokeStatus::Succeeded },
                output: format!("compiled {}", session.graph.ids[u]),
            });
        }
        session.finish_batch(&dispatched, &results, store, 42);
    }
    session.report(7, false)
}

#[test]
fn batches_respect_dependencies() {
    let units = vec![unit("a", &[]), unit("b", &["a"]), unit("c", &[]), unit("d", &["b", "c"])];
    let g = graph_of(&units);
    let batches = g.topological_batches();
    // every unit's dependencies sit in strictly earlier batches
    for (b, batch) in batches.iter().enumerate() {
        for &u in batch.iter() {
            for &d in g.deps[u].iter() {
                let dep_batch = batches.iter().position(|bb| bb.contains(&d)).unwrap();
                assert!(dep_batch < b);
            }
        }
    }
    assert_eq!(*batches, vec![vec![0usize, 2], vec![1], vec![3]]);
}

#[test]
fn cycle_is_a_configuration_error() {
    let units = vec![unit("a", &["b"]), unit("b", &["a"]), unit("c", &[])];
    match build_graph(&units) {
        Err(ConfigurationError::Cycle(cyc)) => {
            assert!(!cyc.is_empty());
            for id in cyc.iter() {
                assert!(id == "a" || id == "b");
            }
        },
        _ => panic!("a cycle must fail graph construction"),
    }
}

#[test]
fn self_dependency_is_a_cycle() {
    let units = vec![unit("a", &["a"])];
    match build_graph(&units) {
        Err(ConfigurationError::Cycle(cyc)) => assert_eq!(cyc, vec!["a".to_string()]),
        _ => panic!("a self-dependency must fail graph construction"),
    }
}

#[test]
fn unknown_dependency_is_a_configuration_error() {
    let units = vec![unit("a", &["missing"])];
    match build_graph(&units) {
        Err(ConfigurationError::UnknownDependency(id)) => assert_eq!(id, "missing"),
        _ => panic!("an unknown dependency must fail graph construction"),
    }
}

#[test]
fn duplicate_dependency_entries_are_deduplicated() {
    let units = vec![unit("a", &[]), unit("b", &["a", "a", "a"])];
    let g = graph_of(&units);
    assert_eq!(g.deps[1], vec![0usize]);
}

#[test]
fn second_build_without_changes_is_idempotent() {
    let units = vec![unit("a", &[]), unit("b", &["a"]), unit("c", &[])];
    let current = vec![11u64, 22, 33];
    let mut store = FingerprintStore::new();

    let first = run_build(&units, &mut store, &current, &[]);
    assert_eq!(first.succeeded, 3);
    assert!(!first.overall_failed);
    assert_eq!(store.records.len(), 3);

    let second = run_build(&units, &mut store, &current, &[]);
    assert_eq!(second.skipped_unchanged, 3);
    assert_eq!(second.succeeded, 0);
    assert!(second.outcomes.iter().all(|oc| *oc == Outcome::SkippedUnchanged));
}

#[test]
fn change_propagates_forward_only() {
    let units = vec![unit("a", &[]), unit("b", &["a"])];
    let mut store = FingerprintStore::new();
    let mut current = vec![1u64, 2];
    run_build(&units, &mut store, &current, &[]);

    // a's content changes: both a and b are rebuilt
    current[0] = 100;
    let after_a = run_build(&units, &mut store, &current, &[]);
    assert_eq!(after_a.outcomes[0], Outcome::Success);
    assert_eq!(after_a.outcomes[1], Outcome::Success);
    assert_eq!(after_a.skipped_unchanged, 0);

    // only b's content changes: a stays clean and is not rebuilt
    current[1] = 200;
    let after_b = run_build(&units, &mut store, &current, &[]);
    assert_eq!(after_b.outcomes[0], Outcome::SkippedUnchanged);
    assert_eq!(after_b.outcomes[1], Outcome::Success);
}

#[test]
fn failure_is_isolated_to_dependents() {
    let units = vec![unit("a", &[]), unit("b", &["a"]), unit("c", &[])];
    let current = vec![5u64, 6, 7];
    let mut store = FingerprintStore::new();
    let report = run_build(&units, &mut store, &current, &["a"]);
    assert!(matches!(report.outcomes[0], Outcome::Failed(_)));
    assert_eq!(report.outcomes[1], Outcome::SkippedBlocked);
    assert_eq!(report.outcomes[2], Outcome::Success);
    assert!(report.overall_failed);
    assert_eq!(report.failed, 1);
    assert_eq!(report.skipped_blocked, 1);
    assert_eq!(report.succeeded, 1);
    // no record is written for the failed unit or its dependents
    assert_eq!(store.records.len(), 1);
    assert_eq!(store.records[0].id, "c");
}

#[test]
fn failed_units_are_retried_next_run() {
    let units = vec![unit("a", &[]), unit("b", &["a"])];
    let current = vec![1u64, 2];
    let mut store = FingerprintStore::new();
    let first = run_build(&units, &mut store, &current, &["a"]);
    assert!(first.overall_failed);
    // nothing changed on disk, but a has no record, so a and b run again
    let second = run_build(&units, &mut store, &current, &[]);
    assert_eq!(second.outcomes[0], Outcome::Success);
    assert_eq!(second.outcomes[1], Outcome::Success);
}

#[test]
fn full_scenario_plan_and_rebuild() {
    let units = vec![unit("a", &[]), unit("b", &["a"]), unit("c", &[])];
    let mut current = vec![10u64, 20, 30];
    let mut store = FingerprintStore::new();
    let graph = graph_of(&units);
    assert_eq!(graph.batches, vec![vec![0usize, 2], vec![1]]);

    // first build: everything is dirty, batches {a, c} then {b}
    let mut session = BuildSession::start(graph, &store, current.clone());
    assert!(session.dirty.iter().all(|d| *d));
    let first_batch = session.to_dispatch();
    assert_eq!(first_batch, vec![0usize, 2]);
    let results: Vec<InvokeOutcome> = first_batch
        .iter()
        .map(|_| InvokeOutcome { status: InvokeStatus::Succeeded, output: String::new() })
        .collect();
    session.finish_batch(&first_batch, &results, &mut store, 1);
    let second_batch = session.to_dispatch();
    assert_eq!(second_batch, vec![1usize]);
    let results: Vec<InvokeOutcome> = vec![InvokeOutcome {
        status: InvokeStatus::Succeeded,
        output: String::new(),
    }];
    session.finish_batch(&second_batch, &results, &mut store, 1);
    assert!(session.finished());
    assert_eq!(store.records.len(), 3);

    // second build with no changes: the dirty set is empty
    let report = run_build(&units, &mut store, &current, &[]);
    assert_eq!(report.skipped_unchanged, 3);

    // a's content changes: the dirty set is {a, b}, batches {a} then {b}
    current[0] = 99;
    let graph = graph_of(&units);
    let mut session = BuildSession::start(graph, &store, current.clone());
    assert_eq!(session.dirty, vec![true, true, false]);
    assert_eq!(session.to_dispatch(), vec![0usize]);
    let results = vec![InvokeOutcome { status: InvokeStatus::Succeeded, output: String::new() }];
    let dispatched = vec![0usize];
    session.finish_batch(&dispatched, &results, &mut store, 2);
    assert_eq!(session.to_dispatch(), vec![1usize]);
    let dispatched = vec![1usize];
    let results = vec![InvokeOutcome { status: InvokeStatus::Succeeded, output: String::new() }];
    session.finish_batch(&dispatched, &results, &mut store, 2);
    let report = session.report(0, false);
    assert_eq!(report.outcomes[2], Outcome::SkippedUnchanged);
    assert_eq!(report.succeeded, 2);
}

#[test]
fn invoker_error_is_distinguished_but_blocks_alike() {
    let units = vec![unit("a", &[]), unit("b", &["a"])];
    let current = vec![1u64, 2];
    let mut store = FingerprintStore::new();
    let graph = graph_of(&units);
    let mut session = BuildSession::start(graph, &store, current.clone());
    let dispatched = session.to_dispatch();
    assert_eq!(dispatched, vec![0usize]);
    let results = vec![InvokeOutcome {
        status: InvokeStatus::InvokerFailed,
        output: "toolchain missing".to_string(),
    }];
    session.finish_batch(&dispatched, &results, &mut store, 3);
    assert_eq!(session.to_dispatch(), Vec::<usize>::new());
    let empty_results: Vec<InvokeOutcome> = Vec::new();
    let empty: Vec<usize> = Vec::new();
    session.finish_batch(&empty, &empty_results, &mut store, 3);
    let report = session.report(0, false);
    assert!(matches!(report.outcomes[0], Outcome::Failed(_)));
    assert_eq!(report.outcomes[1], Outcome::SkippedBlocked);
    assert_eq!(report.logs[0], "toolchain missing");
}
