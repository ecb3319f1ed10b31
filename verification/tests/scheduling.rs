use crub_graper::errors::BuildError;
use crub_graper::plan::{plan_build, BuildPlan};
use crub_graper::schedule::{WaveScheduler, WaveStep};
use crub_graper::graph::ModuleGraph;
use crub_graper::unit::TranslationUnit;

fn unit(exports: Option<&str>, imports: &[&str]) -> TranslationUnit {
    TranslationUnit {
        path: String::from("x.cpp"),
        exported_module: exports.map(|s| s.to_string()),
        imports: imports.iter().map(|s| s.to_string()).collect(),
        base_hash: vec![1, 2, 3],
    }
}

fn wave(s: &WaveScheduler) -> Vec<usize> {
    match s.next_step() {
        WaveStep::Compile(w) => w,
        WaveStep::Finished => panic!("finished"),
        WaveStep::Deadlock => panic!("deadlock"),
    }
}

#[test]
fn waves_follow_the_imports() {
    let units = vec![
        unit(Some("a"), &[]),
        unit(Some("b"), &["a"]),
        unit(Some("c"), &["a"]),
        unit(None, &["b", "c"]),
    ];
    let mut s = WaveScheduler::new(ModuleGraph::from_units(&units));
    assert_eq!(wave(&s), vec![0]);
    assert!(s.complete(0));
    assert_eq!(wave(&s), vec![1, 2]);
    assert!(s.complete(1));
    assert!(s.complete(2));
    assert_eq!(wave(&s), vec![3]);
    assert!(s.complete(3));
    assert!(matches!(s.next_step(), WaveStep::Finished));
}

#[test]
fn completing_twice_or_out_of_range_changes_nothing() {
    let units = vec![unit(Some("a"), &[]), unit(None, &["a"])];
    let mut s = WaveScheduler::new(ModuleGraph::from_units(&units));
    assert!(s.complete(0));
    assert!(!s.complete(0));
    assert!(!s.complete(7));
    assert!(s.is_completed(0));
    assert!(!s.is_completed(1));
    assert_eq!(wave(&s), vec![1]);
}

#[test]
fn a_unit_waits_for_every_parallel_edge() {
    let units = vec![unit(Some("a"), &[]), unit(None, &["a", "a"])];
    let mut s = WaveScheduler::new(ModuleGraph::from_units(&units));
    assert_eq!(wave(&s), vec![0]);
    s.complete(0);
    assert_eq!(wave(&s), vec![1]);
}

#[test]
fn a_cycle_deadlocks_the_scheduler() {
    let units = vec![unit(Some("a"), &["b"]), unit(Some("b"), &["a"]), unit(None, &[])];
    let mut s = WaveScheduler::new(ModuleGraph::from_units(&units));
    assert_eq!(wave(&s), vec![2]);
    s.complete(2);
    assert!(matches!(s.next_step(), WaveStep::Deadlock));
}

#[test]
fn plan_build_refuses_no_sources() {
    let units: Vec<TranslationUnit> = Vec::new();
    assert!(matches!(plan_build(&units), Err(BuildError::NoSources)));
}

#[test]
fn plan_build_refuses_cycles() {
    let units = vec![unit(Some("a"), &["b"]), unit(Some("b"), &["a"])];
    assert!(matches!(plan_build(&units), Err(BuildError::CyclicDependency)));
}

#[test]
fn plan_build_starts_with_nothing_built() {
    let units = vec![unit(Some("a"), &[]), unit(None, &["a"])];
    let plan: BuildPlan = match plan_build(&units) {
        Ok(p) => p,
        Err(_) => panic!("plan expected"),
    };
    assert_eq!(plan.deep_hashes.len(), 2);
    assert!(!plan.scheduler.is_completed(0));
    assert!(!plan.scheduler.is_completed(1));
    assert_eq!(plan.scheduler.graph().node_count(), 2);
    assert_eq!(wave(&plan.scheduler), vec![0]);
}
