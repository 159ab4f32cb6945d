use crater::builder::build_graph;
use crater::config::{Config, CrateConfig};
use crater::crates::Crate;
use crater::db::ResultStore;
use crater::dirs::target_dir;
use crater::ex::{ExCapLints, ExMode, Experiment};
use crater::results::TestResult;
use crater::tasks::{Task, TaskStep};
use crater::toolchain::Toolchain;
use crater::workers::{failure_result, run_is_complete, Action, Pool, Worker};

fn krate(id: &str) -> Crate {
    Crate::new(id.to_string())
}

fn toolchain(name: &str) -> Toolchain {
    Toolchain::new(name.to_string())
}

fn experiment(crates: &[&str]) -> Experiment {
    Experiment {
        name: "ex-1".to_string(),
        crates: crates.iter().map(|id| krate(id)).collect(),
        toolchains: [toolchain("stable"), toolchain("beta")],
        cap_lints: ExCapLints::Forbid,
        mode: ExMode::BuildOnly,
    }
}

fn run(action: Action) -> (u32, Task) {
    match action {
        Action::Run(id, task) => (id, task),
        other => panic!("expected a task: {:?}", other),
    }
}

#[test]
fn parked_workers_are_woken_when_a_task_ends() {
    let config = Config::new();
    let ex = experiment(&["a"]);
    let mut db = ResultStore::new();
    let mut graph = build_graph(&ex, &config);
    let mut pool = Pool::new(4);
    assert_eq!(pool.len(), 4);
    // The first worker prepares the package; all else waits for it.
    let (id, task) = run(pool.next_action(0, &mut graph, &ex, &db));
    assert_eq!(id, 1);
    assert!(matches!(task.step, TaskStep::Prepare));
    for worker in 1..4 {
        assert!(matches!(pool.next_action(worker, &mut graph, &ex, &db), Action::Park));
        assert_eq!(pool.worker(worker), Worker::Parked);
    }
    assert_eq!(pool.worker(0), Worker::Running(1));
    let woken = pool.task_done(0, &task, None, &mut graph, &ex, &mut db, &config);
    assert_eq!(woken, vec![1, 2, 3]);
    for worker in 0..4 {
        assert_eq!(pool.worker(worker), Worker::Idle);
    }
    // The woken workers pick up what the preparation gated: the two builds.
    let (first, _) = run(pool.next_action(1, &mut graph, &ex, &db));
    let (second, _) = run(pool.next_action(2, &mut graph, &ex, &db));
    assert_eq!((first, second), (2, 3));
    assert!(matches!(pool.next_action(3, &mut graph, &ex, &db), Action::Park));
    assert!(!pool.all_exited());
}

#[test]
fn a_pool_runs_the_graph_to_its_end() {
    let config = Config::new();
    let ex = experiment(&["a", "b", "c"]);
    let mut db = ResultStore::new();
    let mut graph = build_graph(&ex, &config);
    let mut pool = Pool::new(3);
    let mut running: Vec<Option<Task>> = vec![None, None, None];
    let mut rounds = 0;
    while !pool.all_exited() {
        rounds += 1;
        assert!(rounds < 100);
        for worker in 0..3 {
            match pool.worker(worker) {
                Worker::Idle => match pool.next_action(worker, &mut graph, &ex, &db) {
                    Action::Run(_, task) => running[worker] = Some(task),
                    Action::Park | Action::Exit => {}
                },
                Worker::Running(_) => {
                    let task = running[worker].take().unwrap();
                    if let Some(tc) = task.step.toolchain() {
                        db.record_result(&ex, &task.krate, tc, TestResult::TestPass, "");
                    }
                    pool.task_done(worker, &task, None, &mut graph, &ex, &mut db, &config);
                }
                Worker::Parked | Worker::Exited => {}
            }
        }
    }
    assert!(run_is_complete(&mut graph, &ex, &db));
    assert_eq!(graph.node_count(), 1);
    assert!(graph.neighbors(graph.root()).is_empty());
    assert_eq!(db.count(&ex.name), 6);
}

#[test]
fn a_parked_worker_that_wakes_by_itself_asks_again() {
    let config = Config::new();
    let ex = experiment(&["a"]);
    let db = ResultStore::new();
    let mut graph = build_graph(&ex, &config);
    let mut pool = Pool::new(2);
    run(pool.next_action(0, &mut graph, &ex, &db));
    assert!(matches!(pool.next_action(1, &mut graph, &ex, &db), Action::Park));
    pool.wake(1);
    assert_eq!(pool.worker(1), Worker::Idle);
    assert!(matches!(pool.next_action(1, &mut graph, &ex, &db), Action::Park));
    assert!(!run_is_complete(&mut graph, &ex, &db));
}

#[test]
fn a_failed_task_of_a_broken_package_counts_as_a_failed_build() {
    let mut config = Config::new();
    config.set(
        krate("a"),
        CrateConfig { skip: false, skip_tests: false, quiet: false, broken: true },
    );
    let ex = experiment(&["a", "b"]);
    let mut db = ResultStore::new();
    let mut graph = build_graph(&ex, &config);
    let mut pool = Pool::new(1);
    let (id, task) = run(pool.next_action(0, &mut graph, &ex, &db));
    assert_eq!(id, 1);
    assert_eq!(failure_result(&config, &task), TestResult::BuildFail);
    let woken = pool.task_done(0, &task, Some("it broke"), &mut graph, &ex, &mut db, &config);
    assert!(woken.is_empty());
    assert_eq!(
        db.get_result(&ex, &krate("a"), &toolchain("stable")),
        Some(TestResult::BuildFail)
    );
    assert_eq!(db.get_result(&ex, &krate("a"), &toolchain("beta")), Some(TestResult::BuildFail));
    assert_eq!(db.get_result(&ex, &krate("b"), &toolchain("stable")), None);
    // The other package fails as an error.
    let (id, task) = run(pool.next_action(0, &mut graph, &ex, &db));
    assert_eq!(id, 5);
    assert_eq!(failure_result(&config, &task), TestResult::Error);
    pool.task_done(0, &task, Some("it broke"), &mut graph, &ex, &mut db, &config);
    assert_eq!(db.get_result(&ex, &krate("b"), &toolchain("beta")), Some(TestResult::Error));
    assert!(matches!(pool.next_action(0, &mut graph, &ex, &db), Action::Exit));
    assert!(pool.all_exited());
    assert!(run_is_complete(&mut graph, &ex, &db));
}

#[test]
fn a_failed_build_takes_only_itself_along() {
    let config = Config::new();
    let ex = experiment(&["a"]);
    let mut db = ResultStore::new();
    let mut graph = build_graph(&ex, &config);
    let mut pool = Pool::new(2);
    let (_, prepare) = run(pool.next_action(0, &mut graph, &ex, &db));
    pool.task_done(0, &prepare, None, &mut graph, &ex, &mut db, &config);
    let (first, stable) = run(pool.next_action(0, &mut graph, &ex, &db));
    let (second, _) = run(pool.next_action(1, &mut graph, &ex, &db));
    assert_eq!((first, second), (2, 3));
    pool.task_done(0, &stable, Some("timeout"), &mut graph, &ex, &mut db, &config);
    assert_eq!(db.get_result(&ex, &krate("a"), &toolchain("stable")), Some(TestResult::Error));
    assert_eq!(db.get_result(&ex, &krate("a"), &toolchain("beta")), None);
    // The other build is still running.
    assert!(graph.contains(3));
    assert!(!graph.contains(2));
    assert_eq!(pool.worker(1), Worker::Running(3));
}

#[test]
fn configuration_keeps_the_last_setting_of_a_package() {
    let mut config = Config::new();
    assert!(!config.should_skip(&krate("a")));
    assert!(!config.is_broken(&krate("a")));
    config.set(krate("a"), CrateConfig { skip: true, skip_tests: false, quiet: true, broken: false });
    config.set(krate("b"), CrateConfig { skip: false, skip_tests: true, quiet: false, broken: true });
    assert!(config.should_skip(&krate("a")));
    assert!(config.is_quiet(&krate("a")));
    assert!(!config.should_skip_tests(&krate("a")));
    assert!(config.should_skip_tests(&krate("b")));
    assert!(config.is_broken(&krate("b")));
    assert!(!config.should_skip(&krate("c")));
    config.set(krate("a"), CrateConfig { skip: false, skip_tests: false, quiet: false, broken: false });
    assert!(!config.should_skip(&krate("a")));
    assert!(config.is_broken(&krate("b")));
}

#[test]
fn target_directories_are_told_apart_by_experiment_toolchain_and_package() {
    let ex = experiment(&[]);
    let dir = target_dir(&ex, &toolchain("stable"), &krate("reg/serde/1.0.0"));
    assert_eq!(dir, vec!["ex", "ex-1", "target-dirs", "stable", "reg/serde/1.0.0"]);
    let other = target_dir(&ex, &toolchain("beta"), &krate("reg/serde/1.0.0"));
    assert_ne!(dir, other);
}

#[test]
fn recording_replaces_the_outcome_in_its_row() {
    let ex = experiment(&[]);
    let mut db = ResultStore::new();
    db.record_result(&ex, &krate("a"), &toolchain("stable"), TestResult::TestFail, "first");
    db.record_result(&ex, &krate("b"), &toolchain("stable"), TestResult::TestPass, "other");
    db.record_result(&ex, &krate("a"), &toolchain("stable"), TestResult::TestPass, "second");
    assert_eq!(db.len(), 2);
    assert_eq!(db.row(0).krate, krate("a"));
    assert_eq!(db.row(0).result, TestResult::TestPass);
    assert_eq!(db.row(0).log, "second");
    assert_eq!(db.row(1).krate, krate("b"));
    assert_eq!(db.get_result(&ex, &krate("a"), &toolchain("beta")), None);
    db.remove_experiment(&ex.name);
    assert_eq!(db.len(), 0);
}

#[test]
fn a_task_is_needed_while_its_outcome_is_missing() {
    let ex = experiment(&["a"]);
    let mut db = ResultStore::new();
    let prepare = Task { krate: krate("a"), step: TaskStep::Prepare };
    let stable = Task {
        krate: krate("a"),
        step: TaskStep::BuildOnly { tc: toolchain("stable"), quiet: false },
    };
    let beta = Task { krate: krate("a"), step: TaskStep::UnstableFeatures { tc: toolchain("beta") } };
    assert!(prepare.needs_exec(&ex, &db));
    assert!(stable.needs_exec(&ex, &db));
    stable.mark_as_failed(&ex, &mut db, "boom", TestResult::Error);
    assert!(!stable.needs_exec(&ex, &db));
    assert!(beta.needs_exec(&ex, &db));
    assert!(prepare.needs_exec(&ex, &db));
    prepare.mark_as_failed(&ex, &mut db, "boom", TestResult::Error);
    assert_eq!(db.len(), 1);
    beta.mark_as_failed(&ex, &mut db, "boom", TestResult::BuildFail);
    assert!(!beta.needs_exec(&ex, &db));
    assert!(!prepare.needs_exec(&ex, &db));
    assert_eq!(db.get_result(&ex, &krate("a"), &toolchain("beta")), Some(TestResult::BuildFail));
}
