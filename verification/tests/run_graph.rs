use crater::builder::build_graph;
use crater::config::{Config, CrateConfig};
use crater::crates::Crate;
use crater::db::ResultStore;
use crater::ex::{ExCapLints, ExMode, Experiment};
use crater::results::TestResult;
use crater::run_graph::{Node, TasksGraph, WalkResult};
use crater::tasks::{Task, TaskStep};
use crater::toolchain::Toolchain;

fn krate(id: &str) -> Crate {
    Crate::new(id.to_string())
}

fn toolchain(name: &str) -> Toolchain {
    Toolchain::new(name.to_string())
}

fn experiment(mode: ExMode, crates: &[&str]) -> Experiment {
    Experiment {
        name: "ex-1".to_string(),
        crates: crates.iter().map(|id| krate(id)).collect(),
        toolchains: [toolchain("stable"), toolchain("beta")],
        cap_lints: ExCapLints::Forbid,
        mode,
    }
}

fn flags(skip: bool, skip_tests: bool, quiet: bool, broken: bool) -> CrateConfig {
    CrateConfig { skip, skip_tests, quiet, broken }
}

/// Runs the graph with one worker: every task succeeds, and a build records
/// `TestPass`. Gives the tasks in the order in which they were handed out.
fn run_all(graph: &mut TasksGraph, ex: &Experiment, db: &mut ResultStore) -> Vec<Task> {
    let mut ran = Vec::new();
    loop {
        match graph.next_task(ex, db) {
            WalkResult::Task(id, task) => {
                if let Some(tc) = task.step.toolchain() {
                    db.record_result(ex, &task.krate, tc, TestResult::TestPass, "ok");
                }
                graph.mark_as_completed(id);
                ran.push(task);
            }
            WalkResult::Finished => break,
            other => panic!("one worker is never blocked: {:?}", other),
        }
    }
    ran
}

fn step_name(task: &Task) -> String {
    match &task.step {
        TaskStep::Prepare => format!("prepare {}", task.krate.id()),
        TaskStep::BuildAndTest { tc, quiet } => {
            format!("test {} {} {}", task.krate.id(), tc.to_string(), quiet)
        }
        TaskStep::BuildOnly { tc, quiet } => {
            format!("build {} {} {}", task.krate.id(), tc.to_string(), quiet)
        }
        TaskStep::CheckOnly { tc, quiet } => {
            format!("check {} {} {}", task.krate.id(), tc.to_string(), quiet)
        }
        TaskStep::UnstableFeatures { tc } => {
            format!("unstable {} {}", task.krate.id(), tc.to_string())
        }
    }
}

#[test]
fn new_graph_holds_only_its_root() {
    let mut graph = TasksGraph::new();
    assert_eq!(graph.node_count(), 1);
    assert_eq!(graph.root(), 0);
    assert!(matches!(graph.node(graph.root()), Some(Node::Root)));
    let ex = experiment(ExMode::BuildOnly, &[]);
    let db = ResultStore::new();
    assert!(graph.next_task(&ex, &db).is_finished());
}

#[test]
fn built_graph_has_four_nodes_for_each_package_and_the_root() {
    let config = Config::new();
    for k in 0..6 {
        let ids: Vec<String> = (0..k).map(|i| format!("crate-{}", i)).collect();
        let names: Vec<&str> = ids.iter().map(|s| s.as_str()).collect();
        let ex = experiment(ExMode::BuildAndTest, &names);
        let graph = build_graph(&ex, &config);
        assert_eq!(graph.node_count(), k * 3 + k + 1);
        assert_eq!(graph.nodes_added() as usize, 4 * k + 1);
        assert_eq!(graph.edges_added() as usize, 5 * k);
    }
}

#[test]
fn built_graph_leaves_out_skipped_packages() {
    let mut config = Config::new();
    config.set(krate("b"), flags(true, false, false, false));
    let ex = experiment(ExMode::BuildAndTest, &["a", "b", "c"]);
    let graph = build_graph(&ex, &config);
    assert_eq!(graph.node_count(), 9);
    // The third package takes the indices that follow those of the first.
    match graph.node(5) {
        Some(Node::Task { task, running }) => {
            assert_eq!(step_name(task), "prepare c");
            assert!(!running);
        }
        other => panic!("unexpected node: {:?}", other),
    }
    assert!(matches!(graph.node(8), Some(Node::CrateCompleted)));
    assert!(graph.node(9).is_none());
}

#[test]
fn built_graph_picks_the_step_by_mode_and_configuration() {
    let mut config = Config::new();
    config.set(krate("b"), flags(false, true, true, false));
    let ex = experiment(ExMode::BuildAndTest, &["a", "b"]);
    let graph = build_graph(&ex, &config);
    let names: Vec<String> = (1..9)
        .map(|id| match graph.node(id) {
            Some(Node::Task { task, .. }) => step_name(task),
            Some(Node::CrateCompleted) => "completed".to_string(),
            other => panic!("unexpected node: {:?}", other),
        })
        .collect();
    assert_eq!(
        names,
        vec![
            "prepare a",
            "test a stable false",
            "test a beta false",
            "completed",
            "prepare b",
            "build b stable true",
            "build b beta true",
            "completed",
        ]
    );
    let check = build_graph(&experiment(ExMode::CheckOnly, &["a"]), &config);
    assert_eq!(step_name(match check.node(2) {
        Some(Node::Task { task, .. }) => task,
        other => panic!("unexpected node: {:?}", other),
    }), "check a stable false");
    let unstable = build_graph(&experiment(ExMode::UnstableFeatures, &["a"]), &config);
    assert_eq!(step_name(match unstable.node(3) {
        Some(Node::Task { task, .. }) => task,
        other => panic!("unexpected node: {:?}", other),
    }), "unstable a beta");
    let build = build_graph(&experiment(ExMode::BuildOnly, &["a"]), &config);
    assert_eq!(step_name(match build.node(2) {
        Some(Node::Task { task, .. }) => task,
        other => panic!("unexpected node: {:?}", other),
    }), "build a stable false");
}

#[test]
fn tasks_are_handed_out_in_the_order_of_the_packages() {
    let config = Config::new();
    let ex = experiment(ExMode::BuildOnly, &["a", "b"]);
    let mut graph = build_graph(&ex, &config);
    let mut db = ResultStore::new();
    let ran = run_all(&mut graph, &ex, &mut db);
    let names: Vec<String> = ran.iter().map(step_name).collect();
    assert_eq!(
        names,
        vec![
            "prepare a",
            "build a stable false",
            "build a beta false",
            "prepare b",
            "build b stable false",
            "build b beta false",
        ]
    );
    // Only the root is left, and every build has recorded its outcome.
    assert_eq!(graph.node_count(), 1);
    assert_eq!(db.len(), 4);
    assert_eq!(db.count(&ex.name), 2 * 2);
    assert!(graph.next_task(&ex, &db).is_finished());
}

#[test]
fn a_full_run_records_two_outcomes_for_each_kept_package() {
    let mut config = Config::new();
    config.set(krate("c"), flags(true, false, false, false));
    let ex = experiment(ExMode::BuildAndTest, &["a", "b", "c", "d"]);
    let mut graph = build_graph(&ex, &config);
    let mut db = ResultStore::new();
    run_all(&mut graph, &ex, &mut db);
    assert_eq!(db.count(&ex.name), 2 * 3);
    assert_eq!(db.count_crate(&ex.name, &krate("c")), 0);
    assert_eq!(db.count_crate(&ex.name, &krate("d")), 2);
}

#[test]
fn a_running_task_is_not_handed_out_again() {
    let config = Config::new();
    let ex = experiment(ExMode::BuildOnly, &["a"]);
    let mut graph = build_graph(&ex, &config);
    let db = ResultStore::new();
    let first = graph.next_task(&ex, &db);
    let id = match first {
        WalkResult::Task(id, task) => {
            assert_eq!(step_name(&task), "prepare a");
            id
        }
        other => panic!("unexpected answer: {:?}", other),
    };
    assert_eq!(id, 1);
    assert!(matches!(graph.node(id), Some(Node::Task { running: true, .. })));
    // Everything else waits for the preparation.
    assert!(matches!(graph.next_task(&ex, &db), WalkResult::Blocked));
    assert!(matches!(graph.next_task(&ex, &db), WalkResult::Blocked));
    graph.mark_as_completed(id);
    // Both builds can now run side by side.
    assert!(matches!(graph.next_task(&ex, &db), WalkResult::Task(2, _)));
    assert!(matches!(graph.next_task(&ex, &db), WalkResult::Task(3, _)));
    assert!(matches!(graph.next_task(&ex, &db), WalkResult::Blocked));
    graph.mark_as_completed(3);
    assert!(matches!(graph.next_task(&ex, &db), WalkResult::Blocked));
    graph.mark_as_completed(2);
    assert!(graph.next_task(&ex, &db).is_finished());
    assert_eq!(graph.node_count(), 1);
}

#[test]
fn resume_runs_only_what_is_missing() {
    let config = Config::new();
    let ex = experiment(ExMode::BuildOnly, &["a", "b"]);
    let mut db = ResultStore::new();
    db.record_result(&ex, &krate("a"), &toolchain("stable"), TestResult::TestPass, "");
    db.record_result(&ex, &krate("a"), &toolchain("beta"), TestResult::TestFail, "");
    db.record_result(&ex, &krate("b"), &toolchain("stable"), TestResult::TestPass, "");
    let mut graph = build_graph(&ex, &config);
    let ran = run_all(&mut graph, &ex, &mut db);
    let names: Vec<String> = ran.iter().map(step_name).collect();
    assert_eq!(names, vec!["prepare b", "build b beta false"]);
    assert_eq!(db.count(&ex.name), 4);
    // The outcome recorded before the restart is kept.
    assert_eq!(
        db.get_result(&ex, &krate("a"), &toolchain("beta")),
        Some(TestResult::TestFail)
    );
    // The preparation of the finished package was never needed.
    let prepare_a = Task { krate: krate("a"), step: TaskStep::Prepare };
    assert!(!prepare_a.needs_exec(&ex, &db));
}

#[test]
fn failure_cascade_records_an_error_for_each_build_of_the_package() {
    let config = Config::new();
    let ex = experiment(ExMode::BuildOnly, &["a", "b"]);
    let mut db = ResultStore::new();
    let mut graph = build_graph(&ex, &config);
    let id = match graph.next_task(&ex, &db) {
        WalkResult::Task(id, _) => id,
        other => panic!("unexpected answer: {:?}", other),
    };
    assert_eq!(id, 1);
    graph.mark_as_failed(id, &ex, &mut db, "no such package", TestResult::Error);
    assert_eq!(
        db.get_result(&ex, &krate("a"), &toolchain("stable")),
        Some(TestResult::Error)
    );
    assert_eq!(db.get_result(&ex, &krate("a"), &toolchain("beta")), Some(TestResult::Error));
    assert_eq!(db.get_result(&ex, &krate("b"), &toolchain("stable")), None);
    assert_eq!(db.get_result(&ex, &krate("b"), &toolchain("beta")), None);
    assert_eq!(db.count(&ex.name), 2);
    // The dependent added last failed first.
    assert_eq!(db.row(0).toolchain.to_string(), "beta");
    assert_eq!(db.row(0).log, "no such package");
    assert_eq!(db.row(1).toolchain.to_string(), "stable");
    // The three tasks of the package are gone; its own node and the other
    // package are still there.
    assert!(!graph.contains(1));
    assert!(!graph.contains(2));
    assert!(!graph.contains(3));
    assert!(graph.contains(4));
    assert_eq!(graph.node_count(), 1 + 1 + 4);
    let ran = run_all(&mut graph, &ex, &mut db);
    let names: Vec<String> = ran.iter().map(step_name).collect();
    assert_eq!(names, vec!["prepare b", "build b stable false", "build b beta false"]);
    assert_eq!(graph.node_count(), 1);
    assert_eq!(db.count(&ex.name), 4);
}

#[test]
fn mark_as_completed_takes_out_the_node_that_it_is_given() {
    let config = Config::new();
    let ex = experiment(ExMode::BuildOnly, &["a"]);
    let mut graph = build_graph(&ex, &config);
    // An index that the graph does not hold: nothing changes.
    graph.mark_as_completed(77);
    assert_eq!(graph.node_count(), 5);
    assert_eq!(graph.neighbors(4), vec![3, 2]);
    // A node leaves with the edges that touch it; the others stay.
    graph.mark_as_completed(2);
    assert!(!graph.contains(2));
    assert_eq!(graph.node_count(), 4);
    assert_eq!(graph.neighbors(4), vec![3]);
    assert_eq!(graph.neighbors(3), vec![1]);
    assert!(matches!(graph.node(1), Some(Node::Task { running: false, .. })));
    // The root is a node like any other.
    let root = graph.root();
    graph.mark_as_completed(root);
    assert!(!graph.contains(root));
    assert_eq!(graph.node_count(), 3);
    assert!(graph.contains(4));
    assert!(graph.neighbors(root).is_empty());
}

#[test]
fn dot_names_every_node() {
    let config = Config::new();
    let ex = experiment(ExMode::BuildOnly, &["a"]);
    let graph = build_graph(&ex, &config);
    let text = graph.dot();
    assert!(text.starts_with("digraph {"));
    assert!(text.contains("    0 -> 4"));
    assert!(text.contains("    4 -> 2"));
    assert!(text.contains("    2 -> 1"));
}

#[test]
fn the_default_graph_is_a_new_graph() {
    let graph = TasksGraph::default();
    assert_eq!(graph.node_count(), 1);
    assert!(matches!(graph.node(graph.root()), Some(Node::Root)));
    assert!(graph.neighbors(graph.root()).is_empty());
}

#[test]
fn tasks_can_be_added_by_hand() {
    let mut graph = TasksGraph::new();
    let ex = experiment(ExMode::BuildOnly, &["a"]);
    let db = ResultStore::new();
    let first = graph.add_task(Task { krate: krate("a"), step: TaskStep::Prepare }, &[]);
    let second = graph.add_task(
        Task { krate: krate("a"), step: TaskStep::CheckOnly { tc: toolchain("stable"), quiet: true } },
        &[first],
    );
    let third = graph.add_task(
        Task { krate: krate("a"), step: TaskStep::CheckOnly { tc: toolchain("beta"), quiet: true } },
        &[first, second],
    );
    let completed = graph.add_crate(&[second, third]);
    assert_eq!((first, second, third, completed), (1, 2, 3, 4));
    // The dependency added last comes first.
    assert_eq!(graph.neighbors(third), vec![second, first]);
    assert_eq!(graph.neighbors(graph.root()), vec![completed]);
    assert_eq!(graph.nodes_added(), 5);
    assert_eq!(graph.edges_added(), 6);
    assert!(matches!(graph.next_task(&ex, &db), WalkResult::Task(1, _)));
    graph.mark_as_completed(1);
    assert!(matches!(graph.next_task(&ex, &db), WalkResult::Task(2, _)));
    // The third task waits for the second.
    assert!(matches!(graph.next_task(&ex, &db), WalkResult::Blocked));
    graph.mark_as_completed(2);
    assert!(matches!(graph.next_task(&ex, &db), WalkResult::Task(3, _)));
    graph.mark_as_completed(3);
    assert!(graph.next_task(&ex, &db).is_finished());
    // A freed index is used again.
    let again = graph.add_task(Task { krate: krate("b"), step: TaskStep::Prepare }, &[]);
    assert!(graph.contains(again));
    assert_eq!(graph.node_count(), 2);
}

#[test]
fn failing_a_node_that_is_not_there_changes_nothing() {
    let config = Config::new();
    let ex = experiment(ExMode::BuildOnly, &["a"]);
    let mut db = ResultStore::new();
    let mut graph = build_graph(&ex, &config);
    graph.mark_as_failed(99, &ex, &mut db, "nothing", TestResult::Error);
    assert_eq!(graph.node_count(), 5);
    assert_eq!(db.len(), 0);
    // Giving up the root or the node of a package takes nothing away.
    let root = graph.root();
    graph.mark_as_failed(root, &ex, &mut db, "nothing", TestResult::Error);
    graph.mark_as_failed(4, &ex, &mut db, "nothing", TestResult::Error);
    assert_eq!(graph.node_count(), 5);
    assert_eq!(db.len(), 0);
}

#[test]
fn every_task_hangs_from_the_root_through_the_node_of_its_package() {
    let config = Config::new();
    let ex = experiment(ExMode::BuildOnly, &["a", "b"]);
    let graph = build_graph(&ex, &config);
    // The root depends on the nodes of the packages and on nothing else.
    assert_eq!(graph.neighbors(0), vec![8, 4]);
    for package in 0..2u32 {
        let prepare = 4 * package + 1;
        let completed = 4 * package + 4;
        assert!(matches!(graph.node(completed), Some(Node::CrateCompleted)));
        // The node of the package depends on the two builds, which depend on
        // the preparation, which depends on nothing.
        assert_eq!(graph.neighbors(completed), vec![prepare + 2, prepare + 1]);
        assert_eq!(graph.neighbors(prepare + 1), vec![prepare]);
        assert_eq!(graph.neighbors(prepare + 2), vec![prepare]);
        assert!(graph.neighbors(prepare).is_empty());
    }
}

#[test]
fn dot_writes_the_nodes_and_then_the_edges_in_the_order_of_adding() {
    let config = Config::new();
    let ex = experiment(ExMode::BuildOnly, &["a"]);
    let graph = build_graph(&ex, &config);
    let prepare = "Task { task: Task { krate: Crate { id: \\\"a\\\" }, step: Prepare }, running: false }";
    let build = |tc: &str| {
        format!(
            "Task {{ task: Task {{ krate: Crate {{ id: \\\"a\\\" }}, step: BuildOnly {{ tc: Toolchain {{ name: \\\"{}\\\" }}, quiet: false }} }}, running: false }}",
            tc
        )
    };
    let expected = format!(
        "digraph {{\n    0 [label=\"Root\"]\n    1 [label=\"{}\"]\n    2 [label=\"{}\"]\n    3 [label=\"{}\"]\n    4 [label=\"CrateCompleted\"]\n    2 -> 1 [label=\"()\"]\n    3 -> 1 [label=\"()\"]\n    4 -> 2 [label=\"()\"]\n    4 -> 3 [label=\"()\"]\n    0 -> 4 [label=\"()\"]\n}}\n",
        prepare,
        build("stable"),
        build("beta")
    );
    assert_eq!(graph.dot(), expected);
}

#[test]
fn dot_shows_what_is_left_of_the_graph() {
    let config = Config::new();
    let ex = experiment(ExMode::BuildOnly, &["a"]);
    let mut graph = build_graph(&ex, &config);
    for id in [1, 2, 3] {
        graph.mark_as_completed(id);
    }
    assert_eq!(
        graph.dot(),
        "digraph {\n    0 [label=\"Root\"]\n    4 [label=\"CrateCompleted\"]\n    0 -> 4 [label=\"()\"]\n}\n"
    );
    // A new edge takes a slot that an edge has left: the text names it
    // before the older edge.
    let added = graph.add_crate(&[]);
    assert_eq!(
        graph.dot(),
        format!(
            "digraph {{\n    0 [label=\"Root\"]\n    {0} [label=\"CrateCompleted\"]\n    4 [label=\"CrateCompleted\"]\n    0 -> {0} [label=\"()\"]\n    0 -> 4 [label=\"()\"]\n}}\n",
            added
        )
    );
    assert_eq!(graph.neighbors(0), vec![added, 4]);
}
