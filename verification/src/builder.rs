use vstd::prelude::*;
use crate::built_lemmas::{built_shape, built_tasks, lemma_built, lemma_built_tasks};
use crate::config::Config;
use crate::crates::Crate;
use crate::ex::{ExMode, Experiment};
use crate::graph_lemmas::covered;
use crate::run_graph::{GraphView, Node, NodeId, TasksGraph};
use crate::tasks::{Task, TaskStep};
use crate::toolchain::Toolchain;

verus! {

/// The step that builds a package under `tc`, by the mode of the experiment
/// and by whether the tests of the package are left out.
pub open spec fn spec_build_step(mode: ExMode, skip_tests: bool, quiet: bool, tc: Toolchain) -> TaskStep {
    match mode {
        ExMode::BuildOnly => TaskStep::BuildOnly { tc, quiet },
        ExMode::BuildAndTest => if skip_tests {
            TaskStep::BuildOnly { tc, quiet }
        } else {
            TaskStep::BuildAndTest { tc, quiet }
        },
        ExMode::CheckOnly => TaskStep::CheckOnly { tc, quiet },
        ExMode::UnstableFeatures => TaskStep::UnstableFeatures { tc },
    }
}

/// The step that builds a package under `tc`.
pub fn build_step(mode: ExMode, skip_tests: bool, quiet: bool, tc: &Toolchain) -> (step: TaskStep)
    ensures
        step == spec_build_step(mode, skip_tests, quiet, *tc),
{
    match mode {
        ExMode::BuildOnly => TaskStep::BuildOnly { tc: tc.clone(), quiet },
        ExMode::BuildAndTest => if skip_tests {
            TaskStep::BuildOnly { tc: tc.clone(), quiet }
        } else {
            TaskStep::BuildAndTest { tc: tc.clone(), quiet }
        },
        ExMode::CheckOnly => TaskStep::CheckOnly { tc: tc.clone(), quiet },
        ExMode::UnstableFeatures => TaskStep::UnstableFeatures { tc: tc.clone() },
    }
}

/// The packages that the configuration does not leave out, in order.
pub open spec fn kept(crates: Seq<Crate>, config: &Config) -> Seq<Crate>
    decreases crates.len(),
{
    if crates.len() == 0 {
        Seq::empty()
    } else if config.flags(crates.last()@).skip {
        kept(crates.drop_last(), config)
    } else {
        kept(crates.drop_last(), config).push(crates.last())
    }
}

/// The graph that holds its root, under the index 0, and nothing else.
pub open spec fn initial_graph() -> GraphView {
    GraphView {
        nodes: Map::empty().insert(0u32, Node::Root),
        edges: Seq::empty(),
        root: 0,
        rank: Map::empty(),
        nodes_added: 1,
        edges_added: 0,
    }
}

/// The task that builds `krate` under the toolchain `which` of `ex`.
pub open spec fn build_task(krate: Crate, ex: &Experiment, config: &Config, which: int) -> Node {
    Node::Task {
        task: Task {
            krate: krate,
            step: spec_build_step(
                ex.mode,
                config.flags(krate@).skip_tests,
                config.flags(krate@).quiet,
                ex.toolchains[which],
            ),
        },
        running: false,
    }
}

/// The graph `g` with the four nodes of one more package, under the next
/// four indices: the preparation, which depends on nothing; the build under
/// each toolchain, which depends on the preparation; and the node of the
/// package, which depends on both builds and hangs from the root.
pub open spec fn with_crate(g: GraphView, krate: Crate, ex: &Experiment, config: &Config) -> GraphView {
    let prepare = g.nodes_added as NodeId;
    let first = (g.nodes_added + 1) as NodeId;
    let second = (g.nodes_added + 2) as NodeId;
    let completed = (g.nodes_added + 3) as NodeId;
    g.add(
        prepare,
        Node::Task { task: Task { krate: krate, step: TaskStep::Prepare }, running: false },
        Seq::empty(),
    ).add(first, build_task(krate, ex, config, 0), seq![prepare]).add(
        second,
        build_task(krate, ex, config, 1),
        seq![prepare],
    ).add(completed, Node::CrateCompleted, seq![first, second]).hang(completed)
}

/// The graph of the packages `crates`, each with its four nodes, in order.
pub open spec fn graph_of(crates: Seq<Crate>, ex: &Experiment, config: &Config) -> GraphView
    decreases crates.len(),
{
    if crates.len() == 0 {
        initial_graph()
    } else {
        with_crate(graph_of(crates.drop_last(), ex, config), crates.last(), ex, config)
    }
}

/// Builds the graph of the tasks of `ex`: four nodes for each package that
/// the configuration does not leave out, in the order of the packages, and
/// the root. The indices are those of `graph_of`: the root is 0, and the
/// package that comes `j`-th among those kept, counting from 0, has its
/// preparation under 4j + 1, its builds under 4j + 2 and 4j + 3, and its
/// own node under 4j + 4. So the graph holds one root, and for each
/// package kept one node of the package, one preparation and two builds;
/// an edge that leaves the root enters the node of a package, and every
/// other edge stays within one package.
///
/// The packages are limited in number because the graph counts its nodes
/// and edges in 32 bits.
pub fn build_graph(ex: &Experiment, config: &Config) -> (graph: TasksGraph)
    requires
        5 * ex.crates@.len() <= u32::MAX,
    ensures
        graph.wf(),
        graph@ == graph_of(kept(ex.crates@, config), ex, config),
        graph@.nodes.dom().len() == 4 * kept(ex.crates@, config).len() + 1,
        graph@.edges.len() == graph@.edges_added,
        built_shape(graph@, kept(ex.crates@, config).len()),
        built_tasks(graph@, kept(ex.crates@, config), ex, config),
        covered(graph@),
{
    let mut graph = TasksGraph::new();
    assert(graph@ =~= initial_graph());
    assert(graph@.nodes.dom() =~= Set::empty().insert(0u32));
    let mut i: usize = 0;
    assert(ex.crates@.take(0) =~= Seq::empty());
    while i < ex.crates.len()
        invariant
            i <= ex.crates.len(),
            5 * ex.crates@.len() <= u32::MAX,
            graph.wf(),
            kept(ex.crates@.take(i as int), config).len() <= i,
            graph@ == graph_of(kept(ex.crates@.take(i as int), config), ex, config),
            graph@.nodes.dom().finite(),
            graph@.nodes.dom().len() == graph@.nodes_added,
            graph@.nodes_added == 4 * kept(ex.crates@.take(i as int), config).len() + 1,
            graph@.edges_added == 5 * kept(ex.crates@.take(i as int), config).len(),
            graph@.edges.len() == graph@.edges_added,
        decreases ex.crates.len() - i,
    {
        let krate = &ex.crates[i];
        let ghost before = graph@;
        let ghost done = kept(ex.crates@.take(i as int), config);
        proof {
            assert(ex.crates@.take(i + 1).drop_last() =~= ex.crates@.take(i as int));
        }
        if !config.should_skip(krate) {
            let no_deps: Vec<NodeId> = Vec::new();
            let prepare_id = graph.add_task(
                Task { krate: krate.clone(), step: TaskStep::Prepare },
                no_deps.as_slice(),
            );
            let skip_tests = config.should_skip_tests(krate);
            let quiet = config.is_quiet(krate);
            let on_prepare: Vec<NodeId> = vec![prepare_id];
            let first = graph.add_task(
                Task {
                    krate: krate.clone(),
                    step: build_step(ex.mode, skip_tests, quiet, &ex.toolchains[0]),
                },
                on_prepare.as_slice(),
            );
            let second = graph.add_task(
                Task {
                    krate: krate.clone(),
                    step: build_step(ex.mode, skip_tests, quiet, &ex.toolchains[1]),
                },
                on_prepare.as_slice(),
            );
            let builds: Vec<NodeId> = vec![first, second];
            graph.add_crate(builds.as_slice());
            proof {
                assert(no_deps@ =~= Seq::empty());
                assert(on_prepare@ =~= seq![prepare_id]);
                assert(builds@ =~= seq![first, second]);
                assert(kept(ex.crates@.take(i + 1), config).drop_last() =~= done);
                assert(graph@ == with_crate(before, *krate, ex, config));
            }
        }
        i += 1;
    }
    assert(ex.crates@.take(ex.crates@.len() as int) =~= ex.crates@);
    proof {
        lemma_built(kept(ex.crates@, config), ex, config);
        lemma_built_tasks(kept(ex.crates@, config), ex, config);
    }
    graph
}

} // verus!
