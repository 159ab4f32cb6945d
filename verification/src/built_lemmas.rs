use vstd::prelude::*;
use crate::builder::{build_task, graph_of, initial_graph, with_crate};
use crate::config::Config;
use crate::crates::Crate;
use crate::ex::Experiment;
use crate::graph_lemmas::{
    all_needed, covered, has_edge, is_path, lemma_run_alone, run_alone, some_running,
};
use crate::run_graph::{GraphView, Node, NodeId};
use crate::tasks::{Task, TaskStep};

verus! {

/// The package that the node `id` of a built graph belongs to, counted
/// from 0 among the packages that were kept.
pub open spec fn package_of(id: NodeId) -> int {
    (id - 1) / 4
}

/// The node that stands for the package of the node `id` of a built graph.
pub open spec fn completed_of(id: NodeId) -> int {
    4 * package_of(id) + 4
}

/// The shape of a graph that was built for `count` packages: the root is
/// 0, and of the four nodes of each package, under the next four indices,
/// the last stands for the package and the others are tasks. An edge that
/// leaves the root enters the node of a package; every other edge joins
/// two nodes of one package.
pub open spec fn built_shape(g: GraphView, count: nat) -> bool {
    &&& g.root == 0
    &&& g.nodes_added == 4 * count + 1
    &&& g.edges_added == 5 * count
    &&& forall|id: NodeId| #[trigger] g.contains(id) <==> id <= 4 * count
    &&& forall|id: NodeId|
        1 <= id <= 4 * count ==> (if id % 4 == 0 {
            #[trigger] g.nodes[id] is CrateCompleted
        } else {
            g.nodes[id] is Task && !g.nodes[id]->running
        }) && g.rank.dom().contains(id) && g.rank[id] == id
    &&& forall|i: int|
        0 <= i < g.edges.len() ==> {
            let e = #[trigger] g.edges[i];
            if e.0 == 0 {
                e.1 >= 1 && e.1 % 4 == 0
            } else {
                e.1 >= 1 && e.1 < e.0 && package_of(e.0) == package_of(e.1)
            }
        }
}

/// One more package keeps the shape of a built graph, and keeps the graph
/// well formed and hanging from its root.
pub proof fn lemma_with_crate(
    g: GraphView,
    count: nat,
    krate: Crate,
    ex: &Experiment,
    config: &Config,
)
    requires
        built_shape(g, count),
        g.wf(),
        covered(g),
        4 * count + 4 <= u32::MAX,
    ensures
        built_shape(with_crate(g, krate, ex, config), count + 1),
        with_crate(g, krate, ex, config).wf(),
        covered(with_crate(g, krate, ex, config)),
        with_crate(g, krate, ex, config).nodes.dom() =~= g.nodes.dom().insert(
            (4 * count + 1) as NodeId,
        ).insert((4 * count + 2) as NodeId).insert((4 * count + 3) as NodeId).insert(
            (4 * count + 4) as NodeId,
        ),
{
    let h = with_crate(g, krate, ex, config);
    let prepare = (4 * count + 1) as NodeId;
    let first = (4 * count + 2) as NodeId;
    let second = (4 * count + 3) as NodeId;
    let completed = (4 * count + 4) as NodeId;
    let added = seq![
        (first, prepare),
        (second, prepare),
        (completed, first),
        (completed, second),
        (0u32, completed),
    ];
    assert(h.edges =~= g.edges + added);
    assert(h.nodes_added == 4 * count + 5);
    assert(h.root == 0);
    assert(package_of(prepare) == count && package_of(first) == count && package_of(second)
        == count && package_of(completed) == count);
    assert forall|id: NodeId| #[trigger] h.contains(id) <==> id <= 4 * (count + 1) by {
        assert(g.contains(id) <==> id <= 4 * count);
    }
    assert forall|id: NodeId| 1 <= id <= 4 * (count + 1) implies (if id % 4 == 0 {
        #[trigger] h.nodes[id] is CrateCompleted
    } else {
        h.nodes[id] is Task && !h.nodes[id]->running
    }) && h.rank.dom().contains(id) && h.rank[id] == id by {
        if id <= 4 * count {
            assert(h.nodes[id] == g.nodes[id]);
            assert(g.nodes[id] is CrateCompleted || g.nodes[id] is Task);
        }
    }
    assert forall|i: int| 0 <= i < h.edges.len() implies {
        let e = #[trigger] h.edges[i];
        if e.0 == 0 {
            e.1 >= 1 && e.1 % 4 == 0
        } else {
            e.1 >= 1 && e.1 < e.0 && package_of(e.0) == package_of(e.1)
        }
    } by {
        if i < g.edges.len() {
            assert(h.edges[i] == g.edges[i]);
        } else {
            assert(h.edges[i] == added[i - g.edges.len()]);
        }
    }
    assert forall|n: NodeId| h.contains(n) && n != h.root implies !(#[trigger] h.nodes[n] is Root)
        && h.rank.dom().contains(n) && h.rank[n] < h.nodes_added by {
        if n <= 4 * count {
            assert(g.contains(n));
            assert(h.nodes[n] == g.nodes[n]);
            assert(!(g.nodes[n] is Root));
        }
    }
    assert forall|i: int| 0 <= i < h.edges.len() implies h.edge_ok(#[trigger] h.edges[i]) by {
        if i < g.edges.len() {
            assert(h.edges[i] == g.edges[i]);
            assert(g.edge_ok(g.edges[i]));
            let e = g.edges[i];
            assert(g.contains(e.0) && g.contains(e.1));
            assert(h.nodes[e.0] == g.nodes[e.0]);
        } else {
            assert(h.edges[i] == added[i - g.edges.len()]);
        }
    }
    assert(h.nodes[h.root] == g.nodes[g.root]);
    assert(h.wf());
    assert forall|n: NodeId| #[trigger] h.contains(n) && n != h.root implies exists|i: int|
        0 <= i < h.edges.len() && (#[trigger] h.edges[i]).1 == n by {
        if n <= 4 * count {
            assert(g.contains(n));
            let i = choose|i: int| 0 <= i < g.edges.len() && (#[trigger] g.edges[i]).1 == n;
            assert(h.edges[i] == g.edges[i]);
        } else if n == prepare {
            assert(h.edges[g.edges.len() as int] == added[0]);
        } else if n == first {
            assert(h.edges[g.edges.len() as int + 2] == added[2]);
        } else if n == second {
            assert(h.edges[g.edges.len() as int + 3] == added[3]);
        } else {
            assert(h.edges[g.edges.len() as int + 4] == added[4]);
        }
    }
}

/// A built graph is well formed, has the shape of a built graph, and hangs
/// from its root. It holds four nodes for each package, and the root.
pub proof fn lemma_built(crates: Seq<Crate>, ex: &Experiment, config: &Config)
    requires
        4 * crates.len() <= u32::MAX,
    ensures
        built_shape(graph_of(crates, ex, config), crates.len()),
        graph_of(crates, ex, config).wf(),
        covered(graph_of(crates, ex, config)),
        graph_of(crates, ex, config).nodes.dom().finite(),
        graph_of(crates, ex, config).nodes.dom().len() == crates.len() * 3 + crates.len() + 1,
    decreases crates.len(),
{
    if crates.len() == 0 {
        let g = initial_graph();
        assert(g.nodes.dom() =~= Set::empty().insert(0u32));
        assert forall|id: NodeId| #[trigger] g.contains(id) <==> id <= 0 by {}
    } else {
        let front = crates.drop_last();
        lemma_built(front, ex, config);
        let g = graph_of(front, ex, config);
        lemma_with_crate(g, front.len(), crates.last(), ex, config);
        assert(!g.contains((4 * front.len() + 1) as NodeId));
        assert(!g.contains((4 * front.len() + 2) as NodeId));
        assert(!g.contains((4 * front.len() + 3) as NodeId));
        assert(!g.contains((4 * front.len() + 4) as NodeId));
    }
}

/// Along a chain of edges from the root of a built graph, every node after
/// the first two belongs to the package that the second stands for.
proof fn lemma_path_stays(g: GraphView, count: nat, path: Seq<NodeId>, k: int)
    requires
        built_shape(g, count),
        is_path(g, path),
        path[0] == g.root,
        1 <= k < path.len(),
    ensures
        path[k] >= 1,
        path[1] % 4 == 0,
        package_of(path[k]) == package_of(path[1]),
    decreases k,
{
    if k == 1 {
        assert(has_edge(g.edges, (path[0], path[1])));
    } else {
        lemma_path_stays(g, count, path, k - 1);
        assert(has_edge(g.edges, (path[k - 1], path[k - 1 + 1])));
    }
}

/// In a built graph, every chain of edges from the root to a task passes,
/// right after the root, through the node that stands for the package of
/// the task.
pub proof fn lemma_path_to_task(g: GraphView, count: nat, path: Seq<NodeId>)
    requires
        g.wf(),
        built_shape(g, count),
        is_path(g, path),
        path[0] == g.root,
        g.contains(path.last()),
        g.nodes[path.last()] is Task,
    ensures
        path.len() >= 3,
        path[1] == completed_of(path.last()),
        g.contains(path[1]),
        g.nodes[path[1]] is CrateCompleted,
{
    assert(g.contains(path.last()) <==> path.last() <= 4 * count);
    // The root is no task, so the chain has an edge.
    assert(path.len() >= 2);
    lemma_path_stays(g, count, path, path.len() - 1);
    assert(has_edge(g.edges, (path[0], path[1])));
    let i = choose|i: int| 0 <= i < g.edges.len() && #[trigger] g.edges[i] == (path[0], path[1]);
    assert(g.edges[i].0 == 0);
    assert(path[1] % 4 == 0);
    assert(path.last() >= 1);
    assert(path.last() % 4 != 0);
    assert(g.contains(path[1]) <==> path[1] <= 4 * count);
    assert(path.len() >= 3);
}

/// A built graph in which every task is needed is run to its end by one
/// worker that completes what it is handed: only the root is left.
pub proof fn lemma_built_runs_to_the_end(
    crates: Seq<Crate>,
    ex: &Experiment,
    config: &Config,
    needs: spec_fn(Task) -> bool,
)
    requires
        4 * crates.len() <= u32::MAX,
        all_needed(graph_of(crates, ex, config), needs),
    ensures
        run_alone(graph_of(crates, ex, config), needs, 4 * crates.len() + 1).nodes.dom()
            =~= Set::empty().insert(0u32),
{
    let g = graph_of(crates, ex, config);
    lemma_built(crates, ex, config);
    assert(!some_running(g)) by {
        if some_running(g) {
            let n = choose|n: NodeId| #[trigger] g.is_running(n);
            assert(g.contains(n) <==> n <= 4 * crates.len());
            assert(n >= 1);
            assert(!g.nodes[n]->running);
        }
    }
    lemma_run_alone(g, needs, 4 * crates.len() + 1);
}

/// The index of the preparation of the `j`-th package of a built graph.
pub open spec fn prepare_id(j: int) -> NodeId {
    (4 * j + 1) as NodeId
}

/// The index of the build of the `j`-th package of a built graph under the
/// toolchain `which`, 0 or 1, of the experiment.
pub open spec fn build_id(j: int, which: int) -> NodeId {
    (4 * j + 2 + which) as NodeId
}

/// The tasks of a graph that was built for the packages `crates`: each
/// package has its preparation and its two builds, and each build depends
/// on the preparation.
pub open spec fn built_tasks(g: GraphView, crates: Seq<Crate>, ex: &Experiment, config: &Config) -> bool {
    forall|j: int|
        #![trigger crates[j]]
        0 <= j < crates.len() ==> {
            &&& g.nodes[prepare_id(j)] == (Node::Task {
                task: Task { krate: crates[j], step: TaskStep::Prepare },
                running: false,
            })
            &&& g.nodes[build_id(j, 0)] == build_task(crates[j], ex, config, 0)
            &&& g.nodes[build_id(j, 1)] == build_task(crates[j], ex, config, 1)
            &&& has_edge(g.edges, (build_id(j, 0), prepare_id(j)))
            &&& has_edge(g.edges, (build_id(j, 1), prepare_id(j)))
        }
}

/// A built graph holds the tasks of its packages.
pub proof fn lemma_built_tasks(crates: Seq<Crate>, ex: &Experiment, config: &Config)
    requires
        4 * crates.len() <= u32::MAX,
    ensures
        built_tasks(graph_of(crates, ex, config), crates, ex, config),
    decreases crates.len(),
{
    if crates.len() > 0 {
        let front = crates.drop_last();
        lemma_built_tasks(front, ex, config);
        lemma_built(front, ex, config);
        let g = graph_of(front, ex, config);
        let h = graph_of(crates, ex, config);
        let count = front.len() as int;
        let added = seq![
            (build_id(count, 0), prepare_id(count)),
            (build_id(count, 1), prepare_id(count)),
            (((4 * count + 4) as NodeId), build_id(count, 0)),
            (((4 * count + 4) as NodeId), build_id(count, 1)),
            (0u32, ((4 * count + 4) as NodeId)),
        ];
        assert(h.edges =~= g.edges + added);
        assert forall|j: int| #![trigger crates[j]] 0 <= j < crates.len() implies {
            &&& h.nodes[prepare_id(j)] == (Node::Task {
                task: Task { krate: crates[j], step: TaskStep::Prepare },
                running: false,
            })
            &&& h.nodes[build_id(j, 0)] == build_task(crates[j], ex, config, 0)
            &&& h.nodes[build_id(j, 1)] == build_task(crates[j], ex, config, 1)
            &&& has_edge(h.edges, (build_id(j, 0), prepare_id(j)))
            &&& has_edge(h.edges, (build_id(j, 1), prepare_id(j)))
        } by {
            if j < count {
                assert(front[j] == crates[j]);
                assert(has_edge(g.edges, (build_id(j, 0), prepare_id(j))));
                let a = choose|a: int|
                    0 <= a < g.edges.len() && #[trigger] g.edges[a] == (
                        build_id(j, 0),
                        prepare_id(j),
                    );
                assert(h.edges[a] == g.edges[a]);
                assert(has_edge(g.edges, (build_id(j, 1), prepare_id(j))));
                let b = choose|b: int|
                    0 <= b < g.edges.len() && #[trigger] g.edges[b] == (
                        build_id(j, 1),
                        prepare_id(j),
                    );
                assert(h.edges[b] == g.edges[b]);
            } else {
                assert(h.edges[g.edges.len() as int] == added[0]);
                assert(h.edges[g.edges.len() as int + 1] == added[1]);
            }
        }
    }
}

/// A chain of edges of a built graph that does not start at the root stays
/// within one package.
pub proof fn lemma_path_in_package(g: GraphView, count: nat, path: Seq<NodeId>, k: int)
    requires
        built_shape(g, count),
        is_path(g, path),
        path[0] != 0,
        0 <= k < path.len(),
    ensures
        path[k] >= 1,
        package_of(path[k]) == package_of(path[0]),
    decreases k,
{
    if k > 0 {
        lemma_path_in_package(g, count, path, k - 1);
        assert(has_edge(g.edges, (path[k - 1], path[k - 1 + 1])));
    }
}

} // verus!
