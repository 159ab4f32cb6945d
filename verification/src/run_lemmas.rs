use vstd::prelude::*;
use crate::builder::{build_task, graph_of};
use crate::built_lemmas::{
    build_id, built_shape, lemma_built, lemma_built_tasks, lemma_path_in_package, package_of,
    prepare_id,
};
use crate::config::Config;
use crate::crates::Crate;
use crate::db::{
    count_for, distinct_keys, has_result, outcome_of, recorded, ResultKey, ResultView,
};
use crate::ex::Experiment;
use crate::failure_lemmas::{
    depends_on, lemma_fail_prunes, lemma_fail_records_dependents, lemma_fail_removes_dependents,
    lemma_pruned_same, lemma_recorded_outcome, records_under,
};
use crate::graph_lemmas::{
    all_needed, covered, has_edge, is_path, lemma_next_task, lemma_only_root, lemma_out,
    lemma_remove_shrinks, lemma_run_alone, lemma_shrinks_same, lemma_sub_edges_trans, lemma_walk,
    lemma_walk_children, run_alone, some_running, sub_edges,
};
use crate::results::TestResult;
use crate::run_graph::{
    lemma_without_node, needs_exec_in, GraphView, Node, NodeId, WalkResult,
};
use crate::tasks::Task;

verus! {

/// Every edge of `g` between two nodes of `h` is an edge of `h`.
pub open spec fn keeps_edges(g: GraphView, h: GraphView) -> bool {
    forall|e: (NodeId, NodeId)|
        #![trigger has_edge(g.edges, e)]
        has_edge(g.edges, e) && h.contains(e.0) && h.contains(e.1) ==> has_edge(h.edges, e)
}

/// The nodes of `g` that are not in `h` stood for packages.
pub open spec fn only_completed_left(g: GraphView, h: GraphView) -> bool {
    forall|n: NodeId| g.contains(n) && !#[trigger] h.contains(n) ==> g.nodes[n] is CrateCompleted
}

/// Taking a node away keeps the edges between the other nodes.
pub proof fn lemma_remove_keeps_edges(g: GraphView, n: NodeId)
    ensures
        keeps_edges(g, g.remove(n)),
{
    let h = g.remove(n);
    lemma_without_node(g.edges, n);
    assert forall|e: (NodeId, NodeId)|
        #![trigger has_edge(g.edges, e)]
        has_edge(g.edges, e) && h.contains(e.0) && h.contains(e.1) implies has_edge(h.edges, e) by {
        let i = choose|i: int| 0 <= i < g.edges.len() && #[trigger] g.edges[i] == e;
        assert(g.edges[i].0 != n && g.edges[i].1 != n);
        let k = choose|k: int| 0 <= k < h.edges.len() && #[trigger] h.edges[k] == g.edges[i];
        assert(h.edges[k] == e);
    }
}

/// Edges that are kept twice are kept.
pub proof fn lemma_keeps_edges_trans(g: GraphView, middle: GraphView, h: GraphView)
    requires
        keeps_edges(g, middle),
        keeps_edges(middle, h),
        forall|n: NodeId| h.contains(n) ==> middle.contains(n),
    ensures
        keeps_edges(g, h),
{
    assert forall|e: (NodeId, NodeId)|
        #![trigger has_edge(g.edges, e)]
        has_edge(g.edges, e) && h.contains(e.0) && h.contains(e.1) implies has_edge(h.edges, e) by {
        assert(has_edge(middle.edges, e));
    }
}

/// A walk keeps the edges between the nodes that it leaves; and while every
/// idle task is needed, the only nodes that it takes away stand for
/// packages.
pub proof fn lemma_walk_exact(g: GraphView, node: NodeId, needs: spec_fn(Task) -> bool)
    requires
        g.wf(),
    ensures
        keeps_edges(g, g.walk(node, needs).0),
        all_needed(g, needs) ==> only_completed_left(g, g.walk(node, needs).0),
    decreases 2 * g.rank_of(node) + 1, 0nat,
{
    if !g.contains(node) {
    } else if g.is_idle(node) && !needs(g.nodes[node]->task) {
        lemma_remove_keeps_edges(g, node);
    } else {
        let children = g.out(node);
        let bound = g.rank_of(node);
        lemma_out(g, node);
        assert forall|k: int| 0 <= k < children.len() implies (#[trigger] children[k]) != g.root
            && g.rank_of(children[k]) < bound by {
            let i = choose|i: int|
                0 <= i < g.edges.len() && #[trigger] g.edges[i] == (node, children[k]);
            assert(g.edge_ok(g.edges[i]));
        }
        lemma_walk_children(g, children, needs, bound);
        lemma_walk_children_exact(g, children, needs, bound);
        let below = g.walk_children(children, needs, bound);
        let g1 = below.0;
        if below.1 is NotBlocked && g1.contains(node) {
            assert(g1.nodes[node] == g.nodes[node]);
            match g1.nodes[node] {
                Node::Task { task, running } => {
                    if !running {
                        let h = g1.start(node);
                        assert(h.nodes.dom() =~= g1.nodes.dom());
                        assert forall|e: (NodeId, NodeId)|
                            #![trigger has_edge(g.edges, e)]
                            has_edge(g.edges, e) && h.contains(e.0) && h.contains(
                                e.1,
                            ) implies has_edge(h.edges, e) by {
                            assert(g1.contains(e.0) && g1.contains(e.1));
                        }
                        assert forall|n: NodeId| g.contains(n) && !#[trigger] h.contains(n)
                            && all_needed(g, needs) implies g.nodes[n] is CrateCompleted by {
                            assert(!g1.contains(n));
                        }
                    }
                },
                Node::CrateCompleted => {
                    let h = g1.remove(node);
                    lemma_remove_keeps_edges(g1, node);
                    lemma_keeps_edges_trans(g, g1, h);
                    assert forall|n: NodeId| g.contains(n) && !#[trigger] h.contains(n)
                        && all_needed(g, needs) implies g.nodes[n] is CrateCompleted by {
                        if n != node {
                            assert(!g1.contains(n));
                        }
                    }
                },
                Node::Root => {},
            }
        }
    }
}

/// A walk through children keeps the edges between the nodes that it
/// leaves; and while every idle task is needed, the only nodes that it
/// takes away stand for packages.
pub proof fn lemma_walk_children_exact(
    g: GraphView,
    children: Seq<NodeId>,
    needs: spec_fn(Task) -> bool,
    bound: nat,
)
    requires
        g.wf(),
        forall|k: int|
            0 <= k < children.len() ==> (#[trigger] children[k]) != g.root && g.rank_of(children[k])
                < bound,
    ensures
        keeps_edges(g, g.walk_children(children, needs, bound).0),
        all_needed(g, needs) ==> only_completed_left(
            g,
            g.walk_children(children, needs, bound).0,
        ),
    decreases 2 * bound, children.len(),
{
    if children.len() > 0 {
        assert(children[0] != g.root && g.rank_of(children[0]) < bound);
        lemma_walk(g, children[0], needs);
        lemma_walk_exact(g, children[0], needs);
        let first = g.walk(children[0], needs);
        let g1 = first.0;
        match first.1 {
            WalkResult::Task(..) | WalkResult::Finished => {},
            _ => {
                let tail = children.drop_first();
                assert forall|k: int| 0 <= k < tail.len() implies (#[trigger] tail[k]) != g1.root
                    && g1.rank_of(tail[k]) < bound by {
                    assert(tail[k] == children[k + 1]);
                }
                lemma_walk_children(g1, tail, needs, bound);
                lemma_walk_children_exact(g1, tail, needs, bound);
                let h = g1.walk_children(tail, needs, bound).0;
                lemma_keeps_edges_trans(g, g1, h);
                if all_needed(g, needs) {
                    assert(all_needed(g1, needs)) by {
                        assert forall|n: NodeId| #[trigger] g1.is_idle(n) implies needs(
                            g1.nodes[n]->task,
                        ) by {
                            assert(g1.nodes[n] == g.nodes[n]);
                            assert(g.is_idle(n));
                        }
                    }
                    assert forall|n: NodeId| g.contains(n) && !#[trigger] h.contains(
                        n,
                    ) implies g.nodes[n] is CrateCompleted by {
                        if g1.contains(n) {
                            assert(g1.nodes[n] == g.nodes[n]);
                        }
                    }
                }
            },
        }
    }
}

/// The graph and the outcomes that one worker leaves which, up to `steps`
/// times, asks for a task, runs it with success and completes it, and stops
/// when it is handed none. A build that succeeds records `result` under its
/// key; a preparation records nothing.
pub open spec fn run_recording(
    g: GraphView,
    ex: &Experiment,
    rows: Seq<ResultView>,
    result: TestResult,
    steps: nat,
) -> (GraphView, Seq<ResultView>)
    decreases steps,
{
    let walked = g.walk(g.root, needs_exec_in(ex, rows));
    match walked.1 {
        WalkResult::Task(id, task) => if steps == 0 {
            (walked.0, rows)
        } else {
            run_recording(
                walked.0.remove(id),
                ex,
                task.spec_mark_as_failed(ex, rows, Seq::empty(), result),
                result,
                (steps - 1) as nat,
            )
        },
        _ => (walked.0, rows),
    }
}

/// The key under which the build of the `j`-th package under the toolchain
/// `which` records its outcome.
pub open spec fn build_key(crates: Seq<Crate>, ex: &Experiment, j: int, which: int) -> ResultKey {
    ResultKey { experiment: ex.name@, krate: crates[j]@, toolchain: ex.toolchains[which]@ }
}

/// How many builds of the first `count` packages are in the graph.
pub open spec fn builds_left(h: GraphView, count: nat) -> nat
    decreases count,
{
    if count == 0 {
        0
    } else {
        builds_left(h, (count - 1) as nat) + if h.contains(build_id(count - 1, 0)) {
            1nat
        } else {
            0nat
        } + if h.contains(build_id(count - 1, 1)) {
            1nat
        } else {
            0nat
        }
    }
}

/// No two packages have the same identifier.
pub open spec fn distinct_crates(crates: Seq<Crate>) -> bool {
    forall|i: int, j: int|
        0 <= i < crates.len() && 0 <= j < crates.len() && i != j ==> (#[trigger] crates[i])@ != (
        #[trigger] crates[j])@
}

/// The index `id` is that of a task of one of the first `count` packages
/// of a built graph: of a preparation or of a build.
pub open spec fn is_task_id(id: NodeId, count: nat) -> bool {
    1 <= id <= 4 * count && id % 4 != 0
}

/// What is left of the graph that was built for `crates`, between two
/// steps of a run with one worker: a well-formed graph that hangs from its
/// root, whose nodes and edges are nodes and edges of the built graph, with
/// every edge of the built graph between two nodes that are left; and no
/// task is running.
pub open spec fn in_graph_run(crates: Seq<Crate>, ex: &Experiment, config: &Config, h: GraphView) -> bool {
    let g = graph_of(crates, ex, config);
    &&& h.wf()
    &&& covered(h)
    &&& !some_running(h)
    &&& h.root == 0
    &&& forall|n: NodeId| #[trigger] h.contains(n) ==> g.contains(n) && h.nodes[n] == g.nodes[n]
    &&& keeps_edges(g, h)
    &&& sub_edges(h.edges, g.edges)
}

/// Where a run of the graph that was built for `crates` stands between two
/// steps of its one worker: `h` is what is left of the graph and `rows` is
/// what is recorded. A build is in the graph exactly while its outcome is
/// missing; and a preparation is in the graph only while the builds of its
/// package are.
pub open spec fn in_run(
    crates: Seq<Crate>,
    ex: &Experiment,
    config: &Config,
    h: GraphView,
    rows: Seq<ResultView>,
) -> bool {
    &&& in_graph_run(crates, ex, config, h)
    &&& distinct_keys(rows)
    &&& forall|j: int, which: int|
        #![trigger build_id(j, which)]
        0 <= j < crates.len() && 0 <= which <= 1 ==> (h.contains(build_id(j, which)) <==> !has_result(
            rows,
            build_key(crates, ex, j, which),
        ))
    &&& forall|j: int|
        #![trigger prepare_id(j)]
        0 <= j < crates.len() && h.contains(prepare_id(j)) ==> h.contains(build_id(j, 0))
            && h.contains(build_id(j, 1))
}

/// Two graphs that hold the same builds have as many builds left.
proof fn lemma_builds_left_same(h: GraphView, other: GraphView, count: nat)
    requires
        forall|j: int, which: int|
            #![trigger build_id(j, which)]
            0 <= j < count && 0 <= which <= 1 ==> (h.contains(build_id(j, which))
                <==> other.contains(build_id(j, which))),
    ensures
        builds_left(h, count) == builds_left(other, count),
    decreases count,
{
    if count > 0 {
        lemma_builds_left_same(h, other, (count - 1) as nat);
        assert(h.contains(build_id(count - 1, 0)) <==> other.contains(build_id(count - 1, 0)));
        assert(h.contains(build_id(count - 1, 1)) <==> other.contains(build_id(count - 1, 1)));
    }
}

/// A graph that has lost one build has one build less left.
proof fn lemma_builds_left_less(h: GraphView, other: GraphView, count: nat, lost: int, at: int)
    requires
        4 * count + 4 <= u32::MAX,
        0 <= at <= 1,
        forall|j: int, which: int|
            #![trigger build_id(j, which)]
            0 <= j < count && 0 <= which <= 1 ==> (other.contains(build_id(j, which))
                <==> h.contains(build_id(j, which)) && !(j == lost && which == at)),
    ensures
        builds_left(other, count) + (if 0 <= lost < count && h.contains(build_id(lost, at)) {
            1nat
        } else {
            0nat
        }) == builds_left(h, count),
    decreases count,
{
    if count > 0 {
        lemma_builds_left_less(h, other, (count - 1) as nat, lost, at);
        let j = count - 1;
        assert(other.contains(build_id(j, 0)) <==> h.contains(build_id(j, 0)) && !(j == lost && 0
            == at));
        assert(other.contains(build_id(j, 1)) <==> h.contains(build_id(j, 1)) && !(j == lost && 1
            == at));
    }
}

/// A graph that holds only its root, under the index 0, has no build left.
proof fn lemma_builds_left_none(h: GraphView, count: nat)
    requires
        4 * count + 4 <= u32::MAX,
        forall|n: NodeId| h.contains(n) ==> n == 0,
    ensures
        builds_left(h, count) == 0,
    decreases count,
{
    if count > 0 {
        lemma_builds_left_none(h, (count - 1) as nat);
        assert(build_id(count - 1, 0) != 0 && build_id(count - 1, 1) != 0);
    }
}

/// A graph that holds every index up to four times `count` has two builds
/// left for each of the first `upto` packages, `upto` being at most `count`.
proof fn lemma_builds_left_all(h: GraphView, count: nat, upto: nat)
    requires
        4 * count + 4 <= u32::MAX,
        upto <= count,
        forall|id: NodeId| #[trigger] h.contains(id) <==> id <= 4 * count,
    ensures
        builds_left(h, upto) == 2 * upto,
    decreases upto,
{
    if upto > 0 {
        lemma_builds_left_all(h, count, (upto - 1) as nat);
        assert(h.contains(build_id(upto - 1, 0)));
        assert(h.contains(build_id(upto - 1, 1)));
    }
}

/// Where no row belongs to an experiment, no outcome is recorded under a
/// key of the experiment.
proof fn lemma_count_zero(rows: Seq<ResultView>, name: Seq<char>)
    requires
        count_for(rows, name) == 0,
    ensures
        forall|i: int| 0 <= i < rows.len() ==> (#[trigger] rows[i]).experiment != name,
    decreases rows.len(),
{
    if rows.len() > 0 {
        lemma_count_zero(rows.drop_last(), name);
        assert forall|i: int| 0 <= i < rows.len() implies (#[trigger] rows[i]).experiment
            != name by {
            if i < rows.len() - 1 {
                assert(rows.drop_last()[i] == rows[i]);
            }
        }
    }
}

/// Two builds record under the same key only where they are the same build.
proof fn lemma_build_keys_differ(
    crates: Seq<Crate>,
    ex: &Experiment,
    j: int,
    which: int,
    other: int,
    at: int,
)
    requires
        distinct_crates(crates),
        ex.spec_valid(),
        0 <= j < crates.len(),
        0 <= other < crates.len(),
        0 <= which <= 1,
        0 <= at <= 1,
        build_key(crates, ex, j, which) == build_key(crates, ex, other, at),
    ensures
        j == other,
        which == at,
{
    if j != other {
        assert(crates[j]@ != crates[other]@);
    }
}

/// One step on what is left of a built graph, while every idle task is
/// needed: the task that is handed out is a task of the graph, and the
/// only task that leaves; a build is handed out only when the preparation
/// of its package has left.
#[verifier::rlimit(60)]
proof fn lemma_graph_step(
    crates: Seq<Crate>,
    ex: &Experiment,
    config: &Config,
    h: GraphView,
    needs: spec_fn(Task) -> bool,
)
    requires
        4 * crates.len() + 4 <= u32::MAX,
        in_graph_run(crates, ex, config, h),
        all_needed(h, needs),
        h.walk(h.root, needs).1 is Task,
    ensures
        ({
            let walked = h.walk(h.root, needs);
            let id = walked.1->Task_0;
            let left = walked.0.remove(id);
            &&& in_graph_run(crates, ex, config, left)
            &&& walked.1->Task_1 == graph_of(crates, ex, config).nodes[id]->task
            &&& left.nodes.dom().len() < h.nodes.dom().len()
            &&& h.contains(id)
            &&& is_task_id(id, crates.len())
            &&& forall|n: NodeId|
                is_task_id(n, crates.len()) ==> (#[trigger] left.contains(n) <==> h.contains(n) && n
                    != id)
            &&& forall|j: int, which: int|
                #![trigger build_id(j, which)]
                0 <= j < crates.len() && 0 <= which <= 1 && id == build_id(j, which)
                    ==> !left.contains(prepare_id(j))
        }),
{
    let g = graph_of(crates, ex, config);
    let count = crates.len();
    lemma_built(crates, ex, config);
    lemma_built_tasks(crates, ex, config);
    lemma_walk(h, h.root, needs);
    lemma_walk_exact(h, h.root, needs);
    let walked = h.walk(h.root, needs);
    let h1 = walked.0;
    let id = walked.1->Task_0;
    let left = h1.remove(id);
    lemma_remove_shrinks(h1, id);
    lemma_remove_keeps_edges(h1, id);
    assert(keeps_edges(g, left)) by {
        lemma_keeps_edges_trans(g, h, h1);
        lemma_keeps_edges_trans(g, h1, left);
    }
    assert(sub_edges(left.edges, g.edges)) by {
        lemma_sub_edges_trans(h1.edges, h.edges, g.edges);
        lemma_sub_edges_trans(left.edges, h1.edges, g.edges);
    }
    assert(left.nodes.dom().len() < h.nodes.dom().len()) by {
        assert(left.nodes.dom() =~= h1.nodes.dom().remove(id));
        assert(h1.nodes.dom().subset_of(h.nodes.dom())) by {
            assert forall|n: NodeId| h1.nodes.dom().contains(n) implies h.nodes.dom().contains(
                n,
            ) by {
                assert(h1.contains(n));
            }
        }
        vstd::set_lib::lemma_len_subset(h1.nodes.dom(), h.nodes.dom());
    }
    assert forall|n: NodeId| #[trigger] left.contains(n) implies g.contains(n) && left.nodes[n]
        == g.nodes[n] by {
        assert(h1.contains(n) && n != id);
        assert(h1.nodes[n] == h.nodes[n]);
        assert(h.contains(n));
    }
    assert(!some_running(left)) by {
        if some_running(left) {
            let n = choose|n: NodeId| #[trigger] left.is_running(n);
            assert(h1.contains(n) && n != id);
            assert(h1.nodes[n] == h.nodes[n]);
            assert(h.is_running(n));
        }
    }
    assert(h.contains(id) && h.nodes[id] == g.nodes[id]);
    assert(g.contains(id) <==> id <= 4 * count);
    assert(id >= 1) by {
        assert(h.nodes[h.root] is Root);
    }
    assert forall|n: NodeId| is_task_id(n, count) implies (#[trigger] left.contains(n)
        <==> h.contains(n) && n != id) by {
        if h.contains(n) {
            assert(h.nodes[n] == g.nodes[n]);
            assert(g.nodes[n] is Task);
            assert(h1.contains(n));
        }
        if left.contains(n) {
            assert(h1.contains(n));
        }
    }
    assert forall|j: int, which: int|
        #![trigger build_id(j, which)]
        0 <= j < count && 0 <= which <= 1 && id == build_id(j, which) implies !left.contains(
        prepare_id(j),
    ) by {
        let krate = crates[j];
        if h1.contains(prepare_id(j)) {
            let e = (build_id(j, which), prepare_id(j));
            assert(has_edge(g.edges, e));
            assert(h.contains(prepare_id(j)));
            assert(has_edge(h.edges, e));
            assert(has_edge(h1.edges, e));
            let i = choose|i: int| 0 <= i < h1.edges.len() && #[trigger] h1.edges[i] == e;
            assert(h1.edges[i].0 == id);
        }
    }
}

/// Between two steps of a run, every idle task is needed.
proof fn lemma_in_run_needed(
    crates: Seq<Crate>,
    ex: &Experiment,
    config: &Config,
    h: GraphView,
    rows: Seq<ResultView>,
)
    requires
        4 * crates.len() + 4 <= u32::MAX,
        in_run(crates, ex, config, h, rows),
    ensures
        all_needed(h, needs_exec_in(ex, rows)),
{
    let g = graph_of(crates, ex, config);
    lemma_built(crates, ex, config);
    lemma_built_tasks(crates, ex, config);
    assert forall|n: NodeId| #[trigger] h.contains(n) && h.nodes[n] is Task implies h.nodes[n]->task.spec_needs_exec(
        ex,
        rows,
    ) by {
        assert(g.contains(n) <==> n <= 4 * crates.len());
        assert(n >= 1) by {
            assert(h.nodes[h.root] is Root);
        }
        let j = (n - 1) / 4;
        let krate = crates[j];
        if n == prepare_id(j) {
            assert(h.contains(prepare_id(j)));
            assert(h.contains(build_id(j, 0)));
            assert(!has_result(rows, build_key(crates, ex, j, 0)));
        } else if n == build_id(j, 0) {
            assert(!has_result(rows, build_key(crates, ex, j, 0)));
        } else {
            assert(n == build_id(j, 1));
            assert(!has_result(rows, build_key(crates, ex, j, 1)));
        }
    }
    assert forall|n: NodeId| #[trigger] h.is_idle(n) implies needs_exec_in(ex, rows)(
        h.nodes[n]->task,
    ) by {
        assert(h.contains(n) && h.nodes[n] is Task);
    }
}

/// Recording under a key that has no outcome adds a row: the key has an
/// outcome after, the other keys are as they were, and the experiment of
/// the row has one row more.
proof fn lemma_recorded_new(rows: Seq<ResultView>, row: ResultView)
    requires
        distinct_keys(rows),
        !has_result(rows, row.key()),
    ensures
        distinct_keys(recorded(rows, row)),
        forall|key: ResultKey|
            #![trigger has_result(recorded(rows, row), key)]
            has_result(recorded(rows, row), key) <==> key == row.key() || has_result(rows, key),
        count_for(recorded(rows, row), row.experiment) == count_for(rows, row.experiment) + 1,
{
    let after = recorded(rows, row);
    assert(after =~= rows.push(row));
    assert(after.drop_last() =~= rows);
    assert forall|a: int, b: int|
        0 <= a < after.len() && 0 <= b < after.len() && a != b implies (#[trigger] after[a]).key() != (
    #[trigger] after[b]).key() by {
        if a < rows.len() && b < rows.len() {
            assert(rows[a].key() != rows[b].key());
        } else if a < rows.len() {
            assert(rows[a].key() != row.key());
        } else {
            assert(rows[b].key() != row.key());
        }
    }
    assert forall|key: ResultKey|
        #![trigger has_result(after, key)]
        has_result(after, key) <==> key == row.key() || has_result(rows, key) by {
        if has_result(after, key) {
            let i = choose|i: int| 0 <= i < after.len() && (#[trigger] after[i]).key() == key;
            if i < rows.len() {
                assert(rows[i].key() == key);
            }
        }
        if has_result(rows, key) {
            let i = choose|i: int| 0 <= i < rows.len() && (#[trigger] rows[i]).key() == key;
            assert(after[i].key() == key);
        }
        if key == row.key() {
            assert(after[rows.len() as int].key() == key);
        }
    }
}

/// One step of a run keeps the run a run: after the one worker has been
/// handed a task, has run it with success and has completed it, a build is
/// still in the graph exactly while its outcome is missing. The graph has
/// lost a node; what is recorded and what is left to build are together as
/// many as before; and the only outcome that is new is that of the build
/// that was run.
proof fn lemma_run_step(
    crates: Seq<Crate>,
    ex: &Experiment,
    config: &Config,
    h: GraphView,
    rows: Seq<ResultView>,
    result: TestResult,
)
    requires
        4 * crates.len() + 4 <= u32::MAX,
        distinct_crates(crates),
        ex.spec_valid(),
        in_run(crates, ex, config, h, rows),
        h.walk(h.root, needs_exec_in(ex, rows)).1 is Task,
    ensures
        ({
            let walked = h.walk(h.root, needs_exec_in(ex, rows));
            let left = walked.0.remove(walked.1->Task_0);
            let later = walked.1->Task_1.spec_mark_as_failed(ex, rows, Seq::empty(), result);
            &&& in_run(crates, ex, config, left, later)
            &&& left.nodes.dom().len() < h.nodes.dom().len()
            &&& count_for(later, ex.name@) + builds_left(left, crates.len()) == count_for(
                rows,
                ex.name@,
            ) + builds_left(h, crates.len())
            &&& forall|j: int, which: int|
                #![trigger build_id(j, which)]
                0 <= j < crates.len() && 0 <= which <= 1 ==> outcome_of(
                    later,
                    build_key(crates, ex, j, which),
                ) == if has_result(rows, build_key(crates, ex, j, which)) {
                    outcome_of(rows, build_key(crates, ex, j, which))
                } else if walked.1->Task_0 == build_id(j, which) {
                    Some(result)
                } else {
                    None
                }
        }),
{
    let g = graph_of(crates, ex, config);
    let count = crates.len();
    let needs = needs_exec_in(ex, rows);
    lemma_built_tasks(crates, ex, config);
    lemma_in_run_needed(crates, ex, config, h, rows);
    lemma_graph_step(crates, ex, config, h, needs);
    let walked = h.walk(h.root, needs);
    let id = walked.1->Task_0;
    let task = walked.1->Task_1;
    let left = walked.0.remove(id);
    let later = task.spec_mark_as_failed(ex, rows, Seq::empty(), result);
    let j = (id - 1) / 4;
    assert(0 <= j < count);
    let krate = crates[j];
    assert forall|a: int, at: int|
        #![trigger build_id(a, at)]
        0 <= a < count && 0 <= at <= 1 implies (left.contains(build_id(a, at)) <==> h.contains(
        build_id(a, at),
    ) && build_id(a, at) != id) by {
        assert(is_task_id(build_id(a, at), count));
    }
    assert forall|a: int|
        #![trigger prepare_id(a)]
        0 <= a < count && left.contains(prepare_id(a)) implies left.contains(build_id(a, 0))
        && left.contains(build_id(a, 1)) by {
        assert(is_task_id(prepare_id(a), count));
        assert(h.contains(prepare_id(a)));
        assert(h.contains(build_id(a, 0)) && h.contains(build_id(a, 1)));
        assert(left.contains(build_id(a, 0)) <==> h.contains(build_id(a, 0)) && build_id(a, 0)
            != id);
        assert(left.contains(build_id(a, 1)) <==> h.contains(build_id(a, 1)) && build_id(a, 1)
            != id);
    }
    if id == prepare_id(j) {
        assert(later == rows);
        assert forall|a: int, at: int|
            #![trigger build_id(a, at)]
            0 <= a < count && 0 <= at <= 1 implies id != build_id(a, at) by {}
        lemma_builds_left_same(left, h, count);
    } else {
        let which: int = if id == build_id(j, 0) {
            0
        } else {
            1
        };
        assert(id == build_id(j, which));
        assert(task == build_task(krate, ex, config, which)->task);
        assert(task.step.spec_toolchain() == Some(ex.toolchains[which]));
        let row = ResultView {
            experiment: ex.name@,
            krate: krate@,
            toolchain: ex.toolchains[which]@,
            result: result,
            log: Seq::empty(),
        };
        assert(row.key() == build_key(crates, ex, j, which));
        assert(later == recorded(rows, row));
        assert(h.contains(build_id(j, which)));
        assert(!has_result(rows, build_key(crates, ex, j, which)));
        lemma_recorded_new(rows, row);
        lemma_recorded_outcome(rows, row);
        assert forall|a: int, at: int|
            #![trigger build_id(a, at)]
            0 <= a < count && 0 <= at <= 1 implies (build_id(a, at) != id <==> !(a == j && at
            == which)) by {}
        lemma_builds_left_less(h, left, count, j, which);
        assert forall|a: int, at: int|
            #![trigger build_id(a, at)]
            0 <= a < count && 0 <= at <= 1 implies (left.contains(build_id(a, at)) <==> !has_result(
            later,
            build_key(crates, ex, a, at),
        )) && outcome_of(later, build_key(crates, ex, a, at)) == (if has_result(
            rows,
            build_key(crates, ex, a, at),
        ) {
            outcome_of(rows, build_key(crates, ex, a, at))
        } else if id == build_id(a, at) {
            Some(result)
        } else {
            None
        }) by {
            assert(h.contains(build_id(a, at)) <==> !has_result(rows, build_key(crates, ex, a, at)));
            if build_key(crates, ex, a, at) == row.key() {
                lemma_build_keys_differ(crates, ex, a, at, j, which);
            }
        }
    }
}

/// A graph built for packages with distinct identifiers and two distinct
/// toolchains, run to its end by one worker with every task succeeding,
/// records two outcomes for each package, and leaves only the root. The
/// run starts without outcomes of the experiment, and takes at most as
/// many steps as the graph has nodes.
pub proof fn lemma_full_run_records_all(
    crates: Seq<Crate>,
    ex: &Experiment,
    config: &Config,
    rows: Seq<ResultView>,
    result: TestResult,
)
    requires
        4 * crates.len() + 4 <= u32::MAX,
        distinct_crates(crates),
        ex.spec_valid(),
        distinct_keys(rows),
        count_for(rows, ex.name@) == 0,
    ensures
        ({
            let end = run_recording(
                graph_of(crates, ex, config),
                ex,
                rows,
                result,
                4 * crates.len() + 1,
            );
            &&& end.0.nodes.dom() =~= Set::empty().insert(0u32)
            &&& count_for(end.1, ex.name@) == 2 * crates.len()
        }),
{
    let g = graph_of(crates, ex, config);
    lemma_built(crates, ex, config);
    lemma_count_zero(rows, ex.name@);
    lemma_builds_left_all(g, crates.len(), crates.len());
    assert(!some_running(g)) by {
        if some_running(g) {
            let n = choose|n: NodeId| #[trigger] g.is_running(n);
            assert(g.contains(n) <==> n <= 4 * crates.len());
            assert(n >= 1);
            assert(!g.nodes[n]->running);
        }
    }
    assert(keeps_edges(g, g));
    assert forall|j: int, which: int|
        #![trigger build_id(j, which)]
        0 <= j < crates.len() && 0 <= which <= 1 implies (g.contains(build_id(j, which))
            <==> !has_result(rows, build_key(crates, ex, j, which))) by {
        assert(g.contains(build_id(j, which)) <==> build_id(j, which) <= 4 * crates.len());
        if has_result(rows, build_key(crates, ex, j, which)) {
            let i = choose|i: int|
                0 <= i < rows.len() && (#[trigger] rows[i]).key() == build_key(
                    crates,
                    ex,
                    j,
                    which,
                );
            assert(rows[i].experiment == ex.name@);
        }
    }
    assert forall|j: int|
        #![trigger prepare_id(j)]
        0 <= j < crates.len() && g.contains(prepare_id(j)) implies g.contains(build_id(j, 0))
        && g.contains(build_id(j, 1)) by {
        assert(g.contains(build_id(j, 0)) <==> build_id(j, 0) <= 4 * crates.len());
        assert(g.contains(build_id(j, 1)) <==> build_id(j, 1) <= 4 * crates.len());
    }
    lemma_shrinks_same(g);
    lemma_run_to_end(crates, ex, config, g, rows, result, 4 * crates.len() + 1);
}

/// A run whose walk finds `Finished` has no build left: every build has
/// its outcome, and only the root is in the graph.
proof fn lemma_run_finished(
    crates: Seq<Crate>,
    ex: &Experiment,
    config: &Config,
    h: GraphView,
    rows: Seq<ResultView>,
)
    requires
        4 * crates.len() + 4 <= u32::MAX,
        in_run(crates, ex, config, h, rows),
        h.walk(h.root, needs_exec_in(ex, rows)).1 is Finished,
    ensures
        h.walk(h.root, needs_exec_in(ex, rows)).0.nodes.dom() =~= Set::empty().insert(0u32),
        builds_left(h, crates.len()) == 0,
        forall|j: int, which: int|
            #![trigger build_key(crates, ex, j, which)]
            0 <= j < crates.len() && 0 <= which <= 1 ==> has_result(
                rows,
                build_key(crates, ex, j, which),
            ),
{
    let needs = needs_exec_in(ex, rows);
    lemma_in_run_needed(crates, ex, config, h, rows);
    lemma_walk(h, h.root, needs);
    lemma_walk_exact(h, h.root, needs);
    let end = h.walk(h.root, needs).0;
    lemma_only_root(end);
    lemma_builds_left_none(end, crates.len());
    lemma_built(crates, ex, config);
    let g = graph_of(crates, ex, config);
    assert forall|j: int, which: int|
        #![trigger build_id(j, which)]
        0 <= j < crates.len() && 0 <= which <= 1 implies (end.contains(build_id(j, which))
            <==> h.contains(build_id(j, which))) && !h.contains(build_id(j, which)) && has_result(
        rows,
        build_key(crates, ex, j, which),
    ) by {
        let b = build_id(j, which);
        assert(b != 0);
        if end.contains(b) {
            assert(end.nodes.dom().contains(b));
        }
        if h.contains(b) {
            assert(g.contains(b) <==> b <= 4 * crates.len());
            assert(h.nodes[b] == g.nodes[b]);
            assert(g.nodes[b] is Task);
            assert(end.contains(b));
        }
        assert(h.contains(b) <==> !has_result(rows, build_key(crates, ex, j, which)));
    }
    lemma_builds_left_same(end, h, crates.len());
    assert forall|j: int, which: int|
        #![trigger build_key(crates, ex, j, which)]
        0 <= j < crates.len() && 0 <= which <= 1 implies has_result(
        rows,
        build_key(crates, ex, j, which),
    ) by {
        assert(!h.contains(build_id(j, which)));
    }
}

/// A run that stands between two steps, and has as many steps left as its
/// graph has nodes, ends with only the root. In the end every build has an
/// outcome: the one that was recorded before the run went on, or else the
/// outcome of the run. What is recorded in the end is as much as what was
/// recorded and what was left to build.
pub proof fn lemma_run_to_end(
    crates: Seq<Crate>,
    ex: &Experiment,
    config: &Config,
    h: GraphView,
    rows: Seq<ResultView>,
    result: TestResult,
    steps: nat,
)
    requires
        4 * crates.len() + 4 <= u32::MAX,
        distinct_crates(crates),
        ex.spec_valid(),
        in_run(crates, ex, config, h, rows),
        steps >= h.nodes.dom().len(),
    ensures
        run_recording(h, ex, rows, result, steps).0.nodes.dom() =~= Set::empty().insert(0u32),
        count_for(run_recording(h, ex, rows, result, steps).1, ex.name@) == count_for(
            rows,
            ex.name@,
        ) + builds_left(h, crates.len()),
        forall|j: int, which: int|
            #![trigger build_key(crates, ex, j, which)]
            0 <= j < crates.len() && 0 <= which <= 1 ==> outcome_of(
                run_recording(h, ex, rows, result, steps).1,
                build_key(crates, ex, j, which),
            ) == if has_result(rows, build_key(crates, ex, j, which)) {
                outcome_of(rows, build_key(crates, ex, j, which))
            } else {
                Some(result)
            },
    decreases steps,
{
    let needs = needs_exec_in(ex, rows);
    lemma_in_run_needed(crates, ex, config, h, rows);
    lemma_walk(h, h.root, needs);
    lemma_walk_exact(h, h.root, needs);
    let walked = h.walk(h.root, needs);
    let end = run_recording(h, ex, rows, result, steps);
    match walked.1 {
        WalkResult::Task(id, task) => {
            lemma_run_step(crates, ex, config, h, rows, result);
            assert(h.nodes.dom().len() >= 1);
            let left = walked.0.remove(id);
            let later = task.spec_mark_as_failed(ex, rows, Seq::empty(), result);
            lemma_run_to_end(crates, ex, config, left, later, result, (steps - 1) as nat);
            assert forall|j: int, which: int|
                #![trigger build_key(crates, ex, j, which)]
                0 <= j < crates.len() && 0 <= which <= 1 implies outcome_of(
                end.1,
                build_key(crates, ex, j, which),
            ) == if has_result(rows, build_key(crates, ex, j, which)) {
                outcome_of(rows, build_key(crates, ex, j, which))
            } else {
                Some(result)
            } by {
                let key = build_key(crates, ex, j, which);
                let b = build_id(j, which);
                assert(outcome_of(end.1, key) == if has_result(later, key) {
                    outcome_of(later, key)
                } else {
                    Some(result)
                });
                assert(outcome_of(later, key) == if has_result(rows, key) {
                    outcome_of(rows, key)
                } else if id == build_id(j, which) {
                    Some(result)
                } else {
                    None
                });
            }
        },
        WalkResult::Finished => {
            lemma_run_finished(crates, ex, config, h, rows);
        },
        WalkResult::Blocked => {},
        WalkResult::NotBlocked => {},
    }
}

/// The tasks that one worker is handed, in order, which up to `steps`
/// times asks for a task and completes it at once, and stops when it is
/// handed none.
pub open spec fn handed_out(g: GraphView, needs: spec_fn(Task) -> bool, steps: nat) -> Seq<NodeId>
    decreases steps,
{
    let walked = g.walk(g.root, needs);
    match walked.1 {
        WalkResult::Task(id, _) => if steps == 0 {
            Seq::empty()
        } else {
            seq![id] + handed_out(walked.0.remove(id), needs, (steps - 1) as nat)
        },
        _ => Seq::empty(),
    }
}

/// How many tasks of the first `count` packages are in the graph.
pub open spec fn tasks_left(h: GraphView, count: nat) -> nat
    decreases count,
{
    if count == 0 {
        0
    } else {
        tasks_left(h, (count - 1) as nat) + if h.contains(prepare_id(count - 1)) {
            1nat
        } else {
            0nat
        } + if h.contains(build_id(count - 1, 0)) {
            1nat
        } else {
            0nat
        } + if h.contains(build_id(count - 1, 1)) {
            1nat
        } else {
            0nat
        }
    }
}

/// Where a run of the graph that was built for `crates` stands between two
/// steps of its one worker, when every task of the graph is needed: `h` is
/// what is left of the graph.
pub open spec fn in_walk(
    crates: Seq<Crate>,
    ex: &Experiment,
    config: &Config,
    h: GraphView,
    needs: spec_fn(Task) -> bool,
) -> bool {
    &&& in_graph_run(crates, ex, config, h)
    &&& all_needed(graph_of(crates, ex, config), needs)
}

/// A graph that has lost one task has one task less left; a graph that
/// holds the same tasks has as many left.
proof fn lemma_tasks_left_less(h: GraphView, other: GraphView, count: nat, lost: NodeId)
    requires
        4 * count + 4 <= u32::MAX,
        forall|id: NodeId|
            is_task_id(id, count) ==> (#[trigger] other.contains(id) <==> h.contains(id) && id
                != lost),
    ensures
        tasks_left(other, count) + (if is_task_id(lost, count) && h.contains(lost) {
            1nat
        } else {
            0nat
        }) == tasks_left(h, count),
    decreases count,
{
    if count > 0 {
        let before = (count - 1) as nat;
        assert forall|id: NodeId| is_task_id(id, before) implies (#[trigger] other.contains(id)
            <==> h.contains(id) && id != lost) by {
            assert(is_task_id(id, count));
        }
        lemma_tasks_left_less(h, other, before, lost);
        let p = prepare_id(count - 1);
        let a = build_id(count - 1, 0);
        let b = build_id(count - 1, 1);
        assert(is_task_id(p, count) && is_task_id(a, count) && is_task_id(b, count));
        assert(!is_task_id(p, before) && !is_task_id(a, before) && !is_task_id(b, before));
        assert(other.contains(p) <==> h.contains(p) && p != lost);
        assert(other.contains(a) <==> h.contains(a) && a != lost);
        assert(other.contains(b) <==> h.contains(b) && b != lost);
        if is_task_id(lost, count) && !is_task_id(lost, before) {
            assert(lost == p || lost == a || lost == b);
        }
    }
}

/// A graph that holds every index up to four times `count` has three tasks
/// left for each of the first `upto` packages; a graph that holds only
/// its root has none.
proof fn lemma_tasks_left_all(h: GraphView, count: nat, upto: nat)
    requires
        4 * count + 4 <= u32::MAX,
        upto <= count,
    ensures
        (forall|id: NodeId| #[trigger] h.contains(id) <==> id <= 4 * count) ==> tasks_left(h, upto)
            == 3 * upto,
        (forall|id: NodeId| #[trigger] h.contains(id) ==> id == 0) ==> tasks_left(h, upto) == 0,
    decreases upto,
{
    if upto > 0 {
        lemma_tasks_left_all(h, count, (upto - 1) as nat);
        let p = prepare_id(upto - 1);
        let a = build_id(upto - 1, 0);
        let b = build_id(upto - 1, 1);
        if forall|id: NodeId| #[trigger] h.contains(id) <==> id <= 4 * count {
            assert(h.contains(p) && h.contains(a) && h.contains(b));
        }
        if forall|id: NodeId| #[trigger] h.contains(id) ==> id == 0 {
            assert(!h.contains(p) && !h.contains(a) && !h.contains(b));
        }
    }
}

/// A graph that holds only its root is finished: a walk says so.
pub proof fn lemma_only_root_is_finished(h: GraphView, needs: spec_fn(Task) -> bool)
    requires
        h.wf(),
        forall|n: NodeId| h.contains(n) ==> n == h.root,
    ensures
        h.walk(h.root, needs).1 is Finished,
{
    lemma_next_task(h, needs);
    if some_running(h) {
        let n = choose|n: NodeId| #[trigger] h.is_running(n);
        assert(h.contains(n));
    }
    match h.walk(h.root, needs).1 {
        WalkResult::Task(id, _) => {
            assert(h.contains(id));
        },
        _ => {},
    }
}

/// One step of a run in which every task is needed: the task that is
/// handed out is a task of the graph, and the only task that leaves; a
/// build is handed out only when the preparation of its package has left.
proof fn lemma_walk_step(
    crates: Seq<Crate>,
    ex: &Experiment,
    config: &Config,
    h: GraphView,
    needs: spec_fn(Task) -> bool,
)
    requires
        4 * crates.len() + 4 <= u32::MAX,
        in_walk(crates, ex, config, h, needs),
        h.walk(h.root, needs).1 is Task,
    ensures
        ({
            let walked = h.walk(h.root, needs);
            let id = walked.1->Task_0;
            let left = walked.0.remove(id);
            &&& in_walk(crates, ex, config, left, needs)
            &&& left.nodes.dom().len() < h.nodes.dom().len()
            &&& h.contains(id)
            &&& is_task_id(id, crates.len())
            &&& forall|n: NodeId|
                is_task_id(n, crates.len()) ==> (#[trigger] left.contains(n) <==> h.contains(n) && n
                    != id)
            &&& forall|j: int, which: int|
                #![trigger build_id(j, which)]
                0 <= j < crates.len() && 0 <= which <= 1 && id == build_id(j, which)
                    ==> !left.contains(prepare_id(j))
        }),
{
    lemma_all_needed_left(graph_of(crates, ex, config), h, needs);
    lemma_graph_step(crates, ex, config, h, needs);
}

/// Where every idle task of a graph is needed, so is every idle task of
/// what is left of it.
proof fn lemma_all_needed_left(g: GraphView, h: GraphView, needs: spec_fn(Task) -> bool)
    requires
        all_needed(g, needs),
        forall|n: NodeId| #[trigger] h.contains(n) ==> g.contains(n) && h.nodes[n] == g.nodes[n],
    ensures
        all_needed(h, needs),
{
    assert forall|n: NodeId| #[trigger] h.is_idle(n) implies needs(h.nodes[n]->task) by {
        assert(h.contains(n));
        assert(g.is_idle(n));
    }
}

/// What one worker is handed between a state of a run and its end, when
/// every task is needed: every task that is left, each once, and a build
/// never before the preparation of its package.
proof fn lemma_handed_out(
    crates: Seq<Crate>,
    ex: &Experiment,
    config: &Config,
    h: GraphView,
    needs: spec_fn(Task) -> bool,
    steps: nat,
)
    requires
        4 * crates.len() + 4 <= u32::MAX,
        in_walk(crates, ex, config, h, needs),
        steps >= h.nodes.dom().len(),
    ensures
        handed_out(h, needs, steps).len() == tasks_left(h, crates.len()),
        forall|a: int|
            0 <= a < handed_out(h, needs, steps).len() ==> is_task_id(
                #[trigger] handed_out(h, needs, steps)[a],
                crates.len(),
            ) && h.contains(handed_out(h, needs, steps)[a]),
        forall|n: NodeId|
            is_task_id(n, crates.len()) && #[trigger] h.contains(n) ==> handed_out(
                h,
                needs,
                steps,
            ).contains(n),
        forall|a: int, b: int|
            0 <= a < b < handed_out(h, needs, steps).len() ==> #[trigger] handed_out(
                h,
                needs,
                steps,
            )[a] != #[trigger] handed_out(h, needs, steps)[b],
        forall|a: int, b: int, j: int, which: int|
            #![trigger handed_out(h, needs, steps)[a], handed_out(h, needs, steps)[b], build_id(j, which)]
            0 <= a < b < handed_out(h, needs, steps).len() && 0 <= j < crates.len() && 0 <= which
                <= 1 ==> !(handed_out(h, needs, steps)[a] == build_id(j, which) && handed_out(
                h,
                needs,
                steps,
            )[b] == prepare_id(j)),
    decreases steps,
{
    let count = crates.len();
    let list = handed_out(h, needs, steps);
    assert(all_needed(h, needs)) by {
        let g = graph_of(crates, ex, config);
        assert forall|n: NodeId| #[trigger] h.is_idle(n) implies needs(h.nodes[n]->task) by {
            assert(h.contains(n));
            assert(g.is_idle(n));
        }
    }
    lemma_walk(h, h.root, needs);
    lemma_walk_exact(h, h.root, needs);
    let walked = h.walk(h.root, needs);
    match walked.1 {
        WalkResult::Task(id, _) => {
            lemma_walk_step(crates, ex, config, h, needs);
            assert(h.nodes.dom().len() >= 1);
            let left = walked.0.remove(id);
            let rest = handed_out(left, needs, (steps - 1) as nat);
            lemma_handed_out(crates, ex, config, left, needs, (steps - 1) as nat);
            lemma_tasks_left_less(h, left, count, id);
            assert(list =~= seq![id] + rest);
            assert forall|a: int| 0 <= a < list.len() implies is_task_id(#[trigger] list[a], count)
                && h.contains(list[a]) by {
                if a > 0 {
                    assert(list[a] == rest[a - 1]);
                    assert(left.contains(rest[a - 1]));
                }
            }
            assert forall|n: NodeId| is_task_id(n, count) && #[trigger] h.contains(
                n,
            ) implies list.contains(n) by {
                if n == id {
                    assert(list[0] == n);
                } else {
                    assert(left.contains(n));
                    assert(rest.contains(n));
                    let a = choose|a: int| 0 <= a < rest.len() && rest[a] == n;
                    assert(list[a + 1] == n);
                }
            }
            assert forall|a: int, b: int| 0 <= a < b < list.len() implies #[trigger] list[a]
                != #[trigger] list[b] by {
                assert(list[b] == rest[b - 1]);
                assert(left.contains(rest[b - 1]));
                if a > 0 {
                    assert(list[a] == rest[a - 1]);
                }
            }
            assert forall|a: int, b: int, j: int, which: int|
                #![trigger list[a], list[b], build_id(j, which)]
                0 <= a < b < list.len() && 0 <= j < count && 0 <= which <= 1 implies !(list[a]
                == build_id(j, which) && list[b] == prepare_id(j)) by {
                assert(list[b] == rest[b - 1]);
                assert(left.contains(rest[b - 1]));
                if a > 0 {
                    assert(list[a] == rest[a - 1]);
                }
            }
        },
        WalkResult::Finished => {
            lemma_only_root(walked.0);
            lemma_tasks_left_all(walked.0, count, count);
            assert forall|n: NodeId| is_task_id(n, count) implies (#[trigger] walked.0.contains(n)
                <==> h.contains(n) && n != 0) by {
                let g = graph_of(crates, ex, config);
                lemma_built(crates, ex, config);
                if h.contains(n) {
                    assert(h.nodes[n] == g.nodes[n]);
                    assert(g.nodes[n] is Task);
                    assert(walked.0.contains(n));
                }
            }
            lemma_tasks_left_less(h, walked.0, count, 0);
            assert forall|n: NodeId| is_task_id(n, count) && #[trigger] h.contains(
                n,
            ) implies list.contains(n) by {
                assert(walked.0.contains(n) <==> h.contains(n) && n != 0);
                assert(walked.0.nodes.dom().contains(n));
            }
        },
        WalkResult::Blocked => {
            assert(some_running(h));
        },
        WalkResult::NotBlocked => {
            assert(!walked.0.contains(h.root));
        },
    }
}

/// A built graph in which every task is needed, run by one worker that
/// completes what it is handed: the worker is handed three tasks for each
/// package, every task of the graph once, and a build never before the
/// preparation of its package. Then only the root is left, and the next
/// walk finds `Finished`.
pub proof fn lemma_built_run_hands_out_every_task(
    crates: Seq<Crate>,
    ex: &Experiment,
    config: &Config,
    needs: spec_fn(Task) -> bool,
)
    requires
        4 * crates.len() + 4 <= u32::MAX,
        all_needed(graph_of(crates, ex, config), needs),
    ensures
        ({
            let g = graph_of(crates, ex, config);
            let steps = 4 * crates.len() + 1;
            let list = handed_out(g, needs, steps);
            let end = run_alone(g, needs, steps);
            &&& list.len() == 3 * crates.len()
            &&& forall|n: NodeId| is_task_id(n, crates.len()) ==> #[trigger] list.contains(n)
            &&& forall|a: int| 0 <= a < list.len() ==> is_task_id(#[trigger] list[a], crates.len())
            &&& forall|a: int, b: int|
                0 <= a < b < list.len() ==> #[trigger] list[a] != #[trigger] list[b]
            &&& forall|a: int, b: int, j: int, which: int|
                #![trigger list[a], list[b], build_id(j, which)]
                0 <= a < b < list.len() && 0 <= j < crates.len() && 0 <= which <= 1 ==> !(list[a]
                    == build_id(j, which) && list[b] == prepare_id(j))
            &&& end.nodes.dom() =~= Set::empty().insert(0u32)
            &&& end.walk(end.root, needs).1 is Finished
        }),
{
    let g = graph_of(crates, ex, config);
    let steps = 4 * crates.len() + 1;
    lemma_built(crates, ex, config);
    assert(!some_running(g)) by {
        if some_running(g) {
            let n = choose|n: NodeId| #[trigger] g.is_running(n);
            assert(g.contains(n) <==> n <= 4 * crates.len());
            assert(n >= 1);
            assert(!g.nodes[n]->running);
        }
    }
    assert(keeps_edges(g, g));
    lemma_handed_out(crates, ex, config, g, needs, steps);
    lemma_tasks_left_all(g, crates.len(), crates.len());
    let list = handed_out(g, needs, steps);
    assert forall|n: NodeId| is_task_id(n, crates.len()) implies #[trigger] list.contains(n) by {
        assert(g.contains(n) <==> n <= 4 * crates.len());
    }
    lemma_run_alone(g, needs, steps);
    lemma_run_alone_keeps(g, needs, steps);
    let end = run_alone(g, needs, steps);
    assert forall|n: NodeId| end.contains(n) implies n == end.root by {
        assert(end.nodes.dom().contains(n));
    }
    lemma_only_root_is_finished(end, needs);
}

/// The graph that a run leaves is well formed, with the root of the graph
/// that it started from.
proof fn lemma_run_alone_keeps(g: GraphView, needs: spec_fn(Task) -> bool, steps: nat)
    requires
        g.wf(),
    ensures
        run_alone(g, needs, steps).wf(),
        run_alone(g, needs, steps).root == g.root,
    decreases steps,
{
    lemma_walk(g, g.root, needs);
    let walked = g.walk(g.root, needs);
    match walked.1 {
        WalkResult::Task(id, _) => {
            if steps > 0 {
                assert(id != walked.0.root) by {
                    assert(walked.0.nodes[walked.0.root] is Root);
                }
                lemma_remove_shrinks(walked.0, id);
                lemma_run_alone_keeps(walked.0.remove(id), needs, (steps - 1) as nat);
            }
        },
        _ => {},
    }
}

/// What is left of the graph that was built for `crates` right after the
/// one worker of a run was handed the task `id`: as between two steps, but
/// that the task `id` is running, and depends on nothing.
pub open spec fn in_task(
    crates: Seq<Crate>,
    ex: &Experiment,
    config: &Config,
    h: GraphView,
    id: NodeId,
) -> bool {
    let g = graph_of(crates, ex, config);
    &&& h.wf()
    &&& covered(h)
    &&& h.root == 0
    &&& h.contains(id)
    &&& h.bare(id)
    &&& h.nodes[id] == (Node::Task { task: g.nodes[id]->task, running: true })
    &&& forall|n: NodeId|
        #[trigger] h.contains(n) ==> g.contains(n) && (n != id ==> h.nodes[n] == g.nodes[n]
            && !h.is_running(n))
    &&& keeps_edges(g, h)
    &&& sub_edges(h.edges, g.edges)
}

/// The walk of a run that hands out a task leaves the graph as `in_task`
/// says, with every task that it had.
proof fn lemma_after_walk(
    crates: Seq<Crate>,
    ex: &Experiment,
    config: &Config,
    h: GraphView,
    needs: spec_fn(Task) -> bool,
)
    requires
        4 * crates.len() + 4 <= u32::MAX,
        in_graph_run(crates, ex, config, h),
        all_needed(h, needs),
        h.walk(h.root, needs).1 is Task,
    ensures
        in_task(crates, ex, config, h.walk(h.root, needs).0, h.walk(h.root, needs).1->Task_0),
        is_task_id(h.walk(h.root, needs).1->Task_0, crates.len()),
        forall|n: NodeId| #[trigger] h.walk(h.root, needs).0.contains(n) ==> h.contains(n),
        forall|n: NodeId|
            is_task_id(n, crates.len()) ==> (#[trigger] h.walk(h.root, needs).0.contains(n)
                <==> h.contains(n)),
{
    let g = graph_of(crates, ex, config);
    let count = crates.len();
    lemma_built(crates, ex, config);
    lemma_walk(h, h.root, needs);
    lemma_walk_exact(h, h.root, needs);
    let h1 = h.walk(h.root, needs).0;
    let id = h.walk(h.root, needs).1->Task_0;
    lemma_keeps_edges_trans(g, h, h1);
    lemma_sub_edges_trans(h1.edges, h.edges, g.edges);
    assert(h.contains(id) && h.nodes[id] == g.nodes[id]);
    assert(g.contains(id) <==> id <= 4 * count);
    assert(id >= 1) by {
        assert(h.nodes[h.root] is Root);
    }
    assert forall|n: NodeId| #[trigger] h1.contains(n) implies g.contains(n) && (n != id
        ==> h1.nodes[n] == g.nodes[n] && !h1.is_running(n)) by {
        assert(h.contains(n));
        if n != id {
            assert(h1.nodes[n] == h.nodes[n]);
            if h1.is_running(n) {
                assert(h.is_running(n));
            }
        }
    }
    assert forall|n: NodeId| is_task_id(n, count) implies (#[trigger] h1.contains(n) <==> h.contains(
        n,
    )) by {
        if h.contains(n) {
            assert(h.nodes[n] == g.nodes[n]);
            assert(g.nodes[n] is Task);
        }
    }
}

/// A node of what is left of a built graph that is not the root depends
/// only on nodes of its own package.
proof fn lemma_depends_within_package(
    g: GraphView,
    count: nat,
    h: GraphView,
    m: NodeId,
    n: NodeId,
)
    requires
        built_shape(g, count),
        sub_edges(h.edges, g.edges),
        m != 0,
        depends_on(h, m, n),
    ensures
        package_of(m) == package_of(n),
{
    let path = choose|path: Seq<NodeId>| #[trigger]
        is_path(h, path) && path[0] == m && path.last() == n;
    assert(is_path(g, path)) by {
        assert forall|k: int| 0 <= k < path.len() - 1 implies has_edge(
            g.edges,
            (#[trigger] path[k], path[k + 1]),
        ) by {
            let e = (path[k], path[k + 1]);
            assert(has_edge(h.edges, e));
            let i = choose|i: int| 0 <= i < h.edges.len() && #[trigger] h.edges[i] == e;
            assert(has_edge(g.edges, h.edges[i]));
        }
    }
    lemma_path_in_package(g, count, path, path.len() - 1);
}

/// A node depends on what an edge joins it to.
proof fn lemma_edge_depends(h: GraphView, m: NodeId, n: NodeId)
    requires
        has_edge(h.edges, (m, n)),
    ensures
        depends_on(h, m, n),
{
    let path = seq![m, n];
    assert forall|k: int| 0 <= k < path.len() - 1 implies has_edge(
        h.edges,
        (#[trigger] path[k], path[k + 1]),
    ) by {
        assert(k == 0);
    }
    assert(is_path(h, path));
    assert(path[0] == m && path.last() == n);
}

/// When the preparation of a package is given up while it runs, the tasks
/// that leave the graph are the preparation and the two builds of the
/// package; the other nodes stay as they are, with the edges between them.
#[verifier::rlimit(60)]
proof fn lemma_failed_tasks(
    crates: Seq<Crate>,
    ex: &Experiment,
    config: &Config,
    h1: GraphView,
    rows: Seq<ResultView>,
    j: int,
    error: Seq<char>,
    failed: TestResult,
)
    requires
        4 * crates.len() + 4 <= u32::MAX,
        0 <= j < crates.len(),
        in_task(crates, ex, config, h1, prepare_id(j)),
        h1.contains(build_id(j, 0)),
        h1.contains(build_id(j, 1)),
    ensures
        ({
            let h2 = h1.fail(rows, prepare_id(j), ex, error, failed).0;
            &&& h2.wf()
            &&& h2.same_frame(h1)
            &&& forall|m: NodeId|
                #[trigger] h2.contains(m) <==> h1.contains(m) && m != prepare_id(j) && m != build_id(
                    j,
                    0,
                ) && m != build_id(j, 1)
            &&& forall|m: NodeId| #[trigger] h2.contains(m) ==> h2.nodes[m] == h1.nodes[m]
            &&& keeps_edges(h1, h2)
            &&& sub_edges(h2.edges, h1.edges)
        }),
        forall|m: NodeId|
            #[trigger] depends_on(h1, m, prepare_id(j)) && h1.contains(m) && h1.nodes[m] is Task
                ==> m == prepare_id(j) || m == build_id(j, 0) || m == build_id(j, 1),
        depends_on(h1, build_id(j, 0), prepare_id(j)),
        depends_on(h1, build_id(j, 1), prepare_id(j)),
{
    let g = graph_of(crates, ex, config);
    let count = crates.len();
    let p = prepare_id(j);
    let h2 = h1.fail(rows, p, ex, error, failed).0;
    lemma_built(crates, ex, config);
    lemma_built_tasks(crates, ex, config);
    let krate = crates[j];
    assert(has_edge(h1.edges, (build_id(j, 0), p))) by {
        assert(has_edge(g.edges, (build_id(j, 0), p)));
    }
    assert(has_edge(h1.edges, (build_id(j, 1), p))) by {
        assert(has_edge(g.edges, (build_id(j, 1), p)));
    }
    lemma_edge_depends(h1, build_id(j, 0), p);
    lemma_edge_depends(h1, build_id(j, 1), p);
    assert(depends_on(h1, p, p)) by {
        let path = seq![p];
        assert(is_path(h1, path));
        assert(path[0] == p && path.last() == p);
    }
    assert forall|m: NodeId|
        #[trigger] depends_on(h1, m, p) && h1.contains(m) && h1.nodes[m] is Task implies m == p || m
        == build_id(j, 0) || m == build_id(j, 1) by {
        assert(g.contains(m) <==> m <= 4 * count);
        assert(m != 0) by {
            assert(h1.nodes[h1.root] is Root);
        }
        lemma_depends_within_package(g, count, h1, m, p);
        assert(package_of(m) == j);
        if m != p {
            assert(h1.nodes[m] == g.nodes[m]);
            assert(m % 4 != 0);
        }
    }
    lemma_fail_removes_dependents(h1, rows, p, ex, error, failed);
    lemma_pruned_same(h1);
    lemma_fail_prunes(h1, h1, rows, p, ex, error, failed);
    assert forall|m: NodeId| #[trigger] h2.contains(m) <==> h1.contains(m) && m != p && m
        != build_id(j, 0) && m != build_id(j, 1) by {
        if h1.contains(m) && m != p && (m == build_id(j, 0) || m == build_id(j, 1)) {
            assert(h1.nodes[m] == g.nodes[m]);
        }
    }
    assert(sub_edges(h2.edges, h1.edges)) by {
        assert forall|i: int| 0 <= i < h2.edges.len() implies has_edge(
            h1.edges,
            #[trigger] h2.edges[i],
        ) by {
            assert(has_edge(h2.edges, h2.edges[i]));
        }
    }
    assert(keeps_edges(h1, h2)) by {
        assert forall|e: (NodeId, NodeId)|
            #![trigger has_edge(h1.edges, e)]
            has_edge(h1.edges, e) && h2.contains(e.0) && h2.contains(e.1) implies has_edge(
            h2.edges,
            e,
        ) by {}
    }
}

/// When the preparation of a package is given up while it runs, the nodes
/// that leave the graph are the preparation and the two builds of the
/// package.
proof fn lemma_failed_left(
    crates: Seq<Crate>,
    ex: &Experiment,
    config: &Config,
    h1: GraphView,
    rows: Seq<ResultView>,
    j: int,
    error: Seq<char>,
    failed: TestResult,
)
    requires
        4 * crates.len() + 4 <= u32::MAX,
        0 <= j < crates.len(),
        in_task(crates, ex, config, h1, prepare_id(j)),
        h1.contains(build_id(j, 0)),
        h1.contains(build_id(j, 1)),
    ensures
        forall|m: NodeId|
            #[trigger] h1.fail(rows, prepare_id(j), ex, error, failed).0.contains(m)
                <==> h1.contains(m) && m != prepare_id(j) && m != build_id(j, 0) && m != build_id(
                j,
                1,
            ),
{
    lemma_failed_tasks(crates, ex, config, h1, rows, j, error, failed);
}

/// When the preparation of a package is given up while it runs, what is
/// left of the graph is as between two steps of a run.
#[verifier::rlimit(60)]
proof fn lemma_failed_graph(
    crates: Seq<Crate>,
    ex: &Experiment,
    config: &Config,
    h1: GraphView,
    rows: Seq<ResultView>,
    j: int,
    error: Seq<char>,
    failed: TestResult,
)
    requires
        4 * crates.len() + 4 <= u32::MAX,
        0 <= j < crates.len(),
        in_task(crates, ex, config, h1, prepare_id(j)),
        h1.contains(build_id(j, 0)),
        h1.contains(build_id(j, 1)),
    ensures
        in_graph_run(crates, ex, config, h1.fail(rows, prepare_id(j), ex, error, failed).0),
{
    let g = graph_of(crates, ex, config);
    let count = crates.len();
    let p = prepare_id(j);
    let h2 = h1.fail(rows, p, ex, error, failed).0;
    lemma_built(crates, ex, config);
    lemma_failed_tasks(crates, ex, config, h1, rows, j, error, failed);
    lemma_keeps_edges_trans(g, h1, h2);
    lemma_sub_edges_trans(h2.edges, h1.edges, g.edges);
    assert forall|n: NodeId| #[trigger] h2.contains(n) implies g.contains(n) && h2.nodes[n]
        == g.nodes[n] by {
        assert(h1.contains(n) && n != p);
    }
    assert(!some_running(h2)) by {
        if some_running(h2) {
            let n = choose|n: NodeId| #[trigger] h2.is_running(n);
            assert(h1.contains(n) && n != p);
            assert(h1.is_running(n));
        }
    }
    assert forall|n: NodeId| #[trigger] h2.contains(n) && n != h2.root implies exists|i: int|
        0 <= i < h2.edges.len() && (#[trigger] h2.edges[i]).1 == n by {
        assert(h1.contains(n));
        let i = choose|i: int| 0 <= i < h1.edges.len() && (#[trigger] h1.edges[i]).1 == n;
        let e = h1.edges[i];
        assert(h1.edge_ok(e));
        assert(has_edge(g.edges, e));
        let a = choose|a: int| 0 <= a < g.edges.len() && #[trigger] g.edges[a] == e;
        assert(g.edges[a].1 == n);
        // The edge comes from the root or from within the package of `n`.
        assert(h2.contains(e.0)) by {
            assert(e.0 != p);
            if e.0 == build_id(j, 0) || e.0 == build_id(j, 1) {
                assert(package_of(n) == j);
                assert(n == p || n == build_id(j, 0));
            }
        }
        assert(has_edge(h1.edges, e));
        assert(has_edge(h2.edges, e));
        let b = choose|b: int| 0 <= b < h2.edges.len() && #[trigger] h2.edges[b] == e;
        assert(h2.edges[b].1 == n);
    }
}

/// When the preparation of a package is given up while it runs, the two
/// builds of the package get the outcome of the failure, and no other
/// build gets an outcome or loses one.
#[verifier::rlimit(60)]
proof fn lemma_failed_rows(
    crates: Seq<Crate>,
    ex: &Experiment,
    config: &Config,
    h1: GraphView,
    rows: Seq<ResultView>,
    j: int,
    error: Seq<char>,
    failed: TestResult,
)
    requires
        4 * crates.len() + 4 <= u32::MAX,
        distinct_crates(crates),
        ex.spec_valid(),
        distinct_keys(rows),
        0 <= j < crates.len(),
        in_task(crates, ex, config, h1, prepare_id(j)),
        h1.contains(build_id(j, 0)),
        h1.contains(build_id(j, 1)),
    ensures
        distinct_keys(h1.fail(rows, prepare_id(j), ex, error, failed).1),
        forall|a: int, at: int|
            #![trigger build_key(crates, ex, a, at)]
            0 <= a < crates.len() && 0 <= at <= 1 ==> outcome_of(
                h1.fail(rows, prepare_id(j), ex, error, failed).1,
                build_key(crates, ex, a, at),
            ) == if a == j {
                Some(failed)
            } else {
                outcome_of(rows, build_key(crates, ex, a, at))
            },
{
    let g = graph_of(crates, ex, config);
    let count = crates.len();
    let p = prepare_id(j);
    let rows2 = h1.fail(rows, p, ex, error, failed).1;
    lemma_built_tasks(crates, ex, config);
    lemma_failed_tasks(crates, ex, config, h1, rows, j, error, failed);
    lemma_fail_records_dependents(h1, rows, p, ex, error, failed);
    let own = crates[j];
    assert(h1.nodes[build_id(j, 0)] == g.nodes[build_id(j, 0)]);
    assert(h1.nodes[build_id(j, 1)] == g.nodes[build_id(j, 1)]);
    assert(records_under(h1, build_id(j, 0), ex, build_key(crates, ex, j, 0)));
    assert(records_under(h1, build_id(j, 1), ex, build_key(crates, ex, j, 1)));
    assert forall|a: int, at: int|
        #![trigger build_key(crates, ex, a, at)]
        0 <= a < count && 0 <= at <= 1 implies outcome_of(rows2, build_key(crates, ex, a, at))
        == if a == j {
        Some(failed)
    } else {
        outcome_of(rows, build_key(crates, ex, a, at))
    } by {
        let key = build_key(crates, ex, a, at);
        if a == j {
            let b = build_id(j, at);
            assert(depends_on(h1, b, p) && records_under(h1, b, ex, key));
        } else {
            if exists|m: NodeId| #[trigger] depends_on(h1, m, p) && records_under(h1, m, ex, key) {
                let m = choose|m: NodeId|
                    #[trigger] depends_on(h1, m, p) && records_under(h1, m, ex, key);
                assert(m == p || m == build_id(j, 0) || m == build_id(j, 1));
                if m == p {
                    assert(h1.nodes[p]->task == g.nodes[p]->task);
                } else {
                    let which: int = if m == build_id(j, 0) {
                        0
                    } else {
                        1
                    };
                    assert(key == build_key(crates, ex, j, which));
                    lemma_build_keys_differ(crates, ex, a, at, j, which);
                }
            }
        }
    }
}

/// The failure of a preparation keeps a run a run. When the one worker is
/// handed the preparation of a package and the preparation fails, what is
/// left and what is recorded are again as between two steps of a run.
#[verifier::rlimit(60)]
proof fn lemma_preparation_fails_in_run(
    crates: Seq<Crate>,
    ex: &Experiment,
    config: &Config,
    h: GraphView,
    rows: Seq<ResultView>,
    j: int,
    error: Seq<char>,
    failed: TestResult,
)
    requires
        4 * crates.len() + 4 <= u32::MAX,
        distinct_crates(crates),
        ex.spec_valid(),
        in_run(crates, ex, config, h, rows),
        0 <= j < crates.len(),
        h.walk(h.root, needs_exec_in(ex, rows)).1 is Task,
        h.walk(h.root, needs_exec_in(ex, rows)).1->Task_0 == prepare_id(j),
    ensures
        ({
            let walked = h.walk(h.root, needs_exec_in(ex, rows));
            let after = walked.0.fail(rows, prepare_id(j), ex, error, failed);
            in_run(crates, ex, config, after.0, after.1)
        }),
{
    let count = crates.len();
    let needs = needs_exec_in(ex, rows);
    let p = prepare_id(j);
    lemma_in_run_needed(crates, ex, config, h, rows);
    lemma_after_walk(crates, ex, config, h, needs);
    let h1 = h.walk(h.root, needs).0;
    let after = h1.fail(rows, p, ex, error, failed);
    let h2 = after.0;
    let rows2 = after.1;
    assert(h.contains(p));
    assert(h.contains(build_id(j, 0)) && h.contains(build_id(j, 1)));
    assert(is_task_id(build_id(j, 0), count) && is_task_id(build_id(j, 1), count));
    assert(h1.contains(build_id(j, 0)) && h1.contains(build_id(j, 1)));
    lemma_failed_left(crates, ex, config, h1, rows, j, error, failed);
    lemma_failed_graph(crates, ex, config, h1, rows, j, error, failed);
    lemma_failed_rows(crates, ex, config, h1, rows, j, error, failed);
    assert forall|a: int, at: int|
        #![trigger build_id(a, at)]
        0 <= a < count && 0 <= at <= 1 implies (h2.contains(build_id(a, at)) <==> !has_result(
        rows2,
        build_key(crates, ex, a, at),
    )) by {
        let key = build_key(crates, ex, a, at);
        let b = build_id(a, at);
        assert(is_task_id(b, count));
        assert(outcome_of(rows2, key) == if a == j {
            Some(failed)
        } else {
            outcome_of(rows, key)
        });
        assert(h.contains(b) <==> !has_result(rows, key));
        assert(h1.contains(b) <==> h.contains(b));
    }
    assert forall|a: int|
        #![trigger prepare_id(a)]
        0 <= a < count && h2.contains(prepare_id(a)) implies h2.contains(build_id(a, 0))
        && h2.contains(build_id(a, 1)) by {
        assert(a != j);
        assert(h1.contains(prepare_id(a)));
        assert(h.contains(prepare_id(a)));
        assert(h.contains(build_id(a, 0)) && h.contains(build_id(a, 1)));
        assert(is_task_id(build_id(a, 0), count) && is_task_id(build_id(a, 1), count));
        assert(h1.contains(build_id(a, 0)) <==> h.contains(build_id(a, 0)));
        assert(h1.contains(build_id(a, 1)) <==> h.contains(build_id(a, 1)));
    }
}

/// When the one worker of a run is handed the preparation of a package and
/// the preparation fails, the graph loses the preparation.
proof fn lemma_preparation_fails_less(
    crates: Seq<Crate>,
    ex: &Experiment,
    config: &Config,
    h: GraphView,
    rows: Seq<ResultView>,
    j: int,
    error: Seq<char>,
    failed: TestResult,
)
    requires
        4 * crates.len() + 4 <= u32::MAX,
        in_run(crates, ex, config, h, rows),
        0 <= j < crates.len(),
        h.walk(h.root, needs_exec_in(ex, rows)).1 is Task,
        h.walk(h.root, needs_exec_in(ex, rows)).1->Task_0 == prepare_id(j),
    ensures
        ({
            let walked = h.walk(h.root, needs_exec_in(ex, rows));
            let after = walked.0.fail(rows, prepare_id(j), ex, error, failed);
            &&& after.0.nodes.dom().len() < h.nodes.dom().len()
            &&& !after.0.contains(prepare_id(j))
            &&& in_task(crates, ex, config, walked.0, prepare_id(j))
            &&& walked.0.contains(build_id(j, 0))
            &&& walked.0.contains(build_id(j, 1))
        }),
{
    let count = crates.len();
    let needs = needs_exec_in(ex, rows);
    let p = prepare_id(j);
    lemma_in_run_needed(crates, ex, config, h, rows);
    lemma_after_walk(crates, ex, config, h, needs);
    let h1 = h.walk(h.root, needs).0;
    let h2 = h1.fail(rows, p, ex, error, failed).0;
    assert(h.contains(p));
    assert(h.contains(build_id(j, 0)) && h.contains(build_id(j, 1)));
    assert(is_task_id(build_id(j, 0), count) && is_task_id(build_id(j, 1), count));
    assert(h1.contains(build_id(j, 0)) && h1.contains(build_id(j, 1)));
    lemma_failed_left(crates, ex, config, h1, rows, j, error, failed);
    assert(h2.nodes.dom().subset_of(h.nodes.dom().remove(p))) by {
        assert forall|n: NodeId| h2.nodes.dom().contains(n) implies h.nodes.dom().remove(
            p,
        ).contains(n) by {
            assert(h2.contains(n));
            assert(h1.contains(n));
        }
    }
    vstd::set_lib::lemma_len_subset(h2.nodes.dom(), h.nodes.dom().remove(p));
}

/// The failure of a preparation keeps a run a run. When the one worker is
/// handed the preparation of a package and the preparation fails, the
/// preparation and the two builds of the package leave the graph, both
/// builds have the outcome of the failure, and the outcomes of the other
/// packages are as they were.
pub proof fn lemma_preparation_fails(
    crates: Seq<Crate>,
    ex: &Experiment,
    config: &Config,
    h: GraphView,
    rows: Seq<ResultView>,
    j: int,
    error: Seq<char>,
    failed: TestResult,
)
    requires
        4 * crates.len() + 4 <= u32::MAX,
        distinct_crates(crates),
        ex.spec_valid(),
        in_run(crates, ex, config, h, rows),
        0 <= j < crates.len(),
        h.walk(h.root, needs_exec_in(ex, rows)).1 is Task,
        h.walk(h.root, needs_exec_in(ex, rows)).1->Task_0 == prepare_id(j),
    ensures
        ({
            let walked = h.walk(h.root, needs_exec_in(ex, rows));
            let after = walked.0.fail(rows, prepare_id(j), ex, error, failed);
            &&& in_run(crates, ex, config, after.0, after.1)
            &&& after.0.nodes.dom().len() < h.nodes.dom().len()
            &&& !after.0.contains(prepare_id(j))
            &&& !after.0.contains(build_id(j, 0))
            &&& !after.0.contains(build_id(j, 1))
            &&& forall|a: int, at: int|
                #![trigger build_key(crates, ex, a, at)]
                0 <= a < crates.len() && 0 <= at <= 1 ==> outcome_of(
                    after.1,
                    build_key(crates, ex, a, at),
                ) == if a == j {
                    Some(failed)
                } else {
                    outcome_of(rows, build_key(crates, ex, a, at))
                }
        }),
{
    lemma_preparation_fails_in_run(crates, ex, config, h, rows, j, error, failed);
    lemma_preparation_fails_less(crates, ex, config, h, rows, j, error, failed);
    let h1 = h.walk(h.root, needs_exec_in(ex, rows)).0;
    lemma_failed_left(crates, ex, config, h1, rows, j, error, failed);
    lemma_failed_rows(crates, ex, config, h1, rows, j, error, failed);
}

/// A run in which one preparation fails. When the one worker is handed the
/// preparation of a package and it fails, and every task after it
/// succeeds, the run still ends with only the root. In the end the two
/// builds of the package have the outcome of the failure: they were never
/// run. Every other build has the outcome that it had before, or else the
/// outcome of its own run.
pub proof fn lemma_run_with_failed_preparation(
    crates: Seq<Crate>,
    ex: &Experiment,
    config: &Config,
    h: GraphView,
    rows: Seq<ResultView>,
    j: int,
    error: Seq<char>,
    failed: TestResult,
    passed: TestResult,
)
    requires
        4 * crates.len() + 4 <= u32::MAX,
        distinct_crates(crates),
        ex.spec_valid(),
        in_run(crates, ex, config, h, rows),
        0 <= j < crates.len(),
        h.walk(h.root, needs_exec_in(ex, rows)).1 is Task,
        h.walk(h.root, needs_exec_in(ex, rows)).1->Task_0 == prepare_id(j),
    ensures
        ({
            let walked = h.walk(h.root, needs_exec_in(ex, rows));
            let after = walked.0.fail(rows, prepare_id(j), ex, error, failed);
            let end = run_recording(after.0, ex, after.1, passed, h.nodes.dom().len());
            &&& end.0.nodes.dom() =~= Set::empty().insert(0u32)
            &&& forall|a: int, at: int|
                #![trigger build_key(crates, ex, a, at)]
                0 <= a < crates.len() && 0 <= at <= 1 ==> outcome_of(
                    end.1,
                    build_key(crates, ex, a, at),
                ) == if a == j {
                    Some(failed)
                } else if has_result(rows, build_key(crates, ex, a, at)) {
                    outcome_of(rows, build_key(crates, ex, a, at))
                } else {
                    Some(passed)
                }
        }),
{
    lemma_preparation_fails(crates, ex, config, h, rows, j, error, failed);
    let walked = h.walk(h.root, needs_exec_in(ex, rows));
    let after = walked.0.fail(rows, prepare_id(j), ex, error, failed);
    let steps = h.nodes.dom().len();
    lemma_run_to_end(crates, ex, config, after.0, after.1, passed, steps);
    let end = run_recording(after.0, ex, after.1, passed, steps);
    assert forall|a: int, at: int|
        #![trigger build_key(crates, ex, a, at)]
        0 <= a < crates.len() && 0 <= at <= 1 implies outcome_of(
        end.1,
        build_key(crates, ex, a, at),
    ) == if a == j {
        Some(failed)
    } else if has_result(rows, build_key(crates, ex, a, at)) {
        outcome_of(rows, build_key(crates, ex, a, at))
    } else {
        Some(passed)
    } by {
        let key = build_key(crates, ex, a, at);
        assert(outcome_of(after.1, key) == if a == j {
            Some(failed)
        } else {
            outcome_of(rows, key)
        });
    }
}

} // verus!
