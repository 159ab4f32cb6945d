use vstd::prelude::*;
use crate::run_graph::{
    lemma_remove_wf, lemma_start_wf, lemma_targets, lemma_without_node, needs_exec_in, GraphView,
    Node, NodeId, WalkResult,
};
use crate::db::{has_result, ResultStore, ResultView};
use crate::ex::Experiment;
use crate::stable_graph::targets_newest_first;
use crate::tasks::Task;

verus! {

/// `e` is one of `edges`.
pub open spec fn has_edge(edges: Seq<(NodeId, NodeId)>, e: (NodeId, NodeId)) -> bool {
    exists|j: int| 0 <= j < edges.len() && #[trigger] edges[j] == e
}

/// A chain of edges: each node of `path` depends on the next.
pub open spec fn is_path(g: GraphView, path: Seq<NodeId>) -> bool {
    &&& path.len() >= 1
    &&& forall|k: int|
        0 <= k < path.len() - 1 ==> has_edge(g.edges, (#[trigger] path[k], path[k + 1]))
}

/// Every edge of `small` is an edge of `big`.
pub open spec fn sub_edges(small: Seq<(NodeId, NodeId)>, big: Seq<(NodeId, NodeId)>) -> bool {
    forall|i: int| 0 <= i < small.len() ==> has_edge(big, #[trigger] small[i])
}

/// `h` is what is left of `g` after nodes went: a well-formed graph of the
/// same shape whose nodes and edges are nodes and edges of `g`.
pub open spec fn shrinks(g: GraphView, h: GraphView) -> bool {
    &&& h.wf()
    &&& h.same_frame(g)
    &&& forall|n: NodeId| h.contains(n) ==> g.contains(n)
    &&& sub_edges(h.edges, g.edges)
}

/// Every node of `h` is as it was in `g`.
pub open spec fn nodes_kept(g: GraphView, h: GraphView) -> bool {
    forall|n: NodeId| h.contains(n) ==> #[trigger] h.nodes[n] == g.nodes[n]
}

/// Every node of `h` is as it was in `g`, but for the task `id`, which was
/// idle and is running.
pub open spec fn nodes_kept_but(g: GraphView, h: GraphView, id: NodeId) -> bool {
    &&& g.is_idle(id)
    &&& h.contains(id)
    &&& h.nodes[id] == (Node::Task { task: g.nodes[id]->task, running: true })
    &&& forall|n: NodeId| h.contains(n) && n != id ==> #[trigger] h.nodes[n] == g.nodes[n]
}

/// Every task that runs in `g` is still in `h`.
pub open spec fn running_stay(g: GraphView, h: GraphView) -> bool {
    forall|n: NodeId| #[trigger] g.is_running(n) ==> h.contains(n)
}

/// Something depends on every node but the root. In a well-formed graph
/// every node then hangs from the root by a chain of edges.
pub open spec fn covered(g: GraphView) -> bool {
    forall|n: NodeId|
        #[trigger] g.contains(n) && n != g.root ==> exists|i: int|
            0 <= i < g.edges.len() && (#[trigger] g.edges[i]).1 == n
}

/// Some task of the graph is running.
pub open spec fn some_running(g: GraphView) -> bool {
    exists|n: NodeId| #[trigger] g.is_running(n)
}

/// Every idle task of the graph is needed.
pub open spec fn all_needed(g: GraphView, needs: spec_fn(Task) -> bool) -> bool {
    forall|n: NodeId| #[trigger] g.is_idle(n) ==> needs(g.nodes[n]->task)
}

/// What holds of a walk from `g` that left `h` and found `found`.
///
/// Nodes only leave. A task that is handed out was idle and needed, is
/// running after, depends on nothing any more, and is the only node that
/// changed; a task that was running is neither handed out nor taken away. `Finished` is
/// found only at the root, which then depends on nothing. While every idle
/// task is needed, a graph that hangs from its root still does after.
pub open spec fn walk_post(
    g: GraphView,
    h: GraphView,
    found: WalkResult,
    needs: spec_fn(Task) -> bool,
) -> bool {
    &&& shrinks(g, h)
    &&& running_stay(g, h)
    &&& match found {
        WalkResult::Task(id, task) => nodes_kept_but(g, h, id) && task == g.nodes[id]->task
            && needs(task) && h.bare(id),
        _ => nodes_kept(g, h),
    }
    &&& covered(g) && all_needed(g, needs) ==> covered(h)
}

/// Edges of edges are edges.
pub proof fn lemma_sub_edges_trans(
    a: Seq<(NodeId, NodeId)>,
    b: Seq<(NodeId, NodeId)>,
    c: Seq<(NodeId, NodeId)>,
)
    requires
        sub_edges(a, b),
        sub_edges(b, c),
    ensures
        sub_edges(a, c),
{
    assert forall|i: int| 0 <= i < a.len() implies has_edge(c, #[trigger] a[i]) by {
        assert(has_edge(b, a[i]));
        let k = choose|k: int| 0 <= k < b.len() && #[trigger] b[k] == a[i];
        assert(has_edge(c, b[k]));
    }
}

/// A graph shrinks to itself, and stays as it is.
pub proof fn lemma_shrinks_same(g: GraphView)
    requires
        g.wf(),
    ensures
        shrinks(g, g),
        running_stay(g, g),
        nodes_kept(g, g),
{
    assert forall|i: int| 0 <= i < g.edges.len() implies has_edge(g.edges, #[trigger] g.edges[i]) by {
        assert(g.edges[i] == g.edges[i]);
    }
}

/// Taking out a node other than the root shrinks the graph, and changes no
/// other node. Where the node depended on nothing, a graph that hangs from
/// its root still does.
pub proof fn lemma_remove_shrinks(g: GraphView, n: NodeId)
    requires
        g.wf(),
        n != g.root,
    ensures
        shrinks(g, g.remove(n)),
        nodes_kept(g, g.remove(n)),
        !g.remove(n).contains(n),
        forall|m: NodeId| g.contains(m) && m != n ==> g.remove(n).contains(m),
        covered(g) && g.bare(n) ==> covered(g.remove(n)),
{
    let h = g.remove(n);
    lemma_remove_wf(g, n);
    lemma_without_node(g.edges, n);
    assert forall|i: int| 0 <= i < h.edges.len() implies has_edge(g.edges, #[trigger] h.edges[i]) by {
        let e = h.edges[i];
        let j = choose|j: int| 0 <= j < g.edges.len() && #[trigger] g.edges[j] == e;
        assert(g.edges[j] == h.edges[i]);
    }
    if covered(g) && g.bare(n) {
        assert forall|m: NodeId| #[trigger] h.contains(m) && m != h.root implies exists|i: int|
            0 <= i < h.edges.len() && (#[trigger] h.edges[i]).1 == m by {
            assert(g.contains(m));
            let j = choose|j: int| 0 <= j < g.edges.len() && (#[trigger] g.edges[j]).1 == m;
            assert(g.edges[j].0 != n);
            let k = choose|k: int| 0 <= k < h.edges.len() && #[trigger] h.edges[k] == g.edges[j];
            assert(h.edges[k].1 == m);
        }
    }
}

/// The `k`-th dependency of `node` is the target of an edge that leaves
/// `node`; and the target of every such edge is among the dependencies.
pub proof fn lemma_out(g: GraphView, node: NodeId)
    ensures
        forall|k: int|
            0 <= k < g.out(node).len() ==> exists|i: int|
                0 <= i < g.edges.len() && #[trigger] g.edges[i] == (node, #[trigger] g.out(node)[k]),
        forall|i: int|
            0 <= i < g.edges.len() && (#[trigger] g.edges[i]).0 == node ==> g.out(node).contains(
                g.edges[i].1,
            ),
{
    lemma_targets(g.edges, node);
    let t = targets_newest_first(g.edges, node);
    assert forall|k: int| 0 <= k < g.out(node).len() implies exists|i: int|
        0 <= i < g.edges.len() && #[trigger] g.edges[i] == (node, #[trigger] g.out(node)[k]) by {
        let j = t.len() - 1 - k;
        assert(g.out(node)[k] == t[j]);
        let i = choose|i: int| 0 <= i < g.edges.len() && #[trigger] g.edges[i] == (node, t[j]);
        assert(g.edges[i] == (node, g.out(node)[k]));
    }
    lemma_targets_hold(g.edges, node);
    assert forall|i: int| 0 <= i < g.edges.len() && (#[trigger] g.edges[i]).0 == node implies g.out(
        node,
    ).contains(g.edges[i].1) by {
        assert(t.contains(g.edges[i].1));
        let j = choose|j: int| 0 <= j < t.len() && t[j] == g.edges[i].1;
        assert(g.out(node)[t.len() - 1 - j] == t[j]);
    }
}

/// The target of every edge that leaves `a` is among the targets.
pub proof fn lemma_targets_hold(edges: Seq<(NodeId, NodeId)>, a: NodeId)
    ensures
        forall|i: int|
            0 <= i < edges.len() && (#[trigger] edges[i]).0 == a ==> targets_newest_first(
                edges,
                a,
            ).contains(edges[i].1),
    decreases edges.len(),
{
    if edges.len() > 0 {
        let front = edges.drop_last();
        lemma_targets_hold(front, a);
        let t = targets_newest_first(edges, a);
        let rest = targets_newest_first(front, a);
        assert forall|i: int| 0 <= i < edges.len() && (#[trigger] edges[i]).0 == a implies t.contains(
            edges[i].1,
        ) by {
            if i == edges.len() - 1 {
                assert(t[0] == edges[i].1);
            } else {
                assert(front[i] == edges[i]);
                assert(rest.contains(front[i].1));
                let j = choose|j: int| 0 <= j < rest.len() && rest[j] == front[i].1;
                if edges.last().0 == a {
                    assert(t[j + 1] == rest[j]);
                } else {
                    assert(t[j] == rest[j]);
                }
            }
        }
    }
}

/// A node is bare once nothing of what it depended on is left.
pub proof fn lemma_children_gone(g: GraphView, h: GraphView, node: NodeId)
    requires
        shrinks(g, h),
        forall|k: int| 0 <= k < g.out(node).len() ==> !h.contains(#[trigger] g.out(node)[k]),
    ensures
        h.bare(node),
{
    lemma_out(g, node);
    assert forall|i: int| 0 <= i < h.edges.len() implies (#[trigger] h.edges[i]).0 != node by {
        if h.edges[i].0 == node {
            assert(has_edge(g.edges, h.edges[i]));
            let j = choose|j: int| 0 <= j < g.edges.len() && #[trigger] g.edges[j] == h.edges[i];
            assert(g.edges[j].0 == node);
            assert(g.out(node).contains(g.edges[j].1));
            assert(h.edge_ok(h.edges[i]));
        }
    }
}

/// What holds of every walk from a node of a well-formed graph: see
/// `walk_post`. Moreover a walk that finds `NotBlocked` has taken its node
/// away, a walk that finds `Finished` started at the root, and a walk finds
/// `Blocked` only where a task is running.
pub proof fn lemma_walk(g: GraphView, node: NodeId, needs: spec_fn(Task) -> bool)
    requires
        g.wf(),
    ensures
        walk_post(g, g.walk(node, needs).0, g.walk(node, needs).1, needs),
        g.walk(node, needs).1 is NotBlocked ==> !g.walk(node, needs).0.contains(node),
        g.walk(node, needs).1 is Finished ==> node == g.root && g.walk(node, needs).0.bare(node),
        g.walk(node, needs).1 is Blocked ==> some_running(g),
    decreases 2 * g.rank_of(node) + 1, 0nat,
{
    lemma_shrinks_same(g);
    if !g.contains(node) {
    } else if g.is_idle(node) && !needs(g.nodes[node]->task) {
        lemma_remove_shrinks(g, node);
        assert forall|n: NodeId| #[trigger] g.is_running(n) implies g.remove(node).contains(n) by {}
    } else {
        let children = g.out(node);
        let bound = g.rank_of(node);
        lemma_out(g, node);
        assert forall|k: int| 0 <= k < children.len() implies (#[trigger] children[k]) != g.root
            && g.rank_of(children[k]) < bound by {
            let i = choose|i: int|
                0 <= i < g.edges.len() && #[trigger] g.edges[i] == (node, children[k]);
            assert(g.edge_ok(g.edges[i]));
        }
        lemma_walk_children(g, children, needs, bound);
        let below = g.walk_children(children, needs, bound);
        let g1 = below.0;
        if below.1 is NotBlocked {
            // Nothing that `node` depended on is left.
            lemma_children_gone(g, g1, node);
            lemma_shrinks_same(g1);
            if !g1.contains(node) {
            } else {
                assert(g1.nodes[node] == g.nodes[node]);
                match g1.nodes[node] {
                    Node::Task { task, running } => {
                        if running {
                            assert(g.is_running(node));
                        }
                        if !running {
                            lemma_start_wf(g1, node);
                            let h = g1.start(node);
                            assert(h.nodes.dom() =~= g1.nodes.dom());
                            assert(sub_edges(h.edges, g.edges));
                            assert(shrinks(g, h));
                            assert forall|n: NodeId| #[trigger] g.is_running(n) implies h.contains(
                                n,
                            ) by {
                                assert(g1.contains(n));
                            }
                            assert(nodes_kept_but(g, h, node));
                            if covered(g) && all_needed(g, needs) {
                                assert forall|m: NodeId|
                                    #[trigger] h.contains(m) && m != h.root implies exists|i: int|
                                    0 <= i < h.edges.len() && (#[trigger] h.edges[i]).1 == m by {
                                    assert(g1.contains(m));
                                }
                            }
                        }
                    },
                    Node::CrateCompleted => {
                        lemma_remove_shrinks(g1, node);
                        let h = g1.remove(node);
                        lemma_sub_edges_trans(h.edges, g1.edges, g.edges);
                        assert forall|n: NodeId| #[trigger] g.is_running(n) implies h.contains(
                            n,
                        ) by {
                            assert(g1.contains(n));
                        }
                        assert(nodes_kept(g, h));
                    },
                    Node::Root => {
                        assert(node == g.root);
                    },
                }
            }
        } else {
            assert(!(below.1 is Finished));
        }
    }
}

/// What holds of every walk through children that are not the root and
/// rank below `bound`: see `walk_post`. Moreover the walk does not find
/// `Finished`, and where it finds `NotBlocked`, none of the children is
/// left.
pub proof fn lemma_walk_children(
    g: GraphView,
    children: Seq<NodeId>,
    needs: spec_fn(Task) -> bool,
    bound: nat,
)
    requires
        g.wf(),
        forall|k: int|
            0 <= k < children.len() ==> (#[trigger] children[k]) != g.root && g.rank_of(children[k])
                < bound,
    ensures
        walk_post(
            g,
            g.walk_children(children, needs, bound).0,
            g.walk_children(children, needs, bound).1,
            needs,
        ),
        !(g.walk_children(children, needs, bound).1 is Finished),
        g.walk_children(children, needs, bound).1 is NotBlocked ==> forall|k: int|
            0 <= k < children.len() ==> !g.walk_children(children, needs, bound).0.contains(
                #[trigger] children[k],
            ),
        g.walk_children(children, needs, bound).1 is Blocked ==> some_running(g),
    decreases 2 * bound, children.len(),
{
    lemma_shrinks_same(g);
    if children.len() > 0 {
        assert(children[0] != g.root && g.rank_of(children[0]) < bound);
        lemma_walk(g, children[0], needs);
        let first = g.walk(children[0], needs);
        let g1 = first.0;
        match first.1 {
            WalkResult::Task(..) | WalkResult::Finished => {},
            _ => {
                let tail = children.drop_first();
                assert forall|k: int| 0 <= k < tail.len() implies (#[trigger] tail[k]) != g1.root
                    && g1.rank_of(tail[k]) < bound by {
                    assert(tail[k] == children[k + 1]);
                }
                lemma_walk_children(g1, tail, needs, bound);
                let rest = g1.walk_children(tail, needs, bound);
                let h = rest.0;
                lemma_sub_edges_trans(h.edges, g1.edges, g.edges);
                assert(shrinks(g, h));
                assert forall|n: NodeId| #[trigger] g.is_running(n) implies h.contains(n) by {
                    assert(g1.contains(n));
                    assert(g1.nodes[n] == g.nodes[n]);
                    assert(g1.is_running(n));
                }
                if some_running(g1) {
                    let n = choose|n: NodeId| #[trigger] g1.is_running(n);
                    assert(g1.nodes[n] == g.nodes[n]);
                    assert(g.is_running(n));
                }
                assert(all_needed(g, needs) ==> all_needed(g1, needs)) by {
                    if all_needed(g, needs) {
                        assert forall|n: NodeId| #[trigger] g1.is_idle(n) implies needs(
                            g1.nodes[n]->task,
                        ) by {
                            assert(g1.nodes[n] == g.nodes[n]);
                            assert(g.is_idle(n));
                        }
                    }
                }
                match rest.1 {
                    WalkResult::Task(id, task) => {
                        assert(g1.nodes[id] == g.nodes[id]);
                        assert(nodes_kept_but(g, h, id)) by {
                            assert forall|n: NodeId| h.contains(n) && n != id implies #[trigger] h.nodes[n]
                                == g.nodes[n] by {
                                assert(g1.contains(n));
                                assert(g1.nodes[n] == g.nodes[n]);
                            }
                        }
                    },
                    _ => {
                        assert(nodes_kept(g, h)) by {
                            assert forall|n: NodeId| h.contains(n) implies #[trigger] h.nodes[n]
                                == g.nodes[n] by {
                                assert(g1.contains(n));
                                assert(g1.nodes[n] == g.nodes[n]);
                            }
                        }
                        if rest.1 is NotBlocked && first.1 is NotBlocked {
                            assert forall|k: int| 0 <= k < children.len() implies !h.contains(
                                #[trigger] children[k],
                            ) by {
                                if k > 0 {
                                    assert(tail[k - 1] == children[k]);
                                }
                            }
                        }
                    },
                }
            },
        }
    }
}

/// What a walk from the root of a well-formed graph gives. The answer is
/// never `NotBlocked`. A task that is handed out was idle and needed, and
/// is running after. Every task that was running still is. The answer is `Blocked`
/// only where a task is running, whose end can wake those that wait. And
/// where the answer is `Finished`, the root depends on nothing any more.
pub proof fn lemma_next_task(g: GraphView, needs: spec_fn(Task) -> bool)
    requires
        g.wf(),
    ensures
        g.walk(g.root, needs).0.wf(),
        !(g.walk(g.root, needs).1 is NotBlocked),
        g.walk(g.root, needs).1 is Finished ==> g.walk(g.root, needs).0.bare(g.root),
        g.walk(g.root, needs).1 is Blocked ==> some_running(g),
        g.walk(g.root, needs).1 matches WalkResult::Task(id, task) ==> g.is_idle(id) && task
            == g.nodes[id]->task && needs(task) && g.walk(g.root, needs).0.is_running(id),
        forall|n: NodeId| #[trigger] g.is_running(n) ==> g.walk(g.root, needs).0.is_running(n),
{
    lemma_walk(g, g.root, needs);
    let h = g.walk(g.root, needs).0;
    assert forall|n: NodeId| #[trigger] g.is_running(n) implies h.is_running(n) by {
        assert(h.contains(n));
        assert(h.nodes[n] == g.nodes[n]);
    }
}

/// The walker does not hand out a task twice: the task that one walk hands
/// out is not the task that the next walk hands out, whatever is needed
/// then.
pub proof fn lemma_no_task_twice(
    g: GraphView,
    needs: spec_fn(Task) -> bool,
    then_needs: spec_fn(Task) -> bool,
)
    requires
        g.wf(),
        g.walk(g.root, needs).1 is Task,
    ensures
        ({
            let first = g.walk(g.root, needs);
            let second = first.0.walk(first.0.root, then_needs);
            second.1 is Task ==> second.1->Task_0 != first.1->Task_0
        }),
{
    lemma_next_task(g, needs);
    lemma_next_task(g.walk(g.root, needs).0, then_needs);
}

/// A task that runs is not taken away when another node leaves the graph.
pub proof fn lemma_running_survives_completion(g: GraphView, n: NodeId, other: NodeId)
    requires
        g.is_running(n),
        other != n,
    ensures
        g.remove(other).is_running(n),
{
}

/// In a well-formed graph that hangs from its root, no node ranks `depth`
/// or less below the root once the root depends on nothing.
proof fn lemma_no_node_at_depth(g: GraphView, depth: nat)
    requires
        g.wf(),
        covered(g),
        g.bare(g.root),
    ensures
        forall|n: NodeId| #[trigger] g.contains(n) && n != g.root ==> g.depth_of(n) > depth,
    decreases depth,
{
    if depth > 0 {
        lemma_no_node_at_depth(g, (depth - 1) as nat);
    }
    assert forall|n: NodeId| #[trigger] g.contains(n) && n != g.root implies g.depth_of(n)
        > depth by {
        assert(!(g.nodes[n] is Root));
        let i = choose|i: int| 0 <= i < g.edges.len() && (#[trigger] g.edges[i]).1 == n;
        let s = g.edges[i].0;
        assert(g.edge_ok(g.edges[i]));
        assert(s != g.root);
        assert(g.contains(s));
        assert(!(g.nodes[s] is Root));
    }
}

/// A well-formed graph that hangs from its root holds nothing but the root
/// once the root depends on nothing.
pub proof fn lemma_only_root(g: GraphView)
    requires
        g.wf(),
        covered(g),
        g.bare(g.root),
    ensures
        forall|n: NodeId| g.contains(n) ==> n == g.root,
        g.nodes.dom() =~= Set::empty().insert(g.root),
{
    lemma_no_node_at_depth(g, g.nodes_added);
    assert forall|n: NodeId| #[trigger] g.nodes.dom().contains(n) implies n == g.root by {
        if n != g.root {
            assert(g.contains(n));
            assert(g.depth_of(n) > g.nodes_added);
        }
    }
    assert(g.nodes.dom() =~= Set::empty().insert(g.root));
}

/// Running a graph to its end leaves only the root. In a well-formed graph
/// that hangs from its root, while every idle task is needed: a walk keeps
/// the graph hanging from its root; so does the completion of a task that
/// was handed out, which depends on nothing; and once a walk finds
/// `Finished`, the root is the only node that is left.
pub proof fn lemma_run_to_the_end(g: GraphView, needs: spec_fn(Task) -> bool, done: NodeId)
    requires
        g.wf(),
        covered(g),
    ensures
        all_needed(g, needs) ==> covered(g.walk(g.root, needs).0),
        all_needed(g, needs) && g.walk(g.root, needs).1 is Finished ==> g.walk(
            g.root,
            needs,
        ).0.nodes.dom() =~= Set::empty().insert(g.root),
        g.walk(g.root, needs).1 matches WalkResult::Task(id, _) ==> g.walk(g.root, needs).0.bare(id),
        done != g.root && g.bare(done) ==> g.remove(done).wf() && covered(g.remove(done)),
{
    lemma_walk(g, g.root, needs);
    if all_needed(g, needs) && g.walk(g.root, needs).1 is Finished {
        lemma_only_root(g.walk(g.root, needs).0);
    }
    if done != g.root {
        lemma_remove_shrinks(g, done);
    }
}

/// The graph that one worker leaves which, up to `steps` times, asks for a
/// task and completes it at once, and stops when it is handed none.
pub open spec fn run_alone(g: GraphView, needs: spec_fn(Task) -> bool, steps: nat) -> GraphView
    decreases steps,
{
    let walked = g.walk(g.root, needs);
    match walked.1 {
        WalkResult::Task(id, _) => if steps == 0 {
            walked.0
        } else {
            run_alone(walked.0.remove(id), needs, (steps - 1) as nat)
        },
        _ => walked.0,
    }
}

/// A run that hands out and completes every task leaves only the root.
///
/// Take a well-formed graph that hangs from its root, in which no task is
/// running and every task is needed, and let one worker ask for a task and
/// complete it, as often as the graph has nodes. Then the worker is never
/// blocked, and in the end the root is the only node of the graph.
pub proof fn lemma_run_alone(g: GraphView, needs: spec_fn(Task) -> bool, steps: nat)
    requires
        g.wf(),
        covered(g),
        all_needed(g, needs),
        !some_running(g),
        steps >= g.nodes.dom().len(),
    ensures
        run_alone(g, needs, steps).nodes.dom() =~= Set::empty().insert(g.root),
    decreases steps,
{
    lemma_walk(g, g.root, needs);
    let walked = g.walk(g.root, needs);
    let h = walked.0;
    assert(h.nodes.dom().subset_of(g.nodes.dom())) by {
        assert forall|n: NodeId| h.nodes.dom().contains(n) implies g.nodes.dom().contains(n) by {
            assert(h.contains(n));
        }
    }
    vstd::set_lib::lemma_len_subset(h.nodes.dom(), g.nodes.dom());
    match walked.1 {
        WalkResult::Task(id, _) => {
            lemma_remove_shrinks(h, id);
            let left = h.remove(id);
            assert(left.nodes.dom() =~= h.nodes.dom().remove(id));
            assert(g.nodes.dom().len() >= 2) by {
                assert(h.nodes.dom().contains(id) && h.nodes.dom().contains(h.root));
                assert(h.nodes.dom().remove(id).contains(h.root));
                assert(h.nodes.dom().remove(id).len() >= 1) by {
                    if h.nodes.dom().remove(id).len() == 0 {
                        assert(h.nodes.dom().remove(id) =~= Set::empty());
                    }
                }
            }
            assert(covered(h));
            assert(covered(left));
            assert(all_needed(left, needs)) by {
                assert forall|n: NodeId| #[trigger] left.is_idle(n) implies needs(
                    left.nodes[n]->task,
                ) by {
                    assert(h.contains(n) && n != id);
                    assert(h.nodes[n] == g.nodes[n]);
                    assert(g.is_idle(n));
                }
            }
            assert(!some_running(left)) by {
                if some_running(left) {
                    let n = choose|n: NodeId| #[trigger] left.is_running(n);
                    assert(h.contains(n) && n != id);
                    assert(h.nodes[n] == g.nodes[n]);
                    assert(g.is_running(n));
                }
            }
            lemma_run_alone(left, needs, (steps - 1) as nat);
        },
        WalkResult::Finished => {
            lemma_only_root(h);
        },
        WalkResult::Blocked => {},
        WalkResult::NotBlocked => {},
    }
}

/// A run that is taken up again leaves finished packages alone. Whatever
/// the graph has come to, no walk hands out a task of a package for which
/// an outcome is recorded under both toolchains of the experiment: not its
/// preparation, and not a build under one of the two.
pub proof fn lemma_finished_package_is_skipped(g: GraphView, ex: &Experiment, rows: Seq<ResultView>)
    requires
        g.wf(),
    ensures
        g.walk(g.root, needs_exec_in(ex, rows)).1 matches WalkResult::Task(_, task) ==> {
            &&& task.spec_needs_exec(ex, rows)
            &&& has_result(rows, ResultStore::key(ex, &task.krate, &ex.toolchains[0]))
                && has_result(rows, ResultStore::key(ex, &task.krate, &ex.toolchains[1]))
                ==> task.step.spec_toolchain() is Some
                && task.step.spec_toolchain()->0@ != ex.toolchains[0]@
                && task.step.spec_toolchain()->0@ != ex.toolchains[1]@
        },
{
    lemma_next_task(g, needs_exec_in(ex, rows));
}

} // verus!
