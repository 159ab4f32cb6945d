use vstd::prelude::*;
use crate::db::{
    distinct_keys, has_result, lemma_position, outcome_of, position, recorded, ResultKey, ResultView,
};
use crate::ex::Experiment;
use crate::graph_lemmas::{has_edge, is_path};
use crate::results::TestResult;
use crate::run_graph::{lemma_remove_wf, lemma_sources, lemma_without_node, GraphView, NodeId};
use crate::stable_graph::sources_newest_first;

verus! {

/// `m` depends on `n`, through a chain of edges, or is `n`.
pub open spec fn depends_on(g: GraphView, m: NodeId, n: NodeId) -> bool {
    exists|path: Seq<NodeId>| #[trigger] is_path(g, path) && path[0] == m && path.last() == n
}

/// `m` depends on one of `nodes`, or is one of them.
pub open spec fn depends_on_any(g: GraphView, m: NodeId, nodes: Seq<NodeId>) -> bool {
    exists|i: int| 0 <= i < nodes.len() && depends_on(g, m, #[trigger] nodes[i])
}

/// The edges of `h` are the edges of `g` between nodes of `h`.
pub open spec fn same_edges_within(g: GraphView, h: GraphView) -> bool {
    forall|e: (NodeId, NodeId)|
        #![trigger has_edge(h.edges, e)]
        #![trigger has_edge(g.edges, e)]
        has_edge(h.edges, e) <==> has_edge(g.edges, e) && h.contains(e.0) && h.contains(e.1)
}

/// `h` is `g` after tasks were given up: only tasks have left, with the
/// edges that touched them, and with each task that has left, every task
/// that depended on it in `g` has left too.
pub open spec fn pruned(g: GraphView, h: GraphView) -> bool {
    &&& g.wf()
    &&& h.wf()
    &&& h.same_frame(g)
    &&& forall|m: NodeId| #[trigger] h.contains(m) ==> g.contains(m) && h.nodes[m] == g.nodes[m]
    &&& same_edges_within(g, h)
    &&& forall|m: NodeId| g.contains(m) && !#[trigger] h.contains(m) ==> g.nodes[m] is Task
    &&& forall|m: NodeId, x: NodeId|
        #![trigger depends_on(g, m, x), h.contains(m)]
        g.contains(m) && g.nodes[m] is Task && g.contains(x) && !h.contains(x) && depends_on(
            g,
            m,
            x,
        ) ==> !h.contains(m)
}

/// `after` is `h` without the tasks that depend on `n`, or are `n`.
pub open spec fn without_dependents(h: GraphView, after: GraphView, n: NodeId) -> bool {
    forall|m: NodeId|
        #![trigger after.contains(m)]
        after.contains(m) <==> h.contains(m) && !(h.nodes[m] is Task && depends_on(h, m, n))
}

/// `after` is `h` without the tasks that depend on one of `nodes`, or are
/// one of them.
pub open spec fn without_dependents_of_any(h: GraphView, after: GraphView, nodes: Seq<NodeId>) -> bool {
    forall|m: NodeId|
        #![trigger after.contains(m)]
        after.contains(m) <==> h.contains(m) && !(h.nodes[m] is Task && depends_on_any(h, m, nodes))
}

/// The start of a chain is a chain.
pub proof fn lemma_path_prefix(g: GraphView, path: Seq<NodeId>, k: int)
    requires
        is_path(g, path),
        0 <= k < path.len(),
    ensures
        is_path(g, path.take(k + 1)),
        path.take(k + 1)[0] == path[0],
        path.take(k + 1).last() == path[k],
{
    let start = path.take(k + 1);
    assert forall|j: int| 0 <= j < start.len() - 1 implies has_edge(
        g.edges,
        (#[trigger] start[j], start[j + 1]),
    ) by {
        assert(has_edge(g.edges, (path[j], path[j + 1])));
    }
}

/// A chain with one more edge at its end is a chain.
pub proof fn lemma_path_extend(g: GraphView, path: Seq<NodeId>, next: NodeId)
    requires
        is_path(g, path),
        has_edge(g.edges, (path.last(), next)),
    ensures
        is_path(g, path.push(next)),
        path.push(next)[0] == path[0],
        path.push(next).last() == next,
{
    let longer = path.push(next);
    assert forall|j: int| 0 <= j < longer.len() - 1 implies has_edge(
        g.edges,
        (#[trigger] longer[j], longer[j + 1]),
    ) by {
        if j < path.len() - 1 {
            assert(has_edge(g.edges, (path[j], path[j + 1])));
        }
    }
}

/// Along a chain of a well-formed graph the ranks fall, so a chain of two
/// nodes or more does not end where it starts; and its nodes are nodes of
/// the graph.
pub proof fn lemma_path_rank(g: GraphView, path: Seq<NodeId>, k: int)
    requires
        g.wf(),
        is_path(g, path),
        1 <= k < path.len(),
    ensures
        g.rank_of(path[k]) < g.rank_of(path[0]),
        g.contains(path[k]),
        g.contains(path[0]),
    decreases k,
{
    assert(has_edge(g.edges, (path[k - 1], path[k - 1 + 1])));
    let i = choose|i: int| 0 <= i < g.edges.len() && #[trigger] g.edges[i] == (path[k - 1], path[k]);
    assert(g.edge_ok(g.edges[i]));
    if k > 1 {
        lemma_path_rank(g, path, k - 1);
    }
}

/// A chain of `g` whose nodes are all in `h` is a chain of `h`.
pub proof fn lemma_path_within(g: GraphView, h: GraphView, path: Seq<NodeId>)
    requires
        same_edges_within(g, h),
        is_path(g, path),
        forall|k: int| 0 <= k < path.len() ==> h.contains(#[trigger] path[k]),
    ensures
        is_path(h, path),
{
    assert forall|k: int| 0 <= k < path.len() - 1 implies has_edge(
        h.edges,
        (#[trigger] path[k], path[k + 1]),
    ) by {
        assert(has_edge(g.edges, (path[k], path[k + 1])));
        assert(h.contains(path[k + 1]));
    }
}

/// A chain of `h` is a chain of `g`.
pub proof fn lemma_path_above(g: GraphView, h: GraphView, path: Seq<NodeId>)
    requires
        same_edges_within(g, h),
        is_path(h, path),
    ensures
        is_path(g, path),
{
    assert forall|k: int| 0 <= k < path.len() - 1 implies has_edge(
        g.edges,
        (#[trigger] path[k], path[k + 1]),
    ) by {
        assert(has_edge(h.edges, (path[k], path[k + 1])));
    }
}

/// A chain of `g` that starts at a task which is still in `h` is a chain of
/// `h`: had one of its nodes left, the task would have left with it.
pub proof fn lemma_path_survives(g: GraphView, h: GraphView, path: Seq<NodeId>)
    requires
        pruned(g, h),
        is_path(g, path),
        g.nodes[path[0]] is Task,
        h.contains(path[0]),
    ensures
        is_path(h, path),
{
    assert forall|k: int| 0 <= k < path.len() implies h.contains(#[trigger] path[k]) by {
        if k > 0 && !h.contains(path[k]) {
            lemma_path_rank(g, path, k);
            lemma_path_prefix(g, path, k);
            assert(is_path(g, path.take(k + 1)));
            assert(depends_on(g, path[0], path[k]));
            assert(g.contains(path[0]));
        }
    }
    lemma_path_within(g, h, path);
}

/// The source of every edge that enters `b` is among the sources.
pub proof fn lemma_sources_hold(edges: Seq<(NodeId, NodeId)>, b: NodeId)
    ensures
        forall|i: int|
            0 <= i < edges.len() && (#[trigger] edges[i]).1 == b ==> sources_newest_first(
                edges,
                b,
            ).contains(edges[i].0),
    decreases edges.len(),
{
    if edges.len() > 0 {
        let front = edges.drop_last();
        lemma_sources_hold(front, b);
        let t = sources_newest_first(edges, b);
        let rest = sources_newest_first(front, b);
        assert forall|i: int| 0 <= i < edges.len() && (#[trigger] edges[i]).1 == b implies t.contains(
            edges[i].0,
        ) by {
            if i == edges.len() - 1 {
                assert(t[0] == edges[i].0);
            } else {
                assert(front[i] == edges[i]);
                assert(rest.contains(front[i].0));
                let j = choose|j: int| 0 <= j < rest.len() && rest[j] == front[i].0;
                if edges.last().1 == b {
                    assert(t[j + 1] == rest[j]);
                } else {
                    assert(t[j] == rest[j]);
                }
            }
        }
    }
}

/// To depend on `n` is to be `n` or to depend on something that depends
/// on `n` directly.
pub proof fn lemma_depends_through(h: GraphView, m: NodeId, n: NodeId)
    ensures
        depends_on(h, m, n) <==> m == n || depends_on_any(h, m, h.dependents(n)),
{
    let cs = h.dependents(n);
    if depends_on(h, m, n) && m != n {
        let path = choose|path: Seq<NodeId>| #[trigger]
            is_path(h, path) && path[0] == m && path.last() == n;
        let k = path.len() - 2;
        assert(has_edge(h.edges, (path[k], path[k + 1])));
        let i = choose|i: int| 0 <= i < h.edges.len() && #[trigger] h.edges[i] == (path[k], n);
        lemma_sources_hold(h.edges, n);
        assert(h.edges[i].1 == n);
        assert(cs.contains(path[k]));
        let j = choose|j: int| 0 <= j < cs.len() && cs[j] == path[k];
        lemma_path_prefix(h, path, k);
        assert(is_path(h, path.take(k + 1)));
        assert(depends_on(h, m, cs[j]));
    }
    if m == n {
        let path = seq![m];
        assert(is_path(h, path));
        assert(path[0] == m && path.last() == n);
    }
    if depends_on_any(h, m, cs) {
        let j = choose|j: int| 0 <= j < cs.len() && depends_on(h, m, #[trigger] cs[j]);
        let path = choose|path: Seq<NodeId>| #[trigger]
            is_path(h, path) && path[0] == m && path.last() == cs[j];
        lemma_sources(h.edges, n);
        let i = choose|i: int| 0 <= i < h.edges.len() && #[trigger] h.edges[i] == (cs[j], n);
        assert(has_edge(h.edges, (path.last(), n)));
        lemma_path_extend(h, path, n);
        assert(is_path(h, path.push(n)));
    }
}

/// Between two graphs that were pruned from `g`, the later within the
/// earlier, a task of the later depends on a node in the one exactly when
/// it does in the other.
pub proof fn lemma_depends_same(g: GraphView, h: GraphView, later: GraphView, m: NodeId, n: NodeId)
    requires
        pruned(g, h),
        pruned(g, later),
        forall|x: NodeId| later.contains(x) ==> h.contains(x),
        later.contains(m),
        later.nodes[m] is Task,
    ensures
        depends_on(later, m, n) <==> depends_on(h, m, n),
{
    if depends_on(later, m, n) {
        let path = choose|path: Seq<NodeId>| #[trigger]
            is_path(later, path) && path[0] == m && path.last() == n;
        lemma_path_above(g, later, path);
        assert forall|k: int| 0 <= k < path.len() implies h.contains(#[trigger] path[k]) by {
            if k > 0 {
                lemma_path_rank(later, path, k);
            }
        }
        lemma_path_within(g, h, path);
    }
    if depends_on(h, m, n) {
        let path = choose|path: Seq<NodeId>| #[trigger]
            is_path(h, path) && path[0] == m && path.last() == n;
        lemma_path_above(g, h, path);
        lemma_path_survives(g, later, path);
    }
}

/// Taking a task out of a pruned graph, after every task that depended on
/// it in that graph, leaves a pruned graph.
#[verifier::rlimit(60)]
pub proof fn lemma_prune_one(g: GraphView, h: GraphView, before: GraphView, c: NodeId)
    requires
        pruned(g, before),
        pruned(g, h),
        forall|x: NodeId| h.contains(x) ==> before.contains(x),
        h.contains(c),
        h.nodes[c] is Task,
        forall|m: NodeId|
            #![trigger h.contains(m)]
            before.contains(m) && before.nodes[m] is Task && m != c && depends_on(before, m, c)
                ==> !h.contains(m),
    ensures
        pruned(g, h.remove(c)),
{
    let after = h.remove(c);
    assert(c != h.root);
    lemma_remove_wf(h, c);
    lemma_without_node(h.edges, c);
    assert(after.wf());
    assert(after.same_frame(g));
    assert forall|m: NodeId| #[trigger] after.contains(m) implies g.contains(m) && after.nodes[m]
        == g.nodes[m] by {
        assert(h.contains(m));
    }
    assert forall|m: NodeId| g.contains(m) && !#[trigger] after.contains(m) implies g.nodes[m] is Task by {
        if m != c {
            assert(!h.contains(m));
        } else {
            assert(h.contains(c));
        }
    }
    assert forall|e: (NodeId, NodeId)|
        #![trigger has_edge(after.edges, e)]
        #![trigger has_edge(g.edges, e)]
        has_edge(after.edges, e) <==> has_edge(g.edges, e) && after.contains(e.0) && after.contains(
            e.1,
        ) by {
        if has_edge(after.edges, e) {
            let k = choose|k: int| 0 <= k < after.edges.len() && #[trigger] after.edges[k] == e;
            let e2 = after.edges[k];
            assert(e2.0 != c && e2.1 != c);
            let i = choose|i: int| 0 <= i < h.edges.len() && #[trigger] h.edges[i] == e2;
            assert(has_edge(h.edges, e));
        }
        if has_edge(g.edges, e) && after.contains(e.0) && after.contains(e.1) {
            assert(has_edge(h.edges, e));
            let i = choose|i: int| 0 <= i < h.edges.len() && #[trigger] h.edges[i] == e;
            assert(h.edges[i].0 != c && h.edges[i].1 != c);
            let k = choose|k: int|
                0 <= k < after.edges.len() && #[trigger] after.edges[k] == h.edges[i];
            assert(has_edge(after.edges, e));
        }
    }
    assert forall|m: NodeId, x: NodeId|
        #![trigger depends_on(g, m, x), after.contains(m)]
        g.contains(m) && g.nodes[m] is Task && g.contains(x) && !after.contains(x) && depends_on(
            g,
            m,
            x,
        ) implies !after.contains(m) by {
        if after.contains(m) {
            assert(h.contains(m));
            if !h.contains(x) {
                assert(depends_on(g, m, x) && !h.contains(x));
                assert(!h.contains(m));
            } else {
                assert(x == c);
                let path = choose|path: Seq<NodeId>| #[trigger]
                    is_path(g, path) && path[0] == m && path.last() == x;
                assert(before.contains(m));
                lemma_path_survives(g, before, path);
                assert(is_path(before, path));
                assert(depends_on(before, m, c));
                assert(before.nodes[m] == g.nodes[m]);
            }
        }
    }
}

/// Nothing in a well-formed graph depends on a node that the graph does
/// not hold.
proof fn lemma_absent(h: GraphView, node: NodeId)
    requires
        h.wf(),
        !h.contains(node),
    ensures
        without_dependents(h, h, node),
{
    assert forall|m: NodeId|
        #![trigger h.contains(m)]
        h.contains(m) <==> h.contains(m) && !(h.nodes[m] is Task && depends_on(h, m, node)) by {
        if h.contains(m) && depends_on(h, m, node) {
            let path = choose|path: Seq<NodeId>| #[trigger]
                is_path(h, path) && path[0] == m && path.last() == node;
            if path.len() >= 2 {
                lemma_path_rank(h, path, path.len() - 1);
            }
        }
    }
}

/// What depends directly on a node of a well-formed graph lies less deep.
proof fn lemma_dependents_depth(h: GraphView, node: NodeId)
    requires
        h.wf(),
        h.contains(node),
    ensures
        forall|k: int|
            0 <= k < h.dependents(node).len() ==> h.depth_of(#[trigger] h.dependents(node)[k])
                < h.depth_of(node),
{
    let cs = h.dependents(node);
    lemma_sources(h.edges, node);
    assert forall|k: int| 0 <= k < cs.len() implies h.depth_of(#[trigger] cs[k]) < h.depth_of(
        node,
    ) by {
        let i = choose|i: int| 0 <= i < h.edges.len() && #[trigger] h.edges[i] == (cs[k], node);
        assert(h.edge_ok(h.edges[i]));
        assert(!(h.nodes[node] is Root));
        if cs[k] != h.root {
            assert(!(h.nodes[cs[k]] is Root));
        }
    }
}

/// A node of a well-formed graph depends on none of its dependents.
proof fn lemma_no_cycle(h: GraphView, node: NodeId)
    requires
        h.wf(),
    ensures
        !depends_on_any(h, node, h.dependents(node)),
{
    let cs = h.dependents(node);
    if depends_on_any(h, node, cs) {
        let j = choose|j: int| 0 <= j < cs.len() && depends_on(h, node, #[trigger] cs[j]);
        let path = choose|path: Seq<NodeId>| #[trigger]
            is_path(h, path) && path[0] == node && path.last() == cs[j];
        lemma_sources(h.edges, node);
        let i = choose|i: int| 0 <= i < h.edges.len() && #[trigger] h.edges[i] == (cs[j], node);
        assert(h.edge_ok(h.edges[i]));
        if path.len() >= 2 {
            lemma_path_rank(h, path, path.len() - 1);
        }
    }
}

/// The last step of giving up a node: once the tasks that depend on its
/// dependents have left, the node leaves where it is a task, and what has
/// left is what depended on the node.
#[verifier::rlimit(60)]
proof fn lemma_fail_node(g: GraphView, h: GraphView, above: GraphView, node: NodeId)
    requires
        pruned(g, h),
        pruned(g, above),
        h.contains(node),
        without_dependents_of_any(h, above, h.dependents(node)),
    ensures
        above.contains(node),
        above.nodes[node] == h.nodes[node],
        above.nodes[node] is Task ==> pruned(g, above.remove(node)) && without_dependents(
            h,
            above.remove(node),
            node,
        ),
        !(above.nodes[node] is Task) ==> without_dependents(h, above, node),
{
    let cs = h.dependents(node);
    lemma_no_cycle(h, node);
    assert(above.contains(node));
    assert(above.nodes[node] == g.nodes[node] && h.nodes[node] == g.nodes[node]);
    assert forall|x: NodeId| above.contains(x) implies h.contains(x) by {}
    if above.nodes[node] is Task {
        assert forall|m: NodeId|
            #![trigger above.contains(m)]
            h.contains(m) && h.nodes[m] is Task && m != node && depends_on(h, m, node)
                implies !above.contains(m) by {
            lemma_depends_through(h, m, node);
        }
        lemma_prune_one(g, above, h, node);
        let after = above.remove(node);
        assert forall|m: NodeId|
            #![trigger after.contains(m)]
            after.contains(m) <==> h.contains(m) && !(h.nodes[m] is Task && depends_on(
                h,
                m,
                node,
            )) by {
            lemma_depends_through(h, m, node);
            assert(above.contains(m) <==> h.contains(m) && !(h.nodes[m] is Task && depends_on_any(
                h,
                m,
                cs,
            )));
        }
    } else {
        assert forall|m: NodeId|
            #![trigger above.contains(m)]
            above.contains(m) <==> h.contains(m) && !(h.nodes[m] is Task && depends_on(
                h,
                m,
                node,
            )) by {
            lemma_depends_through(h, m, node);
        }
    }
}

/// Giving up the first of some nodes and then the others takes away what
/// depends on any of them.
#[verifier::rlimit(60)]
#[verifier::spinoff_prover]
proof fn lemma_fail_step(
    g: GraphView,
    h: GraphView,
    middle: GraphView,
    after: GraphView,
    children: Seq<NodeId>,
)
    requires
        children.len() > 0,
        pruned(g, h),
        pruned(g, middle),
        without_dependents(h, middle, children[0]),
        without_dependents_of_any(middle, after, children.drop_first()),
    ensures
        without_dependents_of_any(h, after, children),
{
    let c0 = children[0];
    let tail = children.drop_first();
    assert forall|x: NodeId| middle.contains(x) implies h.contains(x) by {}
    assert forall|m: NodeId|
        #![trigger after.contains(m)]
        after.contains(m) <==> h.contains(m) && !(h.nodes[m] is Task && depends_on_any(
            h,
            m,
            children,
        )) by {
        assert(middle.contains(m) <==> h.contains(m) && !(h.nodes[m] is Task && depends_on(
            h,
            m,
            c0,
        )));
        assert(after.contains(m) <==> middle.contains(m) && !(middle.nodes[m] is Task
            && depends_on_any(middle, m, tail)));
        if middle.contains(m) {
            assert(middle.nodes[m] == g.nodes[m] && h.nodes[m] == g.nodes[m]);
        }
        if middle.contains(m) && middle.nodes[m] is Task {
            if depends_on_any(middle, m, tail) {
                let j = choose|j: int|
                    0 <= j < tail.len() && depends_on(middle, m, #[trigger] tail[j]);
                lemma_depends_same(g, h, middle, m, tail[j]);
                assert(tail[j] == children[j + 1]);
                assert(depends_on(h, m, children[j + 1]));
            }
            if depends_on_any(h, m, children) {
                let j = choose|j: int|
                    0 <= j < children.len() && depends_on(h, m, #[trigger] children[j]);
                assert(j > 0);
                assert(tail[j - 1] == children[j]);
                lemma_depends_same(g, h, middle, m, tail[j - 1]);
                assert(depends_on(middle, m, tail[j - 1]));
            }
        }
        if h.contains(m) && h.nodes[m] is Task && depends_on(h, m, c0) {
            assert(depends_on(h, m, children[0]));
        }
    }
}

/// Giving up a node of a pruned graph takes away the tasks that depend on
/// the node in that graph, and the node where it is a task, and nothing
/// else; what is left is a pruned graph.
#[verifier::rlimit(60)]
pub proof fn lemma_fail_prunes(
    g: GraphView,
    h: GraphView,
    rows: Seq<ResultView>,
    node: NodeId,
    ex: &Experiment,
    error: Seq<char>,
    result: TestResult,
)
    requires
        pruned(g, h),
    ensures
        pruned(g, h.fail(rows, node, ex, error, result).0),
        without_dependents(h, h.fail(rows, node, ex, error, result).0, node),
    decreases 2 * h.depth_of(node) + 1, 0nat,
{
    if !h.contains(node) {
        lemma_absent(h, node);
    } else {
        let cs = h.dependents(node);
        let depth = h.depth_of(node);
        lemma_dependents_depth(h, node);
        lemma_fail_children_prunes(g, h, rows, cs, ex, error, result, depth);
        let above = h.fail_children(rows, cs, ex, error, result, depth);
        lemma_fail_node(g, h, above.0, node);
    }
}

/// Giving up each of `children` in a pruned graph takes away the tasks
/// that depend on one of them in that graph, or are one of them, and
/// nothing else; what is left is a pruned graph.
#[verifier::rlimit(60)]
pub proof fn lemma_fail_children_prunes(
    g: GraphView,
    h: GraphView,
    rows: Seq<ResultView>,
    children: Seq<NodeId>,
    ex: &Experiment,
    error: Seq<char>,
    result: TestResult,
    depth: nat,
)
    requires
        pruned(g, h),
        forall|k: int| 0 <= k < children.len() ==> h.depth_of(#[trigger] children[k]) < depth,
    ensures
        pruned(g, h.fail_children(rows, children, ex, error, result, depth).0),
        without_dependents_of_any(
            h,
            h.fail_children(rows, children, ex, error, result, depth).0,
            children,
        ),
    decreases 2 * depth, children.len(),
{
    let after = h.fail_children(rows, children, ex, error, result, depth).0;
    if children.len() == 0 {
        assert forall|m: NodeId|
            #![trigger after.contains(m)]
            after.contains(m) <==> h.contains(m) && !(h.nodes[m] is Task && depends_on_any(
                h,
                m,
                children,
            )) by {}
    } else {
        let c0 = children[0];
        let tail = children.drop_first();
        assert(h.depth_of(children[0]) < depth);
        lemma_fail_prunes(g, h, rows, c0, ex, error, result);
        let first = h.fail(rows, c0, ex, error, result);
        let h1 = first.0;
        assert(h1.same_frame(h));
        assert forall|k: int| 0 <= k < tail.len() implies h1.depth_of(#[trigger] tail[k])
            < depth by {
            assert(tail[k] == children[k + 1]);
            assert(h1.depth_of(tail[k]) == h.depth_of(children[k + 1]));
        }
        lemma_fail_children_prunes(g, h1, first.1, tail, ex, error, result, depth);
        lemma_fail_step(g, h, h1, after, children);
    }
}

/// Giving up a node of a well-formed graph takes away exactly the tasks
/// that depend on the node through a chain of edges, and the node itself
/// where it is a task. The root and the nodes that stand for packages stay,
/// and so does every task that does not depend on the node.
pub proof fn lemma_fail_removes_dependents(
    g: GraphView,
    rows: Seq<ResultView>,
    node: NodeId,
    ex: &Experiment,
    error: Seq<char>,
    result: TestResult,
)
    requires
        g.wf(),
    ensures
        g.fail(rows, node, ex, error, result).0.wf(),
        forall|m: NodeId|
            #![trigger g.fail(rows, node, ex, error, result).0.contains(m)]
            g.fail(rows, node, ex, error, result).0.contains(m) <==> g.contains(m) && !(
            g.nodes[m] is Task && depends_on(g, m, node)),
        forall|m: NodeId|
            #![trigger g.fail(rows, node, ex, error, result).0.contains(m)]
            g.fail(rows, node, ex, error, result).0.contains(m) ==> g.fail(
                rows,
                node,
                ex,
                error,
                result,
            ).0.nodes[m] == g.nodes[m],
{
    lemma_pruned_same(g);
    lemma_fail_prunes(g, g, rows, node, ex, error, result);
}

/// The task `m` of `g` records its outcome during `ex` under `key`.
pub open spec fn records_under(g: GraphView, m: NodeId, ex: &Experiment, key: ResultKey) -> bool {
    g.contains(m) && g.nodes[m] is Task && g.nodes[m]->task.result_key(ex) == Some(key)
}

/// A task that records under `key` is in `h` and not in `after`.
pub open spec fn left_with_key(h: GraphView, after: GraphView, ex: &Experiment, key: ResultKey) -> bool {
    exists|m: NodeId| !#[trigger] after.contains(m) && records_under(h, m, ex, key)
}

/// From `rows` to `later`, `result` was recorded for the tasks that are in
/// `h` and not in `after`, and no other outcome changed.
pub open spec fn recorded_for_left(
    h: GraphView,
    after: GraphView,
    rows: Seq<ResultView>,
    later: Seq<ResultView>,
    ex: &Experiment,
    result: TestResult,
) -> bool {
    forall|key: ResultKey| #[trigger]
        outcome_of(later, key) == if left_with_key(h, after, ex, key) {
            Some(result)
        } else {
            outcome_of(rows, key)
        }
}

/// Recording a row keeps the keys distinct, gives the key of the row its
/// outcome, and changes no other outcome.
pub proof fn lemma_recorded_outcome(rows: Seq<ResultView>, row: ResultView)
    requires
        distinct_keys(rows),
    ensures
        distinct_keys(recorded(rows, row)),
        forall|key: ResultKey| #[trigger]
            outcome_of(recorded(rows, row), key) == if key == row.key() {
                Some(row.result)
            } else {
                outcome_of(rows, key)
            },
{
    let after = recorded(rows, row);
    match position(rows, row.key()) {
        Some(i) => {
            assert(has_result(rows, row.key()));
            assert(after =~= rows.update(i, row));
            assert forall|a: int| 0 <= a < after.len() implies (#[trigger] after[a]).key()
                == rows[a].key() by {}
            assert forall|a: int, b: int|
                0 <= a < after.len() && 0 <= b < after.len() && a != b implies (
            #[trigger] after[a]).key() != (#[trigger] after[b]).key() by {
                assert(rows[a].key() != rows[b].key());
            }
            assert forall|key: ResultKey| #[trigger]
                outcome_of(after, key) == if key == row.key() {
                    Some(row.result)
                } else {
                    outcome_of(rows, key)
                } by {
                if key == row.key() {
                    lemma_position(after, key, i);
                } else if has_result(rows, key) {
                    let j = choose|j: int| 0 <= j < rows.len() && (#[trigger] rows[j]).key() == key;
                    assert(after[j] == rows[j]);
                    lemma_position(after, key, j);
                    lemma_position(rows, key, j);
                } else if has_result(after, key) {
                    let j = choose|j: int| 0 <= j < after.len() && (#[trigger] after[j]).key() == key;
                    assert(rows[j].key() == key);
                }
            }
        },
        None => {
            assert(after =~= rows.push(row));
            assert forall|a: int, b: int|
                0 <= a < after.len() && 0 <= b < after.len() && a != b implies (
            #[trigger] after[a]).key() != (#[trigger] after[b]).key() by {
                if a < rows.len() && b < rows.len() {
                    assert(rows[a].key() != rows[b].key());
                } else if a < rows.len() {
                    assert(rows[a].key() != row.key());
                } else {
                    assert(rows[b].key() != row.key());
                }
            }
            assert forall|key: ResultKey| #[trigger]
                outcome_of(after, key) == if key == row.key() {
                    Some(row.result)
                } else {
                    outcome_of(rows, key)
                } by {
                if key == row.key() {
                    lemma_position(after, key, rows.len() as int);
                } else if has_result(rows, key) {
                    let j = choose|j: int| 0 <= j < rows.len() && (#[trigger] rows[j]).key() == key;
                    assert(after[j] == rows[j]);
                    lemma_position(after, key, j);
                    lemma_position(rows, key, j);
                } else if has_result(after, key) {
                    let j = choose|j: int| 0 <= j < after.len() && (#[trigger] after[j]).key() == key;
                    assert(j < rows.len());
                    assert(rows[j].key() == key);
                }
            }
        },
    }
}

/// What two steps of giving up recorded is what was recorded for the tasks
/// that left in the one or in the other.
#[verifier::rlimit(60)]
proof fn lemma_recorded_twice(
    g: GraphView,
    h: GraphView,
    middle: GraphView,
    after: GraphView,
    rows: Seq<ResultView>,
    then: Seq<ResultView>,
    later: Seq<ResultView>,
    ex: &Experiment,
    result: TestResult,
)
    requires
        pruned(g, h),
        pruned(g, middle),
        pruned(g, after),
        forall|m: NodeId| middle.contains(m) ==> h.contains(m),
        forall|m: NodeId| after.contains(m) ==> middle.contains(m),
        recorded_for_left(h, middle, rows, then, ex, result),
        recorded_for_left(middle, after, then, later, ex, result),
    ensures
        recorded_for_left(h, after, rows, later, ex, result),
{
    assert forall|key: ResultKey| #[trigger]
        outcome_of(later, key) == if left_with_key(h, after, ex, key) {
            Some(result)
        } else {
            outcome_of(rows, key)
        } by {
        assert(outcome_of(then, key) == if left_with_key(h, middle, ex, key) {
            Some(result)
        } else {
            outcome_of(rows, key)
        });
        if left_with_key(h, middle, ex, key) {
            let m = choose|m: NodeId| !#[trigger] middle.contains(m) && records_under(h, m, ex, key);
            assert(!after.contains(m));
        }
        if left_with_key(middle, after, ex, key) {
            let m = choose|m: NodeId|
                !#[trigger] after.contains(m) && records_under(middle, m, ex, key);
            assert(middle.contains(m));
            assert(h.contains(m) && h.nodes[m] == g.nodes[m] && middle.nodes[m] == g.nodes[m]);
            assert(records_under(h, m, ex, key));
        }
        if left_with_key(h, after, ex, key) {
            let m = choose|m: NodeId| !#[trigger] after.contains(m) && records_under(h, m, ex, key);
            if middle.contains(m) {
                assert(h.nodes[m] == g.nodes[m] && middle.nodes[m] == g.nodes[m]);
                assert(records_under(middle, m, ex, key));
            }
        }
    }
}

/// Giving up a node of a pruned graph records the outcome for every task
/// that leaves, under the key of the task, and changes no other outcome.
#[verifier::rlimit(60)]
pub proof fn lemma_fail_records(
    g: GraphView,
    h: GraphView,
    rows: Seq<ResultView>,
    node: NodeId,
    ex: &Experiment,
    error: Seq<char>,
    result: TestResult,
)
    requires
        pruned(g, h),
        distinct_keys(rows),
    ensures
        distinct_keys(h.fail(rows, node, ex, error, result).1),
        recorded_for_left(
            h,
            h.fail(rows, node, ex, error, result).0,
            rows,
            h.fail(rows, node, ex, error, result).1,
            ex,
            result,
        ),
    decreases 2 * h.depth_of(node) + 1, 0nat,
{
    if !h.contains(node) {
        assert forall|key: ResultKey| !left_with_key(h, h, ex, key) by {}
    } else {
        let cs = h.dependents(node);
        let depth = h.depth_of(node);
        lemma_dependents_depth(h, node);
        lemma_fail_children_prunes(g, h, rows, cs, ex, error, result, depth);
        lemma_fail_children_records(g, h, rows, cs, ex, error, result, depth);
        let above = h.fail_children(rows, cs, ex, error, result, depth);
        lemma_fail_node(g, h, above.0, node);
        if above.0.nodes[node] is Task {
            let task = above.0.nodes[node]->task;
            let after = above.0.remove(node);
            let later = task.spec_mark_as_failed(ex, above.1, error, result);
            assert forall|m: NodeId| above.0.contains(m) implies h.contains(m) by {}
            match task.step.spec_toolchain() {
                Some(tc) => {
                    let row = ResultView {
                        experiment: ex.name@,
                        krate: task.krate@,
                        toolchain: tc@,
                        result: result,
                        log: error,
                    };
                    lemma_recorded_outcome(above.1, row);
                    assert(task.result_key(ex) == Some(row.key()));
                },
                None => {},
            }
            assert forall|key: ResultKey| #[trigger]
                outcome_of(later, key) == if left_with_key(h, after, ex, key) {
                    Some(result)
                } else {
                    outcome_of(rows, key)
                } by {
                assert(outcome_of(above.1, key) == if left_with_key(h, above.0, ex, key) {
                    Some(result)
                } else {
                    outcome_of(rows, key)
                });
                if left_with_key(h, above.0, ex, key) {
                    let m = choose|m: NodeId|
                        !#[trigger] above.0.contains(m) && records_under(h, m, ex, key);
                    assert(!after.contains(m));
                }
                if records_under(h, node, ex, key) {
                    assert(!after.contains(node));
                }
                if left_with_key(h, after, ex, key) {
                    let m = choose|m: NodeId|
                        !#[trigger] after.contains(m) && records_under(h, m, ex, key);
                    if m != node {
                        assert(!above.0.contains(m));
                    }
                }
            }
        }
    }
}

/// Giving up each of `children` in a pruned graph records the outcome for
/// every task that leaves, and changes no other outcome.
#[verifier::rlimit(60)]
pub proof fn lemma_fail_children_records(
    g: GraphView,
    h: GraphView,
    rows: Seq<ResultView>,
    children: Seq<NodeId>,
    ex: &Experiment,
    error: Seq<char>,
    result: TestResult,
    depth: nat,
)
    requires
        pruned(g, h),
        distinct_keys(rows),
        forall|k: int| 0 <= k < children.len() ==> h.depth_of(#[trigger] children[k]) < depth,
    ensures
        distinct_keys(h.fail_children(rows, children, ex, error, result, depth).1),
        recorded_for_left(
            h,
            h.fail_children(rows, children, ex, error, result, depth).0,
            rows,
            h.fail_children(rows, children, ex, error, result, depth).1,
            ex,
            result,
        ),
    decreases 2 * depth, children.len(),
{
    if children.len() == 0 {
        assert forall|key: ResultKey| !left_with_key(h, h, ex, key) by {}
    } else {
        let c0 = children[0];
        let tail = children.drop_first();
        assert(h.depth_of(children[0]) < depth);
        lemma_fail_prunes(g, h, rows, c0, ex, error, result);
        lemma_fail_records(g, h, rows, c0, ex, error, result);
        let first = h.fail(rows, c0, ex, error, result);
        assert(first.0.same_frame(h));
        assert forall|k: int| 0 <= k < tail.len() implies first.0.depth_of(#[trigger] tail[k])
            < depth by {
            assert(tail[k] == children[k + 1]);
            assert(first.0.depth_of(tail[k]) == h.depth_of(children[k + 1]));
        }
        lemma_fail_children_prunes(g, first.0, first.1, tail, ex, error, result, depth);
        lemma_fail_children_records(g, first.0, first.1, tail, ex, error, result, depth);
        let rest = first.0.fail_children(first.1, tail, ex, error, result, depth);
        assert forall|m: NodeId| first.0.contains(m) implies h.contains(m) by {}
        assert forall|m: NodeId| rest.0.contains(m) implies first.0.contains(m) by {}
        lemma_recorded_twice(g, h, first.0, rest.0, rows, first.1, rest.1, ex, result);
    }
}

/// Giving up a node records the given outcome for every task that leaves
/// the graph and records one, and changes the outcome of nothing else.
pub proof fn lemma_fail_records_dependents(
    g: GraphView,
    rows: Seq<ResultView>,
    node: NodeId,
    ex: &Experiment,
    error: Seq<char>,
    result: TestResult,
)
    requires
        g.wf(),
        distinct_keys(rows),
    ensures
        distinct_keys(g.fail(rows, node, ex, error, result).1),
        forall|key: ResultKey| #[trigger]
            outcome_of(g.fail(rows, node, ex, error, result).1, key) == if exists|m: NodeId|
                #[trigger] depends_on(g, m, node) && records_under(g, m, ex, key) {
                Some(result)
            } else {
                outcome_of(rows, key)
            },
{
    lemma_fail_removes_dependents(g, rows, node, ex, error, result);
    lemma_pruned_same(g);
    lemma_fail_records(g, g, rows, node, ex, error, result);
    let after = g.fail(rows, node, ex, error, result).0;
    let later = g.fail(rows, node, ex, error, result).1;
    assert forall|key: ResultKey| #[trigger]
        outcome_of(later, key) == if exists|m: NodeId|
            #[trigger] depends_on(g, m, node) && records_under(g, m, ex, key) {
            Some(result)
        } else {
            outcome_of(rows, key)
        } by {
        assert(outcome_of(later, key) == if left_with_key(g, after, ex, key) {
            Some(result)
        } else {
            outcome_of(rows, key)
        });
        if left_with_key(g, after, ex, key) {
            let m = choose|m: NodeId| !#[trigger] after.contains(m) && records_under(g, m, ex, key);
            assert(depends_on(g, m, node));
        }
        if exists|m: NodeId| #[trigger] depends_on(g, m, node) && records_under(g, m, ex, key) {
            let m = choose|m: NodeId|
                #[trigger] depends_on(g, m, node) && records_under(g, m, ex, key);
            assert(!after.contains(m));
        }
    }
}

/// A well-formed graph is pruned from itself.
pub proof fn lemma_pruned_same(g: GraphView)
    requires
        g.wf(),
    ensures
        pruned(g, g),
{
    assert forall|e: (NodeId, NodeId)|
        #![trigger has_edge(g.edges, e)]
        has_edge(g.edges, e) <==> has_edge(g.edges, e) && g.contains(e.0) && g.contains(e.1) by {
        if has_edge(g.edges, e) {
            let i = choose|i: int| 0 <= i < g.edges.len() && #[trigger] g.edges[i] == e;
            assert(g.edge_ok(g.edges[i]));
        }
    }
}

/// A task that runs is not taken away when another node is given up:
/// what runs depends on nothing.
pub proof fn lemma_running_survives_failure(
    g: GraphView,
    rows: Seq<ResultView>,
    node: NodeId,
    ex: &Experiment,
    error: Seq<char>,
    result: TestResult,
    n: NodeId,
)
    requires
        g.wf(),
        g.is_running(n),
        n != node,
    ensures
        g.fail(rows, node, ex, error, result).0.is_running(n),
{
    lemma_fail_removes_dependents(g, rows, node, ex, error, result);
    if depends_on(g, n, node) {
        let path = choose|path: Seq<NodeId>| #[trigger]
            is_path(g, path) && path[0] == n && path.last() == node;
        assert(has_edge(g.edges, (path[0int], path[0int + 1])));
        let i = choose|i: int| 0 <= i < g.edges.len() && #[trigger] g.edges[i] == (path[0], path[1]);
        assert(g.edge_ok(g.edges[i]));
    }
    assert(g.fail(rows, node, ex, error, result).0.contains(n));
}

} // verus!
