use vstd::prelude::*;
use petgraph::stable_graph::StableGraph;
use petgraph::Directed;
use crate::db::{ResultStore, ResultView};
use crate::ex::Experiment;
use crate::failure_lemmas::{depends_on, lemma_fail_removes_dependents};
use crate::graph_lemmas::{
    lemma_children_gone, lemma_next_task, lemma_walk_children, some_running,
};
use crate::results::TestResult;
use crate::stable_graph::{
    dot_text, graph_add_edge, graph_add_node, graph_dependents, graph_dot, graph_edge_slots,
    graph_edges, graph_edges_by_slot, graph_neighbors, graph_new, graph_node_count,
    graph_node_slots, graph_node_weight,
    graph_nodes, graph_remove_node, graph_set_weight, sources_newest_first,
    targets_newest_first, without_node,
};
use crate::tasks::Task;

verus! {

/// The index of a node in the graph of tasks.
pub type NodeId = u32;

/// A node of the graph of tasks.
#[derive(Debug)]
pub enum Node {
    /// A task, and whether a worker is running it.
    Task { task: Task, running: bool },
    /// Stands for a package: it leaves the graph when all the work on the
    /// package is done.
    CrateCompleted,
    /// The node that every package hangs from.
    Root,
}

/// What a walk of the graph found.
#[derive(Debug)]
pub enum WalkResult {
    /// A task to run; the caller alone may run it.
    Task(NodeId, Task),
    /// Every task that is left is running or waits for one that is.
    Blocked,
    /// Nothing below the node walked is left to do. A walk from the root
    /// never gives this.
    NotBlocked,
    /// Nothing is left to do at all.
    Finished,
}

impl WalkResult {
    pub fn is_finished(&self) -> (finished: bool)
        ensures
            finished == (*self is Finished),
    {
        match self {
            WalkResult::Finished => true,
            _ => false,
        }
    }
}

/// The graph of tasks as a mathematical value. An edge (a, b) says that `a`
/// depends on `b`: it cannot run until `b` has left the graph.
#[verifier::ext_equal]
pub struct GraphView {
    /// The nodes, by index.
    pub nodes: Map<NodeId, Node>,
    /// The edges, the edge added first coming first.
    pub edges: Seq<(NodeId, NodeId)>,
    /// The index of the root.
    pub root: NodeId,
    /// For each node but the root, how many nodes had been added when it
    /// was: every edge but those that leave the root runs from a higher
    /// rank to a lower one, so the graph has no cycle.
    pub rank: Map<NodeId, nat>,
    /// How many nodes were ever added, the root included.
    pub nodes_added: nat,
    /// How many edges were ever added.
    pub edges_added: nat,
}

impl GraphView {
    pub open spec fn contains(self, n: NodeId) -> bool {
        self.nodes.dom().contains(n)
    }

    /// The rank of a node; the root ranks above all.
    pub open spec fn rank_of(self, n: NodeId) -> nat {
        if n == self.root {
            self.nodes_added
        } else if self.rank.dom().contains(n) {
            self.rank[n]
        } else {
            0
        }
    }

    /// An edge joins two nodes of the graph, does not enter the root, runs
    /// down the ranks, and does not leave a running task: what runs depends
    /// on nothing.
    pub open spec fn edge_ok(self, e: (NodeId, NodeId)) -> bool {
        &&& self.contains(e.0)
        &&& self.contains(e.1)
        &&& e.1 != self.root
        &&& self.rank_of(e.0) > self.rank_of(e.1)
        &&& !self.is_running(e.0)
    }

    /// The node `n` depends on nothing.
    pub open spec fn bare(self, n: NodeId) -> bool {
        forall|i: int| 0 <= i < self.edges.len() ==> (#[trigger] self.edges[i]).0 != n
    }

    /// The graph has its root, one node of kind `Root`, and no cycle, and
    /// no task in it runs before what it depends on has left.
    pub open spec fn wf(self) -> bool {
        &&& self.nodes.dom().finite()
        &&& self.contains(self.root)
        &&& self.nodes[self.root] is Root
        &&& forall|n: NodeId|
            self.contains(n) && n != self.root ==> !(#[trigger] self.nodes[n] is Root)
                && self.rank.dom().contains(n) && self.rank[n] < self.nodes_added
        &&& forall|i: int| 0 <= i < self.edges.len() ==> self.edge_ok(#[trigger] self.edges[i])
    }

    /// What `n` depends on, in the order in which the edges were added.
    pub open spec fn out(self, n: NodeId) -> Seq<NodeId> {
        targets_newest_first(self.edges, n).reverse()
    }

    /// What depends on `n`, the edge added last coming first.
    pub open spec fn dependents(self, n: NodeId) -> Seq<NodeId> {
        sources_newest_first(self.edges, n)
    }

    /// The graph without the node `n` and the edges that touch it.
    pub open spec fn remove(self, n: NodeId) -> GraphView {
        GraphView { nodes: self.nodes.remove(n), edges: without_node(self.edges, n), ..self }
    }

    /// The task `n` is idle: in the graph and not running.
    pub open spec fn is_idle(self, n: NodeId) -> bool {
        self.contains(n) && self.nodes[n] is Task && !self.nodes[n]->running
    }

    /// The task `n` is running.
    pub open spec fn is_running(self, n: NodeId) -> bool {
        self.contains(n) && self.nodes[n] is Task && self.nodes[n]->running
    }

    /// The graph after a worker took the idle task `n`.
    pub open spec fn start(self, n: NodeId) -> GraphView {
        GraphView {
            nodes: self.nodes.insert(
                n,
                Node::Task { task: self.nodes[n]->task, running: true },
            ),
            ..self
        }
    }

    /// The graph after a node of weight `node` was added under the index
    /// `id`, depending on `deps`.
    pub open spec fn add(self, id: NodeId, node: Node, deps: Seq<NodeId>) -> GraphView {
        GraphView {
            nodes: self.nodes.insert(id, node),
            edges: self.edges + Seq::new(deps.len(), |i: int| (id, deps[i])),
            root: self.root,
            rank: self.rank.insert(id, self.nodes_added),
            nodes_added: self.nodes_added + 1,
            edges_added: self.edges_added + deps.len(),
        }
    }

    /// The graph after an edge from the root to `id` was added.
    pub open spec fn hang(self, id: NodeId) -> GraphView {
        GraphView {
            edges: self.edges.push((self.root, id)),
            edges_added: self.edges_added + 1,
            ..self
        }
    }

    /// What is found at `node` once nothing below it is left to do: a
    /// running task blocks, an idle task is handed out and starts running,
    /// the node of a package leaves the graph, and the root says that all is
    /// done.
    pub open spec fn settle(self, node: NodeId) -> (GraphView, WalkResult) {
        if !self.contains(node) {
            (self, WalkResult::NotBlocked)
        } else {
            match self.nodes[node] {
                Node::Task { task, running } => if running {
                    (self, WalkResult::Blocked)
                } else {
                    (self.start(node), WalkResult::Task(node, task))
                },
                Node::CrateCompleted => (self.remove(node), WalkResult::NotBlocked),
                Node::Root => (self, WalkResult::Finished),
            }
        }
    }

    /// The depth-first walk from `node`: the graph that it leaves, and what
    /// it found. `needs` says of a task whether running it would add
    /// anything.
    ///
    /// An idle task that is not needed leaves the graph at once. Otherwise
    /// the walk goes through what `node` depends on, in the order in which
    /// the edges were added; a task or the end found there is the answer.
    /// Where something below is blocked, so is `node`. Where nothing is
    /// left below, `node` itself is looked at, as `settle` says.
    pub open spec fn walk(self, node: NodeId, needs: spec_fn(Task) -> bool) -> (
        GraphView,
        WalkResult,
    )
        decreases 2 * self.rank_of(node) + 1, 0nat,
    {
        if !self.contains(node) {
            (self, WalkResult::NotBlocked)
        } else if self.is_idle(node) && !needs(self.nodes[node]->task) {
            (self.remove(node), WalkResult::NotBlocked)
        } else {
            let below = self.walk_children(self.out(node), needs, self.rank_of(node));
            match below.1 {
                WalkResult::NotBlocked => below.0.settle(node),
                _ => below,
            }
        }
    }

    /// The walk through `children`, one after the other, each of a rank
    /// below `bound`: the first task or end found is the answer, and the
    /// children after it are not looked at. Without one, the answer is
    /// `Blocked` where a child was blocked, and `NotBlocked` where none was.
    pub open spec fn walk_children(
        self,
        children: Seq<NodeId>,
        needs: spec_fn(Task) -> bool,
        bound: nat,
    ) -> (GraphView, WalkResult)
        decreases 2 * bound, children.len(),
    {
        if children.len() == 0 {
            (self, WalkResult::NotBlocked)
        } else {
            let first = if self.rank_of(children[0]) < bound {
                self.walk(children[0], needs)
            } else {
                (self, WalkResult::NotBlocked)
            };
            match first.1 {
                WalkResult::Task(..) | WalkResult::Finished => first,
                _ => {
                    let rest = first.0.walk_children(children.drop_first(), needs, bound);
                    match rest.1 {
                        WalkResult::NotBlocked => (rest.0, first.1),
                        _ => rest,
                    }
                },
            }
        }
    }

    /// How far below the root's rank a node ranks.
    pub open spec fn depth_of(self, n: NodeId) -> nat {
        if self.rank_of(n) <= self.nodes_added {
            (self.nodes_added - self.rank_of(n)) as nat
        } else {
            0
        }
    }

    /// The failure of `node`: the graph and the recorded outcomes that it
    /// leaves. What depends on `node` fails first, the dependent added last
    /// coming first. Then, where `node` is a task, `result` is recorded for
    /// it with `error` as the log, and the task leaves the graph. The root
    /// and the nodes of packages stay, and nothing is recorded for them.
    pub open spec fn fail(
        self,
        rows: Seq<ResultView>,
        node: NodeId,
        ex: &Experiment,
        error: Seq<char>,
        result: TestResult,
    ) -> (GraphView, Seq<ResultView>)
        decreases 2 * self.depth_of(node) + 1, 0nat,
    {
        if !self.contains(node) {
            (self, rows)
        } else {
            let above = self.fail_children(
                rows,
                self.dependents(node),
                ex,
                error,
                result,
                self.depth_of(node),
            );
            if above.0.contains(node) && above.0.nodes[node] is Task {
                (
                    above.0.remove(node),
                    above.0.nodes[node]->task.spec_mark_as_failed(ex, above.1, error, result),
                )
            } else {
                above
            }
        }
    }

    /// The failure of each of `children`, one after the other, each of a
    /// depth below `depth`.
    pub open spec fn fail_children(
        self,
        rows: Seq<ResultView>,
        children: Seq<NodeId>,
        ex: &Experiment,
        error: Seq<char>,
        result: TestResult,
        depth: nat,
    ) -> (GraphView, Seq<ResultView>)
        decreases 2 * depth, children.len(),
    {
        if children.len() == 0 {
            (self, rows)
        } else {
            let first = if self.depth_of(children[0]) < depth {
                self.fail(rows, children[0], ex, error, result)
            } else {
                (self, rows)
            };
            first.0.fail_children(first.1, children.drop_first(), ex, error, result, depth)
        }
    }

    /// The same shape: root, ranks and counts of what was added.
    pub open spec fn same_frame(self, other: GraphView) -> bool {
        &&& self.root == other.root
        &&& self.rank == other.rank
        &&& self.nodes_added == other.nodes_added
        &&& self.edges_added == other.edges_added
    }

    /// Each of `deps` is a node of the graph other than the root.
    pub open spec fn can_depend_on(self, deps: Seq<NodeId>) -> bool {
        forall|i: int| 0 <= i < deps.len() ==> self.contains(#[trigger] deps[i]) && deps[i] != self.root
    }
}

/// Says of a task whether running it during `ex` would add anything to `rows`.
pub open spec fn needs_exec_in(ex: &Experiment, rows: Seq<ResultView>) -> spec_fn(Task) -> bool {
    |task: Task| task.spec_needs_exec(ex, rows)
}

/// What a walk through children gives when the children before were blocked
/// (`blocked`) or not, and those after give `rest`.
pub open spec fn blocked_before(blocked: bool, rest: (GraphView, WalkResult)) -> (
    GraphView,
    WalkResult,
) {
    if blocked && rest.1 is NotBlocked {
        (rest.0, WalkResult::Blocked)
    } else {
        rest
    }
}

/// Every target of an edge that leaves `a` is found among the edges.
pub proof fn lemma_targets(edges: Seq<(NodeId, NodeId)>, a: NodeId)
    ensures
        forall|k: int|
            0 <= k < targets_newest_first(edges, a).len() ==> exists|i: int|
                0 <= i < edges.len() && #[trigger] edges[i] == (
                    a,
                    #[trigger] targets_newest_first(edges, a)[k],
                ),
    decreases edges.len(),
{
    if edges.len() > 0 {
        lemma_targets(edges.drop_last(), a);
        let rest = targets_newest_first(edges.drop_last(), a);
        assert forall|k: int| 0 <= k < targets_newest_first(edges, a).len() implies exists|i: int|
            0 <= i < edges.len() && #[trigger] edges[i] == (
                a,
                #[trigger] targets_newest_first(edges, a)[k],
            ) by {
            if edges.last().0 == a && k == 0 {
                assert(edges[edges.len() - 1] == (a, targets_newest_first(edges, a)[k]));
            } else {
                let k0 = if edges.last().0 == a {
                    k - 1
                } else {
                    k
                };
                assert(rest[k0] == targets_newest_first(edges, a)[k]);
                let i = choose|i: int|
                    0 <= i < edges.drop_last().len() && #[trigger] edges.drop_last()[i] == (
                        a,
                        rest[k0],
                    );
                assert(edges[i] == edges.drop_last()[i]);
            }
        }
    }
}

/// Every source of an edge that enters `b` is found among the edges.
pub proof fn lemma_sources(edges: Seq<(NodeId, NodeId)>, b: NodeId)
    ensures
        forall|k: int|
            0 <= k < sources_newest_first(edges, b).len() ==> exists|i: int|
                0 <= i < edges.len() && #[trigger] edges[i] == (
                    #[trigger] sources_newest_first(edges, b)[k],
                    b,
                ),
    decreases edges.len(),
{
    if edges.len() > 0 {
        lemma_sources(edges.drop_last(), b);
        let rest = sources_newest_first(edges.drop_last(), b);
        assert forall|k: int| 0 <= k < sources_newest_first(edges, b).len() implies exists|i: int|
            0 <= i < edges.len() && #[trigger] edges[i] == (
                #[trigger] sources_newest_first(edges, b)[k],
                b,
            ) by {
            if edges.last().1 == b && k == 0 {
                assert(edges[edges.len() - 1] == (sources_newest_first(edges, b)[k], b));
            } else {
                let k0 = if edges.last().1 == b {
                    k - 1
                } else {
                    k
                };
                assert(rest[k0] == sources_newest_first(edges, b)[k]);
                let i = choose|i: int|
                    0 <= i < edges.drop_last().len() && #[trigger] edges.drop_last()[i] == (
                        rest[k0],
                        b,
                    );
                assert(edges[i] == edges.drop_last()[i]);
            }
        }
    }
}

/// The edges that are left when a node goes are edges that were there and
/// do not touch the node; and every such edge is left.
pub proof fn lemma_without_node(edges: Seq<(NodeId, NodeId)>, a: NodeId)
    ensures
        forall|k: int|
            0 <= k < without_node(edges, a).len() ==> {
                let e = #[trigger] without_node(edges, a)[k];
                e.0 != a && e.1 != a && exists|i: int| 0 <= i < edges.len() && #[trigger] edges[i] == e
            },
        forall|i: int|
            0 <= i < edges.len() && (#[trigger] edges[i]).0 != a && edges[i].1 != a ==> exists|k: int|
                0 <= k < without_node(edges, a).len() && #[trigger] without_node(edges, a)[k]
                    == edges[i],
    decreases edges.len(),
{
    if edges.len() > 0 {
        let front = edges.drop_last();
        lemma_without_node(front, a);
        let kept = without_node(front, a);
        let all = without_node(edges, a);
        let touches = edges.last().0 == a || edges.last().1 == a;
        assert forall|k: int| 0 <= k < all.len() implies {
            let e = #[trigger] all[k];
            e.0 != a && e.1 != a && exists|i: int| 0 <= i < edges.len() && #[trigger] edges[i] == e
        } by {
            if !touches && k == all.len() - 1 {
                assert(edges[edges.len() - 1] == all[k]);
            } else {
                assert(all[k] == kept[k]);
                let i = choose|i: int| 0 <= i < front.len() && #[trigger] front[i] == kept[k];
                assert(edges[i] == front[i]);
            }
        }
        assert forall|i: int|
            0 <= i < edges.len() && (#[trigger] edges[i]).0 != a && edges[i].1 != a implies exists|
            k: int,
        |
            0 <= k < all.len() && #[trigger] all[k] == edges[i] by {
            if i == edges.len() - 1 {
                assert(all[all.len() - 1] == edges[i]);
            } else {
                assert(front[i] == edges[i]);
                let k = choose|k: int| 0 <= k < kept.len() && #[trigger] kept[k] == front[i];
                assert(all[k] == kept[k]);
            }
        }
    }
}

/// Taking a node away takes no edge in; and where it takes no edge away, it
/// leaves the edges as they are.
pub proof fn lemma_without_node_len(edges: Seq<(NodeId, NodeId)>, a: NodeId)
    ensures
        without_node(edges, a).len() <= edges.len(),
        without_node(edges, a).len() == edges.len() ==> without_node(edges, a) == edges,
    decreases edges.len(),
{
    if edges.len() > 0 {
        lemma_without_node_len(edges.drop_last(), a);
        if !(edges.last().0 == a || edges.last().1 == a) && without_node(edges, a).len()
            == edges.len() {
            assert(without_node(edges, a) =~= edges.drop_last().push(edges.last()));
            assert(edges.drop_last().push(edges.last()) =~= edges);
        }
    }
}

/// Taking out a node that a well-formed graph does not hold changes
/// nothing.
pub proof fn lemma_remove_absent(g: GraphView, n: NodeId)
    requires
        g.wf(),
    ensures
        !g.contains(n) ==> g.remove(n) == g,
{
    if !g.contains(n) {
        lemma_edges_stay(g, g.edges.len() as int, n);
        assert(g.edges.take(g.edges.len() as int) =~= g.edges);
        assert(g.remove(n).nodes =~= g.nodes);
    }
}

/// No edge of a well-formed graph touches a node that the graph does not
/// hold, so taking the node out leaves each start of the edges as it is.
proof fn lemma_edges_stay(g: GraphView, upto: int, n: NodeId)
    requires
        g.wf(),
        !g.contains(n),
        0 <= upto <= g.edges.len(),
    ensures
        without_node(g.edges.take(upto), n) == g.edges.take(upto),
    decreases upto,
{
    let start = g.edges.take(upto);
    if upto > 0 {
        lemma_edges_stay(g, upto - 1, n);
        assert(start.drop_last() =~= g.edges.take(upto - 1));
        assert(start.last() == g.edges[upto - 1]);
        assert(g.edge_ok(g.edges[upto - 1]));
        assert(start.drop_last().push(start.last()) =~= start);
    } else {
        assert(without_node(start, n) =~= start);
    }
}

/// Taking a node other than the root out of a well-formed graph leaves a
/// well-formed graph.
pub proof fn lemma_remove_wf(g: GraphView, n: NodeId)
    requires
        g.wf(),
        n != g.root,
    ensures
        g.remove(n).wf(),
{
    lemma_without_node(g.edges, n);
    let h = g.remove(n);
    assert forall|i: int| 0 <= i < h.edges.len() implies h.edge_ok(#[trigger] h.edges[i]) by {
        let e = h.edges[i];
        let j = choose|j: int| 0 <= j < g.edges.len() && #[trigger] g.edges[j] == e;
        assert(g.edge_ok(g.edges[j]));
    }
}

/// Starting an idle task that depends on nothing leaves a well-formed
/// graph well formed.
pub proof fn lemma_start_wf(g: GraphView, n: NodeId)
    requires
        g.wf(),
        g.is_idle(n),
        g.bare(n),
    ensures
        g.start(n).wf(),
{
    let h = g.start(n);
    assert(h.nodes.dom() =~= g.nodes.dom());
    assert forall|i: int| 0 <= i < h.edges.len() implies h.edge_ok(#[trigger] h.edges[i]) by {
        assert(g.edge_ok(g.edges[i]));
    }
}

/// The graph of the tasks of one experiment.
pub struct TasksGraph {
    graph: StableGraph<Node, (), Directed, u32>,
    root: NodeId,
    nodes_added: u32,
    edges_added: u32,
    rank: Ghost<Map<NodeId, nat>>,
}

impl View for TasksGraph {
    type V = GraphView;

    closed spec fn view(&self) -> GraphView {
        GraphView {
            nodes: graph_nodes(self.graph),
            edges: graph_edges(self.graph),
            root: self.root,
            rank: self.rank@,
            nodes_added: self.nodes_added as nat,
            edges_added: self.edges_added as nat,
        }
    }
}

impl Default for TasksGraph {
    fn default() -> (graph: TasksGraph)
        ensures
            graph.wf(),
            graph@.nodes =~= Map::empty().insert(graph@.root, Node::Root),
            graph@.edges.len() == 0,
    {
        TasksGraph::new()
    }
}

impl TasksGraph {
    /// The graph is well formed, and holds no more nodes than slots and no
    /// more slots or edges than were added. While every edge that was added
    /// is still there, the edges lie in their slots in the order of adding.
    pub closed spec fn wf(&self) -> bool {
        &&& self@.wf()
        &&& self@.nodes.dom().len() <= graph_node_slots(self.graph) <= self.nodes_added
        &&& graph_edge_slots(self.graph) <= self.edges_added
        &&& self@.edges.len() <= self.edges_added
        &&& self@.edges.len() == self.edges_added ==> self.dot_edges() == self@.edges
    }

    /// The edges in the order in which `dot` writes them: that of the slots
    /// in which the graph keeps them.
    pub closed spec fn dot_edges(&self) -> Seq<(NodeId, NodeId)> {
        graph_edges_by_slot(self.graph)
    }

    /// While no edge has left the graph, `dot` writes the edges in the
    /// order in which they were added.
    pub proof fn lemma_dot_edges(&self)
        requires
            self.wf(),
            self@.edges.len() == self@.edges_added,
        ensures
            self.dot_edges() == self@.edges,
    {
    }

    /// What `wf` says of the graph as a value.
    pub proof fn lemma_wf(&self)
        requires
            self.wf(),
        ensures
            self@.wf(),
            self@.nodes_added <= u32::MAX,
            self@.edges_added <= u32::MAX,
    {
    }

    /// A graph that holds its root and nothing else.
    pub fn new() -> (graph: TasksGraph)
        ensures
            graph.wf(),
            graph@.nodes =~= Map::empty().insert(graph@.root, Node::Root),
            graph@.edges.len() == 0,
            graph@.root == 0,
            graph@.rank =~= Map::empty(),
            graph@.nodes_added == 1,
            graph@.edges_added == 0,
    {
        let mut graph = graph_new();
        let root = graph_add_node(&mut graph, Node::Root);
        let graph = TasksGraph {
            graph,
            root,
            nodes_added: 1,
            edges_added: 0,
            rank: Ghost(Map::empty()),
        };
        proof {
            assert(graph.dot_edges() =~= graph@.edges);
        }
        graph
    }

    /// The index of the root.
    pub fn root(&self) -> (root: NodeId)
        ensures
            root == self@.root,
    {
        self.root
    }

    /// How many nodes were ever added, the root included.
    pub fn nodes_added(&self) -> (n: u32)
        ensures
            n == self@.nodes_added,
    {
        self.nodes_added
    }

    /// How many edges were ever added.
    pub fn edges_added(&self) -> (n: u32)
        ensures
            n == self@.edges_added,
    {
        self.edges_added
    }

    /// The node under the index `id`, where there is one.
    pub fn node(&self, id: NodeId) -> (node: Option<&Node>)
        ensures
            node == if self@.contains(id) {
                Some(&self@.nodes[id])
            } else {
                None
            },
    {
        graph_node_weight(&self.graph, id)
    }

    /// Whether the graph has a node under the index `id`.
    pub fn contains(&self, id: NodeId) -> (found: bool)
        ensures
            found == self@.contains(id),
    {
        graph_node_weight(&self.graph, id).is_some()
    }

    /// How many nodes the graph holds, the root included.
    pub fn node_count(&self) -> (count: usize)
        ensures
            count == self@.nodes.dom().len(),
    {
        graph_node_count(&self.graph)
    }

    /// What the node `node` depends on, the dependency added last coming
    /// first; nothing where the graph has no such node.
    pub fn neighbors(&self, node: NodeId) -> (targets: Vec<NodeId>)
        ensures
            targets@ == targets_newest_first(self@.edges, node),
    {
        graph_neighbors(&self.graph, node)
    }

    /// The graph in the DOT language of Graphviz: the text that `dot_text`
    /// names for the nodes of the graph and for its edges as `dot_edges`
    /// orders them. For a graph that no edge has left, as a graph is when
    /// it was built, these are the edges in the order of adding. Whether a
    /// task is running shows in the text only through the node of the task.
    pub fn dot(&self) -> (text: String)
        ensures
            text@ == dot_text(self@.nodes, self.dot_edges()),
            self.wf() && self@.edges.len() == self@.edges_added ==> text@ == dot_text(
                self@.nodes,
                self@.edges,
            ),
    {
        graph_dot(&self.graph)
    }

    /// Adds a node that depends on each of `deps`, and returns its index.
    fn add_node(&mut self, node: Node, deps: &[NodeId]) -> (id: NodeId)
        requires
            old(self).wf(),
            !(node is Root),
            node is Task ==> !node->running,
            old(self)@.can_depend_on(deps@),
            old(self)@.nodes_added < u32::MAX,
            old(self)@.edges_added + deps@.len() <= u32::MAX,
        ensures
            final(self).wf(),
            !old(self)@.contains(id),
            id != old(self)@.root,
            final(self)@ == old(self)@.add(id, node, deps@),
            old(self)@.nodes.dom().len() == old(self)@.nodes_added ==> id == old(self)@.nodes_added,
    {
        let ghost before = self@;
        let id = graph_add_node(&mut self.graph, node);
        proof {
            self.rank@ = self.rank@.insert(id, self.nodes_added as nat);
        }
        self.nodes_added = self.nodes_added + 1;
        let ghost grown = self@;
        proof {
            assert forall|i: int| 0 <= i < grown.edges.len() implies grown.edge_ok(
                #[trigger] grown.edges[i],
            ) by {
                assert(before.edge_ok(before.edges[i]));
            }
            assert(grown.wf());
            assert forall|n: NodeId| before.contains(n) && n != before.root implies grown.rank_of(
                n,
            ) < before.nodes_added by {
                assert(!(before.nodes[n] is Root));
            }
        }
        let mut i: usize = 0;
        while i < deps.len()
            invariant
                i <= deps.len(),
                self.wf(),
                before.can_depend_on(deps@),
                before.nodes.dom().len() == before.nodes_added ==> id == before.nodes_added,
                grown.contains(id),
                !grown.is_running(id),
                id != grown.root,
                grown.rank_of(id) == before.nodes_added,
                grown.nodes == before.nodes.insert(id, node),
                forall|n: NodeId| before.contains(n) && n != before.root ==> grown.rank_of(n) < before.nodes_added,
                before.root == grown.root,
                self@.nodes == grown.nodes,
                self@.root == grown.root,
                self@.rank == grown.rank,
                self@.nodes_added == grown.nodes_added,
                self@.edges_added == before.edges_added + i,
                before.edges_added + deps@.len() <= u32::MAX,
                self@.edges == before.edges + Seq::new(i as nat, |k: int| (id, deps@[k])),
            decreases deps.len() - i,
        {
            let ghost prev = self@;
            graph_add_edge(&mut self.graph, id, deps[i]);
            self.edges_added = self.edges_added + 1;
            proof {
                assert(self@.edges =~= before.edges + Seq::new(
                    (i + 1) as nat,
                    |k: int| (id, deps@[k]),
                ));
                assert forall|j: int| 0 <= j < self@.edges.len() implies self@.edge_ok(
                    #[trigger] self@.edges[j],
                ) by {
                    if j < prev.edges.len() {
                        assert(prev.edge_ok(prev.edges[j]));
                    } else {
                        assert(self@.edges[j] == (id, deps@[i as int]));
                    }
                }
            }
            i += 1;
        }
        assert(self@.edges =~= before.add(id, node, deps@).edges);
        id
    }

    /// Adds the idle task `task`, which cannot run before each of `deps` has
    /// left the graph, and returns its index.
    pub fn add_task(&mut self, task: Task, deps: &[NodeId]) -> (id: NodeId)
        requires
            old(self).wf(),
            old(self)@.can_depend_on(deps@),
            old(self)@.nodes_added < u32::MAX,
            old(self)@.edges_added + deps@.len() <= u32::MAX,
        ensures
            final(self).wf(),
            !old(self)@.contains(id),
            id != old(self)@.root,
            final(self)@ == old(self)@.add(id, Node::Task { task: task, running: false }, deps@),
            old(self)@.nodes.dom().len() == old(self)@.nodes_added ==> id == old(self)@.nodes_added,
    {
        self.add_node(Node::Task { task, running: false }, deps)
    }

    /// Adds the node that stands for a package whose builds are `deps`, hangs
    /// it from the root, and returns its index.
    pub fn add_crate(&mut self, deps: &[NodeId]) -> (id: NodeId)
        requires
            old(self).wf(),
            old(self)@.can_depend_on(deps@),
            old(self)@.nodes_added < u32::MAX,
            old(self)@.edges_added + deps@.len() + 1 <= u32::MAX,
        ensures
            final(self).wf(),
            !old(self)@.contains(id),
            id != old(self)@.root,
            final(self)@ == old(self)@.add(id, Node::CrateCompleted, deps@).hang(id),
            old(self)@.nodes.dom().len() == old(self)@.nodes_added ==> id == old(self)@.nodes_added,
    {
        let id = self.add_node(Node::CrateCompleted, deps);
        let ghost prev = self@;
        graph_add_edge(&mut self.graph, self.root, id);
        self.edges_added = self.edges_added + 1;
        proof {
            assert forall|j: int| 0 <= j < self@.edges.len() implies self@.edge_ok(
                #[trigger] self@.edges[j],
            ) by {
                if j < prev.edges.len() {
                    assert(prev.edge_ok(prev.edges[j]));
                }
            }
        }
        id
    }

    /// Picks the next task to run, by a depth-first walk from the root.
    ///
    /// `Task` hands a task to the caller, which alone may run it: the task
    /// was idle and needed and is now running, and a task that was running
    /// before is never handed out. `Blocked` says that every task left is running or
    /// waits for one that is. `Finished` says that nothing is left to do:
    /// the root depends on nothing. The answer is never `NotBlocked`.
    pub fn next_task(&mut self, ex: &Experiment, db: &ResultStore) -> (found: WalkResult)
        requires
            old(self).wf(),
            db.wf(),
        ensures
            final(self).wf(),
            final(self)@ == old(self)@.walk(old(self)@.root, needs_exec_in(ex, db@)).0,
            found == old(self)@.walk(old(self)@.root, needs_exec_in(ex, db@)).1,
            !(found is NotBlocked),
            found matches WalkResult::Task(id, task) ==> old(self)@.is_idle(id) && task
                == old(self)@.nodes[id]->task && task.spec_needs_exec(ex, db@)
                && final(self)@.is_running(id),
            forall|n: NodeId| #[trigger] old(self)@.is_running(n) ==> final(self)@.is_running(n),
            found is Blocked ==> some_running(old(self)@),
            found is Finished ==> final(self)@.bare(final(self)@.root),
    {
        proof {
            lemma_next_task(self@, needs_exec_in(ex, db@));
        }
        let root = self.root;
        self.walk_graph(root, ex, db)
    }

    fn walk_graph(&mut self, node: NodeId, ex: &Experiment, db: &ResultStore) -> (found: WalkResult)
        requires
            old(self).wf(),
            db.wf(),
        ensures
            final(self).wf(),
            final(self)@ == old(self)@.walk(node, needs_exec_in(ex, db@)).0,
            found == old(self)@.walk(node, needs_exec_in(ex, db@)).1,
            final(self)@.same_frame(old(self)@),
            node == old(self)@.root ==> !(found is NotBlocked),
        decreases old(self)@.rank_of(node),
    {
        let ghost g0 = self@;
        let ghost needs = needs_exec_in(ex, db@);
        // An idle task that would add nothing has been done before.
        let mut already_executed = false;
        match graph_node_weight(&self.graph, node) {
            None => {
                return WalkResult::NotBlocked;
            },
            Some(Node::Task { task, running }) => {
                if !*running && !task.needs_exec(ex, db) {
                    already_executed = true;
                }
            },
            Some(_) => {},
        }
        if already_executed {
            self.mark_as_completed(node);
            return WalkResult::NotBlocked;
        }
        // The dependencies come newest first: they are walked from the back.
        let neighbors = graph_neighbors(&self.graph, node);
        let ghost children = g0.out(node);
        let ghost bound = g0.rank_of(node);
        proof {
            lemma_targets(g0.edges, node);
            assert forall|k: int| 0 <= k < children.len() implies g0.rank_of(
                #[trigger] children[k],
            ) < bound by {
                let t = targets_newest_first(g0.edges, node);
                let j = t.len() - 1 - k;
                assert(children[k] == t[j]);
                let e = choose|e: int| 0 <= e < g0.edges.len() && #[trigger] g0.edges[e] == (node, t[j]);
                assert(g0.edge_ok(g0.edges[e]));
            }
            assert(children.skip(0) =~= children);
        }
        let mut blocked = false;
        let mut i: usize = neighbors.len();
        while i > 0
            invariant
                i <= neighbors.len(),
                self.wf(),
                db.wf(),
                needs == needs_exec_in(ex, db@),
                self@.same_frame(g0),
                g0 == old(self)@,
                g0.contains(node),
                !(g0.is_idle(node) && !needs(g0.nodes[node]->task)),
                bound == g0.rank_of(node),
                children == g0.out(node),
                children == neighbors@.reverse(),
                forall|k: int| 0 <= k < children.len() ==> g0.rank_of(#[trigger] children[k]) < bound,
                g0.walk_children(children, needs, bound) == blocked_before(
                    blocked,
                    self@.walk_children(children.skip(neighbors.len() - i), needs, bound),
                ),
            decreases i,
        {
            let ghost k = neighbors.len() - i;
            let ghost before = self@;
            i -= 1;
            let child = neighbors[i];
            proof {
                assert(children.skip(k)[0] == child);
                assert(children.skip(k).drop_first() =~= children.skip(k + 1));
                assert(before.rank_of(child) == g0.rank_of(children[k]));
            }
            match self.walk_graph(child, ex, db) {
                WalkResult::Task(id, task) => {
                    return WalkResult::Task(id, task);
                },
                WalkResult::Finished => {
                    return WalkResult::Finished;
                },
                WalkResult::Blocked => {
                    blocked = true;
                },
                WalkResult::NotBlocked => {},
            }
        }
        proof {
            assert(children.skip(neighbors.len() as int).len() == 0);
        }
        if blocked {
            return WalkResult::Blocked;
        }
        let ghost below = self@;
        proof {
            // Nothing that `node` depended on is left.
            lemma_walk_children(g0, children, needs, bound);
            lemma_children_gone(g0, below, node);
        }
        let mut hand_out: Option<Task> = None;
        let mut delete = false;
        let result = match graph_node_weight(&self.graph, node) {
            None => WalkResult::NotBlocked,
            Some(Node::Task { task, running }) => {
                if *running {
                    WalkResult::Blocked
                } else {
                    hand_out = Some(task.clone());
                    WalkResult::Task(node, task.clone())
                }
            },
            Some(Node::CrateCompleted) => {
                // All the steps for this package were completed.
                delete = true;
                WalkResult::NotBlocked
            },
            Some(Node::Root) => WalkResult::Finished,
        };
        match hand_out {
            Some(task) => {
                proof {
                    lemma_start_wf(below, node);
                }
                graph_set_weight(&mut self.graph, node, Node::Task { task, running: true });
            },
            None => {},
        }
        if delete {
            self.mark_as_completed(node);
        }
        result
    }

    /// Gives up the node `node` and all that depends on it: each task among
    /// them gets `result` recorded, with `error` as the log, and leaves the
    /// graph. Exactly the tasks that depend on `node` through a chain of
    /// edges leave, and `node` itself where it is a task; the root, the
    /// nodes of packages and the tasks of other packages stay.
    pub fn mark_as_failed(
        &mut self,
        node: NodeId,
        ex: &Experiment,
        db: &mut ResultStore,
        error: &str,
        result: TestResult,
    )
        requires
            old(self).wf(),
            old(db).wf(),
        ensures
            final(self).wf(),
            final(db).wf(),
            final(self)@ == old(self)@.fail(old(db)@, node, ex, error@, result).0,
            final(db)@ == old(self)@.fail(old(db)@, node, ex, error@, result).1,
            final(self)@.same_frame(old(self)@),
            forall|m: NodeId|
                #![trigger final(self)@.contains(m)]
                final(self)@.contains(m) <==> old(self)@.contains(m) && !(
                old(self)@.nodes[m] is Task && depends_on(old(self)@, m, node)),
        decreases old(self)@.depth_of(node),
    {
        let ghost g0 = self@;
        proof {
            lemma_fail_removes_dependents(g0, db@, node, ex, error@, result);
        }
        let ghost rows0 = db@;
        if !self.contains(node) {
            return ;
        }
        let children = graph_dependents(&self.graph, node);
        let ghost depth = g0.depth_of(node);
        proof {
            lemma_sources(g0.edges, node);
            assert forall|k: int| 0 <= k < children@.len() implies g0.depth_of(
                #[trigger] children@[k],
            ) < depth by {
                let e = choose|e: int|
                    0 <= e < g0.edges.len() && #[trigger] g0.edges[e] == (children@[k], node);
                assert(g0.edge_ok(g0.edges[e]));
                assert(!(g0.nodes[node] is Root));
                if children@[k] != g0.root {
                    assert(!(g0.nodes[children@[k]] is Root));
                }
            }
            assert(children@.skip(0) =~= children@);
        }
        let mut i: usize = 0;
        while i < children.len()
            invariant
                i <= children.len(),
                self.wf(),
                db.wf(),
                self@.same_frame(g0),
                g0 == old(self)@,
                rows0 == old(db)@,
                g0.contains(node),
                depth == g0.depth_of(node),
                children@ == g0.dependents(node),
                forall|k: int| 0 <= k < children@.len() ==> g0.depth_of(#[trigger] children@[k]) < depth,
                g0.fail_children(rows0, children@, ex, error@, result, depth) == self@.fail_children(
                    db@,
                    children@.skip(i as int),
                    ex,
                    error@,
                    result,
                    depth,
                ),
            decreases children.len() - i,
        {
            let ghost before = self@;
            let child = children[i];
            proof {
                assert(children@.skip(i as int)[0] == child);
                assert(children@.skip(i as int).drop_first() =~= children@.skip(i + 1));
                assert(before.depth_of(child) == g0.depth_of(children@[i as int]));
            }
            self.mark_as_failed(child, ex, db, error, result);
            i += 1;
        }
        proof {
            assert(children@.skip(children@.len() as int).len() == 0);
        }
        let ghost above = self@;
        let mut delete = false;
        match graph_node_weight(&self.graph, node) {
            Some(Node::Task { task, .. }) => {
                task.mark_as_failed(ex, db, error, result);
                delete = true;
            },
            _ => {},
        }
        if delete {
            self.mark_as_completed(node);
        }
    }

    /// Takes the node `node` out of the graph, with the edges that touch
    /// it; the other nodes and edges stay as they are. Where the graph holds
    /// no such node, nothing changes. A graph that has lost its root is well
    /// formed no longer, and no task can be asked of it.
    pub fn mark_as_completed(&mut self, node: NodeId)
        requires
            old(self).wf(),
        ensures
            final(self)@ == old(self)@.remove(node),
            !old(self)@.contains(node) ==> final(self)@ == old(self)@,
            node != old(self)@.root ==> final(self).wf(),
    {
        proof {
            if node != self.root {
                lemma_remove_wf(self@, node);
            }
            lemma_remove_absent(self@, node);
            lemma_without_node_len(self@.edges, node);
        }
        graph_remove_node(&mut self.graph, node);
    }
}

} // verus!
