use vstd::prelude::*;
use crate::config::Config;
use crate::db::ResultStore;
use crate::ex::Experiment;
use crate::failure_lemmas::{
    depends_on, lemma_fail_removes_dependents, lemma_running_survives_failure,
};
use crate::graph_lemmas::{is_path, lemma_next_task, lemma_walk};
use crate::results::TestResult;
use crate::run_graph::{needs_exec_in, GraphView, NodeId, TasksGraph, WalkResult};
use crate::tasks::Task;

verus! {

/// What one worker of the pool is doing.
#[derive(Clone, Copy, Debug, PartialEq, Eq, Structural)]
pub enum Worker {
    /// About to ask for a task.
    Idle,
    /// Running the task under this index.
    Running(NodeId),
    /// Waiting until another worker has finished a task.
    Parked,
    /// Done: the graph had nothing left.
    Exited,
}

/// What a worker that asked for a task has to do.
#[derive(Debug)]
pub enum Action {
    /// Run the task, outside the lock on the graph, and report how it went.
    Run(NodeId, Task),
    /// Wait until woken, then ask again.
    Park,
    /// Leave the loop.
    Exit,
}

/// What a worker does after a walk that found `found`.
pub open spec fn after_walk(found: WalkResult) -> Worker {
    match found {
        WalkResult::Task(id, _) => Worker::Running(id),
        WalkResult::Blocked => Worker::Parked,
        WalkResult::Finished => Worker::Exited,
        WalkResult::NotBlocked => Worker::Idle,
    }
}

/// The workers once every parked worker is woken.
pub open spec fn unparked(workers: Seq<Worker>) -> Seq<Worker> {
    Seq::new(
        workers.len(),
        |i: int|
            if workers[i] is Parked {
                Worker::Idle
            } else {
                workers[i]
            },
    )
}

/// The workers that are parked, in order.
pub open spec fn parked(workers: Seq<Worker>) -> Seq<usize>
    decreases workers.len(),
{
    if workers.len() == 0 {
        Seq::empty()
    } else if workers.last() is Parked {
        parked(workers.drop_last()).push((workers.len() - 1) as usize)
    } else {
        parked(workers.drop_last())
    }
}

/// Each worker that runs a task runs a task that is running in the graph,
/// and no two workers run the same task.
pub open spec fn owns(workers: Seq<Worker>, g: GraphView) -> bool {
    &&& forall|w: int|
        0 <= w < workers.len() && #[trigger] workers[w] is Running ==> g.is_running(
            workers[w]->Running_0,
        )
    &&& forall|a: int, b: int|
        0 <= a < workers.len() && 0 <= b < workers.len() && a != b && #[trigger] workers[a] is Running
            && #[trigger] workers[b] is Running ==> workers[a]->Running_0 != workers[b]->Running_0
}

/// Every task that is running in the graph is run by a worker.
pub open spec fn all_owned(workers: Seq<Worker>, g: GraphView) -> bool {
    forall|n: NodeId|
        #[trigger] g.is_running(n) ==> exists|w: int|
            0 <= w < workers.len() && #[trigger] workers[w] == Worker::Running(n)
}

/// Some worker is running a task.
pub open spec fn some_worker_runs(workers: Seq<Worker>) -> bool {
    exists|w: int| 0 <= w < workers.len() && #[trigger] workers[w] is Running
}

/// Asking for a task keeps every running task with a worker; and a worker
/// is told to park only while another worker runs a task, whose end will
/// wake it.
pub proof fn lemma_asking_keeps_owned(
    workers: Seq<Worker>,
    g: GraphView,
    needs: spec_fn(Task) -> bool,
    worker: int,
)
    requires
        g.wf(),
        all_owned(workers, g),
        0 <= worker < workers.len(),
        workers[worker] is Idle,
    ensures
        all_owned(
            workers.update(worker, after_walk(g.walk(g.root, needs).1)),
            g.walk(g.root, needs).0,
        ),
        g.walk(g.root, needs).1 is Blocked ==> some_worker_runs(
            workers.update(worker, after_walk(g.walk(g.root, needs).1)),
        ),
{
    lemma_walk(g, g.root, needs);
    let h = g.walk(g.root, needs).0;
    let found = g.walk(g.root, needs).1;
    let after = workers.update(worker, after_walk(found));
    assert forall|n: NodeId| #[trigger] h.is_running(n) implies exists|w: int|
        0 <= w < after.len() && #[trigger] after[w] == Worker::Running(n) by {
        if found is Task && found->Task_0 == n {
            assert(after[worker] == Worker::Running(n));
        } else {
            assert(h.contains(n));
            assert(h.nodes[n] == g.nodes[n]);
            assert(g.is_running(n));
            let w = choose|w: int| 0 <= w < workers.len() && #[trigger] workers[w] == Worker::Running(n);
            assert(after[w] == Worker::Running(n));
        }
    }
    if found is Blocked {
        let n = choose|n: NodeId| #[trigger] g.is_running(n);
        let w = choose|w: int| 0 <= w < workers.len() && #[trigger] workers[w] == Worker::Running(n);
        assert(after[w] is Running);
    }
}

/// The end of a task keeps every running task with a worker: the task
/// that ended has left the graph, and the others are where they were.
pub proof fn lemma_done_keeps_owned(
    workers: Seq<Worker>,
    g: GraphView,
    after: GraphView,
    worker: int,
)
    requires
        all_owned(workers, g),
        0 <= worker < workers.len(),
        workers[worker] is Running,
        !after.contains(workers[worker]->Running_0),
        forall|n: NodeId| #[trigger] after.is_running(n) ==> g.is_running(n),
    ensures
        all_owned(unparked(workers.update(worker, Worker::Idle)), after),
{
    let later = unparked(workers.update(worker, Worker::Idle));
    assert forall|n: NodeId| #[trigger] after.is_running(n) implies exists|w: int|
        0 <= w < later.len() && #[trigger] later[w] == Worker::Running(n) by {
        assert(g.is_running(n));
        let w = choose|w: int| 0 <= w < workers.len() && #[trigger] workers[w] == Worker::Running(n);
        assert(w != worker);
        assert(later[w] == Worker::Running(n));
    }
}

/// The outcome that is recorded when a task has failed: a failed build for
/// a package that is known not to build, an error for any other.
pub open spec fn spec_failure_result(config: &Config, task: &Task) -> TestResult {
    if config.flags(task.krate@).broken {
        TestResult::BuildFail
    } else {
        TestResult::Error
    }
}

/// The outcome that is recorded when `task` has failed.
pub fn failure_result(config: &Config, task: &Task) -> (result: TestResult)
    ensures
        result == spec_failure_result(config, task),
{
    if config.is_broken(&task.krate) {
        TestResult::BuildFail
    } else {
        TestResult::Error
    }
}

/// Whether the run is over as it should be: a walk finds `Finished`, and
/// the root then depends on nothing. The second follows from the first.
pub fn run_is_complete(graph: &mut TasksGraph, ex: &Experiment, db: &ResultStore) -> (complete: bool)
    requires
        old(graph).wf(),
        db.wf(),
    ensures
        final(graph).wf(),
        final(graph)@ == old(graph)@.walk(old(graph)@.root, needs_exec_in(ex, db@)).0,
        complete == (old(graph)@.walk(old(graph)@.root, needs_exec_in(ex, db@)).1 is Finished),
{
    proof {
        graph.lemma_wf();
        lemma_next_task(graph@, needs_exec_in(ex, db@));
        lemma_walk(graph@, graph@.root, needs_exec_in(ex, db@));
    }
    let ghost before = graph@;
    let finished = graph.next_task(ex, db).is_finished();
    let root = graph.root();
    let left = graph.neighbors(root);
    proof {
        if finished {
            let t = crate::stable_graph::targets_newest_first(graph@.edges, root);
            if t.len() > 0 {
                crate::run_graph::lemma_targets(graph@.edges, root);
                let i = choose|i: int|
                    0 <= i < graph@.edges.len() && #[trigger] graph@.edges[i] == (root, t[0]);
                assert(graph@.edges[i].0 == root);
            }
        }
    }
    finished && left.len() == 0
}

/// The workers of one run, as the driver of the run sees them.
#[derive(Debug)]
pub struct Pool {
    workers: Vec<Worker>,
}

impl View for Pool {
    type V = Seq<Worker>;

    closed spec fn view(&self) -> Seq<Worker> {
        self.workers@
    }
}

impl Pool {
    /// A pool of `threads_count` workers, all about to ask for a task.
    pub fn new(threads_count: usize) -> (pool: Pool)
        ensures
            pool@.len() == threads_count,
            forall|i: int| 0 <= i < threads_count ==> #[trigger] pool@[i] == Worker::Idle,
    {
        let mut workers: Vec<Worker> = Vec::new();
        let mut i: usize = 0;
        while i < threads_count
            invariant
                i <= threads_count,
                workers@.len() == i,
                forall|k: int| 0 <= k < i ==> #[trigger] workers@[k] == Worker::Idle,
            decreases threads_count - i,
        {
            workers.push(Worker::Idle);
            i += 1;
        }
        Pool { workers }
    }

    /// How many workers the pool has.
    pub fn len(&self) -> (n: usize)
        ensures
            n == self@.len(),
    {
        self.workers.len()
    }

    /// What the worker `worker` is doing.
    pub fn worker(&self, worker: usize) -> (state: Worker)
        requires
            worker < self@.len(),
        ensures
            state == self@[worker as int],
    {
        self.workers[worker]
    }

    /// Whether every worker has left its loop.
    pub fn all_exited(&self) -> (done: bool)
        ensures
            done == forall|i: int| 0 <= i < self@.len() ==> #[trigger] self@[i] is Exited,
    {
        let mut i: usize = 0;
        while i < self.workers.len()
            invariant
                i <= self.workers.len(),
                forall|k: int| 0 <= k < i ==> #[trigger] self@[k] is Exited,
            decreases self.workers.len() - i,
        {
            match self.workers[i] {
                Worker::Exited => {},
                _ => {
                    return false;
                },
            }
            i += 1;
        }
        true
    }

    /// The idle worker `worker` asks, under the lock on the graph, what to
    /// do: the walker is asked for the next task. With a task the worker is
    /// running it; where all is blocked the worker parks; at the end the
    /// worker leaves. No worker is handed a task that another worker runs,
    /// and a worker parks only while another worker runs a task.
    pub fn next_action(
        &mut self,
        worker: usize,
        graph: &mut TasksGraph,
        ex: &Experiment,
        db: &ResultStore,
    ) -> (action: Action)
        requires
            worker < old(self)@.len(),
            old(self)@[worker as int] is Idle,
            old(graph).wf(),
            db.wf(),
        ensures
            final(graph).wf(),
            final(graph)@ == old(graph)@.walk(old(graph)@.root, needs_exec_in(ex, db@)).0,
            final(self)@ == old(self)@.update(
                worker as int,
                after_walk(old(graph)@.walk(old(graph)@.root, needs_exec_in(ex, db@)).1),
            ),
            owns(old(self)@, old(graph)@) ==> owns(final(self)@, final(graph)@),
            all_owned(old(self)@, old(graph)@) ==> all_owned(final(self)@, final(graph)@),
            all_owned(old(self)@, old(graph)@) && action == Action::Park ==> some_worker_runs(
                final(self)@,
            ),
            match old(graph)@.walk(old(graph)@.root, needs_exec_in(ex, db@)).1 {
                WalkResult::Task(id, task) => action == Action::Run(id, task),
                WalkResult::Blocked => action == Action::Park,
                WalkResult::Finished => action == Action::Exit,
                WalkResult::NotBlocked => false,
            },
    {
        let ghost before = self@;
        let ghost g0 = graph@;
        proof {
            graph.lemma_wf();
            if all_owned(before, g0) {
                lemma_asking_keeps_owned(before, g0, needs_exec_in(ex, db@), worker as int);
            }
        }
        let found = graph.next_task(ex, db);
        proof {
            if owns(before, g0) {
                let after = before.update(worker as int, after_walk(found));
                assert forall|w: int|
                    0 <= w < after.len() && #[trigger] after[w] is Running implies graph@.is_running(
                    after[w]->Running_0,
                ) by {
                    if w != worker {
                        assert(before[w] is Running);
                        assert(g0.is_running(before[w]->Running_0));
                    }
                }
                assert forall|a: int, b: int|
                    0 <= a < after.len() && 0 <= b < after.len() && a != b
                        && #[trigger] after[a] is Running
                        && #[trigger] after[b] is Running implies after[a]->Running_0
                    != after[b]->Running_0 by {
                    if a != worker && b != worker {
                        assert(before[a] is Running && before[b] is Running);
                    } else {
                        let other = if a == worker {
                            b
                        } else {
                            a
                        };
                        assert(before[other] is Running);
                        assert(g0.is_running(before[other]->Running_0));
                    }
                }
            }
        }
        match found {
            WalkResult::Task(id, task) => {
                self.workers.set(worker, Worker::Running(id));
                Action::Run(id, task)
            },
            WalkResult::Blocked => {
                self.workers.set(worker, Worker::Parked);
                Action::Park
            },
            WalkResult::Finished => {
                self.workers.set(worker, Worker::Exited);
                Action::Exit
            },
            WalkResult::NotBlocked => {
                // A walk from the root never gives this.
                Action::Park
            },
        }
    }

    /// The worker `worker` reports, under the lock on the graph, how the
    /// task `task` that it was running went: `failure` is `None` after a
    /// success, and the error after a failure.
    ///
    /// After a success the node that the worker was running leaves the
    /// graph, as `mark_as_completed` says. After a failure the task
    /// and all that depends on it are given up, with the outcome of
    /// `failure_result`. Either way the worker is idle again, every parked
    /// worker is woken, and the woken workers are returned, in order. The
    /// tasks that the other workers run stay in the graph, each with its
    /// worker.
    pub fn task_done(
        &mut self,
        worker: usize,
        task: &Task,
        failure: Option<&str>,
        graph: &mut TasksGraph,
        ex: &Experiment,
        db: &mut ResultStore,
        config: &Config,
    ) -> (woken: Vec<usize>)
        requires
            worker < old(self)@.len(),
            old(self)@[worker as int] is Running,
            old(graph).wf(),
            old(db).wf(),
        ensures
            failure is Some || old(self)@[worker as int]->Running_0 != old(graph)@.root
                ==> final(graph).wf(),
            owns(old(self)@, old(graph)@) ==> final(graph).wf(),
            final(db).wf(),
            match failure {
                None => {
                    &&& final(graph)@ == old(graph)@.remove(old(self)@[worker as int]->Running_0)
                    &&& final(db)@ == old(db)@
                },
                Some(error) => {
                    &&& final(graph)@ == old(graph)@.fail(
                        old(db)@,
                        old(self)@[worker as int]->Running_0,
                        ex,
                        error@,
                        spec_failure_result(config, task),
                    ).0
                    &&& final(db)@ == old(graph)@.fail(
                        old(db)@,
                        old(self)@[worker as int]->Running_0,
                        ex,
                        error@,
                        spec_failure_result(config, task),
                    ).1
                },
            },
            final(self)@ == unparked(old(self)@.update(worker as int, Worker::Idle)),
            woken@ == parked(old(self)@),
            owns(old(self)@, old(graph)@) ==> owns(final(self)@, final(graph)@),
            owns(old(self)@, old(graph)@) && all_owned(old(self)@, old(graph)@) ==> all_owned(
                final(self)@,
                final(graph)@,
            ),
    {
        let ghost before = self@;
        let ghost g0 = graph@;
        let ghost rows0 = db@;
        proof {
            graph.lemma_wf();
        }
        let id = match self.workers[worker] {
            Worker::Running(id) => id,
            _ => 0,
        };
        match failure {
            None => {
                graph.mark_as_completed(id);
            },
            Some(error) => {
                let result = failure_result(config, task);
                graph.mark_as_failed(id, ex, db, error, result);
            },
        }
        self.workers.set(worker, Worker::Idle);
        // Wake all the parked workers.
        let mut woken: Vec<usize> = Vec::new();
        let mut i: usize = 0;
        while i < self.workers.len()
            invariant
                i <= self.workers.len(),
                worker < before.len(),
                before[worker as int] is Running,
                self@.len() == before.len(),
                woken@ == parked(before.take(i as int)),
                forall|k: int|
                    0 <= k < i ==> #[trigger] self@[k] == unparked(
                        before.update(worker as int, Worker::Idle),
                    )[k],
                forall|k: int|
                    i <= k < self@.len() ==> #[trigger] self@[k] == before.update(
                        worker as int,
                        Worker::Idle,
                    )[k],
            decreases self.workers.len() - i,
        {
            assert(before.take(i + 1).drop_last() =~= before.take(i as int));
            match self.workers[i] {
                Worker::Parked => {
                    self.workers.set(i, Worker::Idle);
                    woken.push(i);
                },
                _ => {},
            }
            i += 1;
        }
        proof {
            assert(before.take(before.len() as int) =~= before);
            assert(self@ =~= unparked(before.update(worker as int, Worker::Idle)));
            if owns(before, g0) && all_owned(before, g0) {
                let id = before[worker as int]->Running_0;
                assert(g0.is_running(id));
                match failure {
                    None => {},
                    Some(error) => {
                        lemma_fail_removes_dependents(
                            g0,
                            rows0,
                            id,
                            ex,
                            error@,
                            spec_failure_result(config, task),
                        );
                        assert(depends_on(g0, id, id)) by {
                            let path = seq![id];
                            assert(is_path(g0, path));
                            assert(path[0] == id && path.last() == id);
                        }
                    },
                }
                assert forall|n: NodeId| #[trigger] graph@.is_running(n) implies g0.is_running(
                    n,
                ) by {
                    assert(graph@.contains(n));
                }
                lemma_done_keeps_owned(before, g0, graph@, worker as int);
            }
            if owns(before, g0) {
                let id = before[worker as int]->Running_0;
                assert forall|w: int|
                    0 <= w < self@.len() && #[trigger] self@[w] is Running implies graph@.is_running(
                    self@[w]->Running_0,
                ) by {
                    assert(before[w] is Running && w != worker);
                    let other = before[w]->Running_0;
                    assert(g0.is_running(other));
                    assert(other != id);
                    match failure {
                        None => {},
                        Some(error) => {
                            lemma_running_survives_failure(
                                g0,
                                rows0,
                                id,
                                ex,
                                error@,
                                spec_failure_result(config, task),
                                other,
                            );
                        },
                    }
                }
                assert forall|a: int, b: int|
                    0 <= a < self@.len() && 0 <= b < self@.len() && a != b
                        && #[trigger] self@[a] is Running
                        && #[trigger] self@[b] is Running implies self@[a]->Running_0
                    != self@[b]->Running_0 by {
                    assert(before[a] is Running && before[b] is Running);
                }
            }
        }
        woken
    }

    /// The parked worker `worker` woke up without being woken: it is idle
    /// and asks again.
    pub fn wake(&mut self, worker: usize)
        requires
            worker < old(self)@.len(),
            old(self)@[worker as int] is Parked,
        ensures
            final(self)@ == old(self)@.update(worker as int, Worker::Idle),
    {
        self.workers.set(worker, Worker::Idle);
    }
}

} // verus!
