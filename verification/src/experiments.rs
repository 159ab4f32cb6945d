use vstd::prelude::*;
use crate::config::Config;
use crate::crates::Crate;
use crate::db::{count_for, count_for_crate, ResultStore, ResultView};
use crate::errors::Error;
use crate::ex::{clone_crates, crate_ids, ExCapLints, ExMode, Experiment, ExperimentView};
use crate::status::Status;
use crate::store_lemmas::{lemma_handing_keeps_assignments, lemma_handing_keeps_one_per_agent};
use crate::time::{utc_now, Timestamp};
use crate::toolchain::Toolchain;
use crate::util::{clone_opt_string, opt_view};

verus! {

/// The issue on GitHub that an experiment was asked for in.
#[derive(Debug)]
pub struct GitHubIssue {
    pub api_url: String,
    pub html_url: String,
    pub number: i32,
}

/// A linked issue as a mathematical value.
pub struct GitHubIssueView {
    pub api_url: Seq<char>,
    pub html_url: Seq<char>,
    pub number: i32,
}

impl View for GitHubIssue {
    type V = GitHubIssueView;

    open spec fn view(&self) -> GitHubIssueView {
        GitHubIssueView { api_url: self.api_url@, html_url: self.html_url@, number: self.number }
    }
}

impl Clone for GitHubIssue {
    fn clone(&self) -> (copy: Self)
        ensures
            copy == *self,
    {
        GitHubIssue {
            api_url: self.api_url.clone(),
            html_url: self.html_url.clone(),
            number: self.number,
        }
    }
}

/// The view of an optional linked issue.
pub open spec fn issue_view(issue: Option<GitHubIssue>) -> Option<GitHubIssueView> {
    match issue {
        Some(issue) => Some(issue@),
        None => None,
    }
}

/// What the server keeps of an experiment besides its definition.
#[derive(Debug)]
pub struct ServerData {
    /// Experiments of a higher priority are handed out first.
    pub priority: i32,
    pub created_at: Timestamp,
    pub started_at: Option<Timestamp>,
    pub completed_at: Option<Timestamp>,
    pub github_issue: Option<GitHubIssue>,
    pub status: Status,
    /// The agent that works on the experiment.
    pub assigned_to: Option<String>,
    pub report_url: Option<String>,
}

/// The server's data of an experiment as a mathematical value.
pub struct ServerDataView {
    pub priority: i32,
    pub created_at: Timestamp,
    pub started_at: Option<Timestamp>,
    pub completed_at: Option<Timestamp>,
    pub github_issue: Option<GitHubIssueView>,
    pub status: Status,
    pub assigned_to: Option<Seq<char>>,
    pub report_url: Option<Seq<char>>,
}

impl View for ServerData {
    type V = ServerDataView;

    open spec fn view(&self) -> ServerDataView {
        ServerDataView {
            priority: self.priority,
            created_at: self.created_at,
            started_at: self.started_at,
            completed_at: self.completed_at,
            github_issue: issue_view(self.github_issue),
            status: self.status,
            assigned_to: opt_view(self.assigned_to),
            report_url: opt_view(self.report_url),
        }
    }
}

impl Clone for ServerData {
    fn clone(&self) -> (copy: Self)
        ensures
            copy == *self,
    {
        ServerData {
            priority: self.priority,
            created_at: self.created_at,
            started_at: self.started_at,
            completed_at: self.completed_at,
            github_issue: match &self.github_issue {
                Some(issue) => Some(issue.clone()),
                None => None,
            },
            status: self.status,
            assigned_to: clone_opt_string(&self.assigned_to),
            report_url: clone_opt_string(&self.report_url),
        }
    }
}

impl ServerDataView {
    /// The data after the status was set to `status` at the time `now`, by
    /// someone who saw the data as `seen`. Entering `Running` stamps the
    /// start where none was seen; leaving `Running` stamps the completion
    /// where none was seen.
    pub open spec fn with_status(self, seen: ServerDataView, status: Status, now: Timestamp) -> ServerDataView {
        ServerDataView {
            status: status,
            started_at: if seen.starts(status) {
                Some(now)
            } else {
                self.started_at
            },
            completed_at: if seen.completes(status) {
                Some(now)
            } else {
                self.completed_at
            },
            ..self
        }
    }

    /// Setting the status to `status` stamps the start.
    pub open spec fn starts(self, status: Status) -> bool {
        status == Status::Running && self.started_at is None
    }

    /// Setting the status to `status` stamps the completion.
    pub open spec fn completes(self, status: Status) -> bool {
        self.status == Status::Running && status != Status::Running && self.completed_at is None
    }

    /// An agent is assigned exactly while the experiment is running.
    pub open spec fn assignment_consistent(self) -> bool {
        self.assigned_to is Some <==> self.status == Status::Running
    }

    /// A running experiment has started; a completed one has started, not
    /// after its completion.
    pub open spec fn times_consistent(self) -> bool {
        &&& self.status == Status::Running ==> self.started_at is Some
        &&& self.completed_at is Some ==> self.started_at is Some && self.started_at->0.spec_le(
            self.completed_at->0,
        )
    }
}

/// An experiment with what the server keeps of it.
#[derive(Debug)]
pub struct ExperimentData {
    pub server_data: ServerData,
    pub experiment: Experiment,
}

/// An experiment with the server's data as a mathematical value.
pub struct ExperimentDataView {
    pub server_data: ServerDataView,
    pub experiment: ExperimentView,
}

impl View for ExperimentData {
    type V = ExperimentDataView;

    open spec fn view(&self) -> ExperimentDataView {
        ExperimentDataView { server_data: self.server_data@, experiment: self.experiment@ }
    }
}

impl Clone for ExperimentData {
    fn clone(&self) -> (copy: Self)
        ensures
            copy@ == self@,
    {
        ExperimentData { server_data: self.server_data.clone(), experiment: self.experiment.clone() }
    }
}

impl ExperimentDataView {
    /// The data after the status was set, as `ServerDataView::with_status` says.
    pub open spec fn with_status(self, seen: ExperimentDataView, status: Status, now: Timestamp) -> ExperimentDataView {
        ExperimentDataView {
            server_data: self.server_data.with_status(seen.server_data, status, now),
            ..self
        }
    }

    /// The data after the experiment was handed to `agent` at the time
    /// `now`: it is running, and assigned to the agent.
    pub open spec fn handed_to(self, agent: Seq<char>, now: Timestamp) -> ExperimentDataView {
        self.with_status(self, Status::Running, now).with_assigned_to(Some(agent))
    }

    pub open spec fn with_assigned_to(self, agent: Option<Seq<char>>) -> ExperimentDataView {
        ExperimentDataView {
            server_data: ServerDataView { assigned_to: agent, ..self.server_data },
            ..self
        }
    }

    pub open spec fn with_priority(self, priority: i32) -> ExperimentDataView {
        ExperimentDataView {
            server_data: ServerDataView { priority: priority, ..self.server_data },
            ..self
        }
    }

    pub open spec fn with_report_url(self, url: Seq<char>) -> ExperimentDataView {
        ExperimentDataView {
            server_data: ServerDataView { report_url: Some(url), ..self.server_data },
            ..self
        }
    }

    pub open spec fn with_mode(self, mode: ExMode) -> ExperimentDataView {
        ExperimentDataView { experiment: ExperimentView { mode: mode, ..self.experiment }, ..self }
    }

    pub open spec fn with_cap_lints(self, cap_lints: ExCapLints) -> ExperimentDataView {
        ExperimentDataView {
            experiment: ExperimentView { cap_lints: cap_lints, ..self.experiment },
            ..self
        }
    }

    pub open spec fn with_start(self, start: Seq<char>) -> ExperimentDataView {
        ExperimentDataView { experiment: ExperimentView { start: start, ..self.experiment }, ..self }
    }

    pub open spec fn with_end(self, end: Seq<char>) -> ExperimentDataView {
        ExperimentDataView { experiment: ExperimentView { end: end, ..self.experiment }, ..self }
    }

    pub open spec fn with_crates(self, crates: Seq<Seq<char>>) -> ExperimentDataView {
        ExperimentDataView { experiment: ExperimentView { crates: crates, ..self.experiment }, ..self }
    }
}

/// One stored experiment: its data, and for each of its packages whether
/// the configuration left it out when the packages were set.
struct Entry {
    data: ExperimentData,
    skipped: Vec<bool>,
}

/// A stored experiment as a mathematical value.
pub struct EntryView {
    pub data: ExperimentDataView,
    /// For each package of the experiment, in order, whether it is skipped.
    pub skipped: Seq<bool>,
}

impl View for Entry {
    type V = EntryView;

    closed spec fn view(&self) -> EntryView {
        EntryView { data: self.data@, skipped: self.skipped@ }
    }
}

impl EntryView {
    pub open spec fn name(self) -> Seq<char> {
        self.data.experiment.name
    }
}

/// The views of a list of stored experiments, in order.
spec fn entry_views(rows: Seq<Entry>) -> Seq<EntryView> {
    Seq::new(rows.len(), |i: int| rows[i]@)
}

/// How many of the flags are `false`.
pub open spec fn count_kept(skipped: Seq<bool>) -> nat
    decreases skipped.len(),
{
    if skipped.len() == 0 {
        0
    } else {
        count_kept(skipped.drop_last()) + if skipped.last() {
            0nat
        } else {
            1nat
        }
    }
}

/// For each of the packages, in order, whether the configuration leaves it out.
pub open spec fn skip_flags(crates: Seq<Crate>, config: &Config) -> Seq<bool> {
    Seq::new(crates.len(), |i: int| config.flags(crates[i]@).skip)
}

/// The store as a mathematical value: the experiments in the order in
/// which they were created, and the recorded outcomes.
#[verifier::ext_equal]
pub struct DatabaseView {
    pub experiments: Seq<EntryView>,
    pub results: Seq<ResultView>,
}

impl DatabaseView {
    /// No two experiments share a name, each experiment has one flag for
    /// each of its packages, and no two outcomes share a key.
    pub open spec fn wf(self) -> bool {
        &&& forall|i: int, j: int|
            0 <= i < self.experiments.len() && 0 <= j < self.experiments.len() && i != j ==> (
            #[trigger] self.experiments[i]).name() != (#[trigger] self.experiments[j]).name()
        &&& forall|i: int|
            0 <= i < self.experiments.len() ==> (#[trigger] self.experiments[i]).skipped.len()
                == self.experiments[i].data.experiment.crates.len()
        &&& crate::db::distinct_keys(self.results)
    }

    /// An experiment of the name `name` is stored.
    pub open spec fn has(self, name: Seq<char>) -> bool {
        exists|i: int| 0 <= i < self.experiments.len() && (#[trigger] self.experiments[i]).name() == name
    }

    /// The row of the experiment `name`, where it is stored.
    pub open spec fn index_of(self, name: Seq<char>) -> int {
        choose|i: int| 0 <= i < self.experiments.len() && (#[trigger] self.experiments[i]).name() == name
    }

    /// The store after the data of the experiment `name` changed as
    /// `change` says. Nothing changes where no such experiment is stored.
    pub open spec fn altered(
        self,
        name: Seq<char>,
        change: spec_fn(ExperimentDataView) -> ExperimentDataView,
    ) -> DatabaseView {
        DatabaseView {
            experiments: Seq::new(
                self.experiments.len(),
                |i: int|
                    if self.experiments[i].name() == name {
                        EntryView { data: change(self.experiments[i].data), ..self.experiments[i] }
                    } else {
                        self.experiments[i]
                    },
            ),
            ..self
        }
    }

    /// The store after the experiment `name` got the packages `crates`,
    /// with `skipped` saying which of them are left out.
    pub open spec fn with_crates(self, name: Seq<char>, crates: Seq<Seq<char>>, skipped: Seq<bool>) -> DatabaseView {
        DatabaseView {
            experiments: Seq::new(
                self.experiments.len(),
                |i: int|
                    if self.experiments[i].name() == name {
                        EntryView {
                            data: ExperimentDataView {
                                experiment: ExperimentView {
                                    crates: crates,
                                    ..self.experiments[i].data.experiment
                                },
                                ..self.experiments[i].data
                            },
                            skipped: skipped,
                        }
                    } else {
                        self.experiments[i]
                    },
            ),
            ..self
        }
    }

    /// The store without the experiment `name`, its packages and its
    /// outcomes.
    pub open spec fn without(self, name: Seq<char>) -> DatabaseView {
        DatabaseView {
            experiments: if self.has(name) {
                self.experiments.remove(self.index_of(name))
            } else {
                self.experiments
            },
            results: crate::db::without_experiment(self.results, name),
        }
    }

    /// Twice the number of packages of the experiment `name` that are not
    /// skipped: the number of outcomes that a full run records. It is 0
    /// where no such experiment is stored.
    pub open spec fn total(self, name: Seq<char>) -> nat {
        if self.has(name) {
            2 * count_kept(self.experiments[self.index_of(name)].skipped)
        } else {
            0
        }
    }

    /// How many outcomes are recorded for the experiment `name`.
    pub open spec fn done(self, name: Seq<char>) -> nat {
        count_for(self.results, name)
    }

    /// The store with one more experiment, after those that it holds.
    pub open spec fn with_new(self, data: ExperimentDataView, skipped: Seq<bool>) -> DatabaseView {
        DatabaseView {
            experiments: self.experiments.push(EntryView { data: data, skipped: skipped }),
            ..self
        }
    }

    /// The experiment in row `i` has the status `status`.
    pub open spec fn has_status(self, i: int, status: Status) -> bool {
        0 <= i < self.experiments.len() && self.experiments[i].data.server_data.status == status
    }

    /// Row `b` holds the experiment that is handed out first among those of
    /// the status `status`.
    pub open spec fn is_first_with_status(self, b: int, status: Status) -> bool {
        &&& self.has_status(b, status)
        &&& forall|j: int|
            #![trigger self.has_status(j, status)]
            self.has_status(j, status) && j != b ==> comes_before(
                self.experiments[b].data.server_data,
                b,
                self.experiments[j].data.server_data,
                j,
            )
    }

    /// Row `i` is the first row that holds an experiment running for `agent`.
    pub open spec fn is_first_running_for(self, i: int, agent: Seq<char>) -> bool {
        &&& self.runs_for(i, agent)
        &&& forall|j: int| 0 <= j < i ==> !#[trigger] self.runs_for(j, agent)
    }

    /// The rows `order` are all the rows of the store, each once, in the
    /// order in which the experiments are handed out.
    pub open spec fn is_handing_order(self, order: Seq<int>) -> bool {
        &&& order.len() == self.experiments.len()
        &&& forall|a: int| 0 <= a < order.len() ==> 0 <= #[trigger] order[a] < self.experiments.len()
        &&& forall|a: int, b: int|
            0 <= a < b < order.len() ==> comes_before(
                self.experiments[#[trigger] order[a]].data.server_data,
                order[a],
                self.experiments[#[trigger] order[b]].data.server_data,
                order[b],
            )
    }

    /// In every experiment an agent is assigned exactly while it is running.
    pub open spec fn assignments_consistent(self) -> bool {
        forall|i: int|
            0 <= i < self.experiments.len() ==> (
            #[trigger] self.experiments[i]).data.server_data.assignment_consistent()
    }

    /// The experiment in row `i` is running for `agent`.
    pub open spec fn runs_for(self, i: int, agent: Seq<char>) -> bool {
        &&& 0 <= i < self.experiments.len()
        &&& self.experiments[i].data.server_data.status == Status::Running
        &&& self.experiments[i].data.server_data.assigned_to == Some(agent)
    }

    /// No agent runs two experiments.
    pub open spec fn one_running_per_agent(self) -> bool {
        forall|i: int, j: int, agent: Seq<char>|
            #![trigger self.runs_for(i, agent), self.runs_for(j, agent)]
            self.runs_for(i, agent) && self.runs_for(j, agent) ==> i == j
    }
}

/// The packages of `crates` with fewer than two outcomes recorded in `rows`
/// for the experiment `name`, in order.
pub open spec fn unfinished(crates: Seq<Crate>, rows: Seq<ResultView>, name: Seq<char>) -> Seq<Crate>
    decreases crates.len(),
{
    if crates.len() == 0 {
        Seq::empty()
    } else if count_for_crate(rows, name, crates.last()@) < 2 {
        unfinished(crates.drop_last(), rows, name).push(crates.last())
    } else {
        unfinished(crates.drop_last(), rows, name)
    }
}

/// The share of `done` in `total`, in percent, rounded up; 0 where `total`
/// is 0.
pub open spec fn percent(done: nat, total: nat) -> nat {
    if total == 0 {
        0
    } else {
        ((done * 100 + total - 1) / (total as int)) as nat
    }
}

/// `n`, or the largest `u64` where `n` is larger.
pub open spec fn capped(n: nat) -> u64 {
    if n <= u64::MAX {
        n as u64
    } else {
        u64::MAX
    }
}

/// The order in which experiments are handed out: the higher priority
/// first, then the earlier creation, then the earlier row.
pub open spec fn comes_before(a: ServerDataView, i: int, b: ServerDataView, j: int) -> bool {
    a.priority > b.priority || (a.priority == b.priority && (a.created_at.spec_lt(b.created_at) || (
    a.created_at == b.created_at && i < j)))
}

/// In a well-formed store the experiment in row `i` is the only one of its
/// name.
pub proof fn lemma_only_row(db: DatabaseView, i: int)
    requires
        db.wf(),
        0 <= i < db.experiments.len(),
    ensures
        forall|j: int|
            0 <= j < db.experiments.len() && j != i ==> (#[trigger] db.experiments[j]).name()
                != db.experiments[i].name(),
{
    assert forall|j: int| 0 <= j < db.experiments.len() && j != i implies (
    #[trigger] db.experiments[j]).name() != db.experiments[i].name() by {
        assert(db.experiments[j].name() != db.experiments[i].name());
    }
}

/// The store of experiments and of their recorded outcomes.
pub struct Database {
    experiments: Vec<Entry>,
    results: ResultStore,
}

impl View for Database {
    type V = DatabaseView;

    closed spec fn view(&self) -> DatabaseView {
        DatabaseView { experiments: entry_views(self.experiments@), results: self.results@ }
    }
}

impl Database {
    /// The store is well formed.
    pub open spec fn wf(&self) -> bool {
        self@.wf()
    }

    /// A store without experiments and without outcomes.
    pub fn new() -> (db: Database)
        ensures
            db.wf(),
            db@.experiments.len() == 0,
            db@.results.len() == 0,
    {
        Database { experiments: Vec::new(), results: ResultStore::new() }
    }

    /// The recorded outcomes.
    pub fn results(&self) -> (results: &ResultStore)
        ensures
            results@ == self@.results,
    {
        &self.results
    }

    /// Takes the recorded outcomes out of the store, which then holds
    /// none, so that a run can record into them.
    pub fn take_results(&mut self) -> (results: ResultStore)
        requires
            old(self).wf(),
        ensures
            final(self).wf(),
            results.wf(),
            results@ == old(self)@.results,
            final(self)@.experiments == old(self)@.experiments,
            final(self)@.results.len() == 0,
    {
        let mut results = ResultStore::new();
        std::mem::swap(&mut self.results, &mut results);
        results
    }

    /// Puts recorded outcomes in the place of those that the store holds.
    pub fn set_results(&mut self, results: ResultStore)
        requires
            old(self).wf(),
            results.wf(),
        ensures
            final(self).wf(),
            final(self)@.experiments == old(self)@.experiments,
            final(self)@.results == results@,
    {
        self.results = results;
    }

    /// How many experiments are stored.
    pub fn len(&self) -> (n: usize)
        ensures
            n == self@.experiments.len(),
    {
        self.experiments.len()
    }

    /// The experiment in row `i`.
    pub fn experiment(&self, i: usize) -> (data: &ExperimentData)
        requires
            i < self@.experiments.len(),
        ensures
            data@ == self@.experiments[i as int].data,
    {
        &self.experiments[i].data
    }

    /// For each package of the experiment in row `i`, whether it is skipped.
    pub fn skipped(&self, i: usize) -> (flags: &Vec<bool>)
        requires
            i < self@.experiments.len(),
        ensures
            flags@ == self@.experiments[i as int].skipped,
    {
        &self.experiments[i].skipped
    }

    /// Records an outcome, as `ResultStore::record_result` does. The
    /// experiments stay as they are.
    pub fn record_result(
        &mut self,
        ex: &Experiment,
        krate: &Crate,
        tc: &Toolchain,
        result: crate::results::TestResult,
        log: &str,
    )
        requires
            old(self).wf(),
        ensures
            final(self).wf(),
            final(self)@.experiments == old(self)@.experiments,
            final(self)@.results == crate::db::recorded(
                old(self)@.results,
                ResultView {
                    experiment: ex.name@,
                    krate: krate@,
                    toolchain: tc@,
                    result: result,
                    log: log@,
                },
            ),
    {
        self.results.record_result(ex, krate, tc, result, log);
    }

    /// The row of the experiment `name`, where it is stored.
    fn find(&self, name: &String) -> (found: Option<usize>)
        requires
            self.wf(),
        ensures
            match found {
                Some(i) => self@.has(name@) && i == self@.index_of(name@) && i
                    < self.experiments@.len(),
                None => !self@.has(name@),
            },
    {
        let mut i: usize = 0;
        while i < self.experiments.len()
            invariant
                i <= self.experiments.len(),
                self.wf(),
                forall|j: int| 0 <= j < i ==> (#[trigger] self@.experiments[j]).name() != name@,
            decreases self.experiments.len() - i,
        {
            if self.experiments[i].data.experiment.name == *name {
                proof {
                    assert(self@.experiments[i as int].name() == name@);
                    let c = self@.index_of(name@);
                    assert(self@.experiments[c].name() == self@.experiments[i as int].name());
                }
                return Some(i);
            }
            i += 1;
        }
        None
    }
}

impl ExperimentData {
    /// Whether an experiment of the name `name` is stored.
    pub fn exists_in(db: &Database, name: &str) -> (found: bool)
        requires
            db.wf(),
        ensures
            found == db@.has(name@),
    {
        db.find(&name.to_owned()).is_some()
    }

    /// Sets the status at the time that the system clock shows, as
    /// `set_status_at` does.
    pub fn set_status(&mut self, db: &mut Database, status: Status)
        requires
            old(db).wf(),
        ensures
            final(db).wf(),
            exists|now: Timestamp|
                final(self)@ == #[trigger] old(self)@.with_status(old(self)@, status, now)
                    && final(db)@ == old(db)@.altered(
                    old(self)@.experiment.name,
                    |d: ExperimentDataView| d.with_status(old(self)@, status, now),
                ),
    {
        let now = utc_now();
        self.set_status_at(db, status, now);
    }

    /// Sets the status at the time `now`, in the store and in `self`. The
    /// start is stamped when the experiment enters `Running` without one;
    /// the completion is stamped when it leaves `Running` without one; both
    /// as `self` showed them before the call.
    pub fn set_status_at(&mut self, db: &mut Database, status: Status, now: Timestamp)
        requires
            old(db).wf(),
        ensures
            final(db).wf(),
            final(self)@ == old(self)@.with_status(old(self)@, status, now),
            final(db)@ == old(db)@.altered(
                old(self)@.experiment.name,
                |d: ExperimentDataView| d.with_status(old(self)@, status, now),
            ),
    {
        let ghost before = db@;
        let ghost name = self@.experiment.name;
        let ghost seen = self@;
        // Entering "running" without a starting date, or leaving it without
        // a completion date.
        let starts = status == Status::Running && self.server_data.started_at.is_none();
        let completes = self.server_data.status == Status::Running && status != Status::Running
            && self.server_data.completed_at.is_none();
        match db.find(&self.experiment.name) {
            Some(i) => {
                db.experiments[i].data.server_data.status = status;
                if starts {
                    db.experiments[i].data.server_data.started_at = Some(now);
                }
                if completes {
                    db.experiments[i].data.server_data.completed_at = Some(now);
                }
                proof {
                    lemma_only_row(before, i as int);
                }
            },
            None => {},
        }
        if starts {
            self.server_data.started_at = Some(now);
        }
        if completes {
            self.server_data.completed_at = Some(now);
        }
        self.server_data.status = status;
        proof {
            assert(db@.experiments =~= before.altered(
                name,
                |d: ExperimentDataView| d.with_status(seen, status, now),
            ).experiments);
        }
    }

    /// Sets the agent that works on the experiment, in the store and in `self`.
    pub fn set_assigned_to(&mut self, db: &mut Database, assigned_to: Option<String>)
        requires
            old(db).wf(),
        ensures
            final(db).wf(),
            final(self)@ == old(self)@.with_assigned_to(opt_view(assigned_to)),
            final(db)@ == old(db)@.altered(
                old(self)@.experiment.name,
                |d: ExperimentDataView| d.with_assigned_to(opt_view(assigned_to)),
            ),
    {
        let ghost before = db@;
        let ghost name = self@.experiment.name;
        match db.find(&self.experiment.name) {
            Some(i) => {
                db.experiments[i].data.server_data.assigned_to = clone_opt_string(&assigned_to);
                proof {
                    lemma_only_row(before, i as int);
                }
            },
            None => {},
        }
        self.server_data.assigned_to = assigned_to;
        proof {
            assert(db@.experiments =~= before.altered(
                name,
                |d: ExperimentDataView| d.with_assigned_to(opt_view(assigned_to)),
            ).experiments);
        }
    }

    /// Sets the mode, in the store and in `self`.
    pub fn set_mode(&mut self, db: &mut Database, mode: ExMode)
        requires
            old(db).wf(),
        ensures
            final(db).wf(),
            final(self)@ == old(self)@.with_mode(mode),
            final(db)@ == old(db)@.altered(
                old(self)@.experiment.name,
                |d: ExperimentDataView| d.with_mode(mode),
            ),
    {
        let ghost before = db@;
        let ghost name = self@.experiment.name;
        match db.find(&self.experiment.name) {
            Some(i) => {
                db.experiments[i].data.experiment.mode = mode;
                proof {
                    lemma_only_row(before, i as int);
                }
            },
            None => {},
        }
        self.experiment.mode = mode;
        proof {
            assert(db@.experiments =~= before.altered(
                name,
                |d: ExperimentDataView| d.with_mode(mode),
            ).experiments);
        }
    }

    /// Sets the lint cap, in the store and in `self`.
    pub fn set_cap_lints(&mut self, db: &mut Database, cap_lints: ExCapLints)
        requires
            old(db).wf(),
        ensures
            final(db).wf(),
            final(self)@ == old(self)@.with_cap_lints(cap_lints),
            final(db)@ == old(db)@.altered(
                old(self)@.experiment.name,
                |d: ExperimentDataView| d.with_cap_lints(cap_lints),
            ),
    {
        let ghost before = db@;
        let ghost name = self@.experiment.name;
        match db.find(&self.experiment.name) {
            Some(i) => {
                db.experiments[i].data.experiment.cap_lints = cap_lints;
                proof {
                    lemma_only_row(before, i as int);
                }
            },
            None => {},
        }
        self.experiment.cap_lints = cap_lints;
        proof {
            assert(db@.experiments =~= before.altered(
                name,
                |d: ExperimentDataView| d.with_cap_lints(cap_lints),
            ).experiments);
        }
    }

    /// Sets the priority, in the store and in `self`.
    pub fn set_priority(&mut self, db: &mut Database, priority: i32)
        requires
            old(db).wf(),
        ensures
            final(db).wf(),
            final(self)@ == old(self)@.with_priority(priority),
            final(db)@ == old(db)@.altered(
                old(self)@.experiment.name,
                |d: ExperimentDataView| d.with_priority(priority),
            ),
    {
        let ghost before = db@;
        let ghost name = self@.experiment.name;
        match db.find(&self.experiment.name) {
            Some(i) => {
                db.experiments[i].data.server_data.priority = priority;
                proof {
                    lemma_only_row(before, i as int);
                }
            },
            None => {},
        }
        self.server_data.priority = priority;
        proof {
            assert(db@.experiments =~= before.altered(
                name,
                |d: ExperimentDataView| d.with_priority(priority),
            ).experiments);
        }
    }

    /// Sets the address of the report, in the store and in `self`.
    pub fn set_report_url(&mut self, db: &mut Database, url: &str)
        requires
            old(db).wf(),
        ensures
            final(db).wf(),
            final(self)@ == old(self)@.with_report_url(url@),
            final(db)@ == old(db)@.altered(
                old(self)@.experiment.name,
                |d: ExperimentDataView| d.with_report_url(url@),
            ),
    {
        let ghost before = db@;
        let ghost name = self@.experiment.name;
        match db.find(&self.experiment.name) {
            Some(i) => {
                db.experiments[i].data.server_data.report_url = Some(url.to_owned());
                proof {
                    lemma_only_row(before, i as int);
                }
            },
            None => {},
        }
        self.server_data.report_url = Some(url.to_owned());
        proof {
            assert(db@.experiments =~= before.altered(
                name,
                |d: ExperimentDataView| d.with_report_url(url@),
            ).experiments);
        }
    }
    /// Sets the packages of the experiment, in the store and in `self`. For
    /// each package the store remembers whether `config` leaves it out.
    pub fn set_crates(&mut self, db: &mut Database, config: &Config, crates: Vec<Crate>)
        requires
            old(db).wf(),
        ensures
            final(db).wf(),
            final(self)@ == old(self)@.with_crates(crate_ids(crates@)),
            final(self).experiment.crates@ == crates@,
            final(db)@ == old(db)@.with_crates(
                old(self)@.experiment.name,
                crate_ids(crates@),
                skip_flags(crates@, config),
            ),
    {
        let ghost before = db@;
        let ghost name = self@.experiment.name;
        match db.find(&self.experiment.name) {
            Some(i) => {
                let mut skipped: Vec<bool> = Vec::new();
                let mut k: usize = 0;
                while k < crates.len()
                    invariant
                        k <= crates.len(),
                        skipped@ == skip_flags(crates@, config).take(k as int),
                    decreases crates.len() - k,
                {
                    skipped.push(config.should_skip(&crates[k]));
                    assert(skipped@ =~= skip_flags(crates@, config).take(k + 1));
                    k += 1;
                }
                assert(skipped@ =~= skip_flags(crates@, config));
                db.experiments[i].data.experiment.crates = clone_crates(&crates);
                db.experiments[i].skipped = skipped;
                proof {
                    lemma_only_row(before, i as int);
                }
            },
            None => {},
        }
        self.experiment.crates = crates;
        proof {
            assert(db@.experiments =~= before.with_crates(
                name,
                crate_ids(crates@),
                skip_flags(crates@, config),
            ).experiments);
        }
    }

    /// Sets the start toolchain, in the store and in `self`, unless it is
    /// the end toolchain of `self`: then nothing changes.
    pub fn set_start_toolchain(&mut self, db: &mut Database, start: Toolchain) -> (set: Result<
        (),
        Error,
    >)
        requires
            old(db).wf(),
        ensures
            final(db).wf(),
            match set {
                Ok(_) => {
                    &&& start@ != old(self)@.experiment.end
                    &&& final(self)@ == old(self)@.with_start(start@)
                    &&& final(db)@ == old(db)@.altered(
                        old(self)@.experiment.name,
                        |d: ExperimentDataView| d.with_start(start@),
                    )
                },
                Err(e) => {
                    &&& e == Error::SameToolchains
                    &&& start@ == old(self)@.experiment.end
                    &&& final(self)@ == old(self)@
                    &&& final(db)@ == old(db)@
                },
            },
    {
        if start == self.experiment.toolchains[1] {
            return Err(Error::SameToolchains);
        }
        let ghost before = db@;
        let ghost name = self@.experiment.name;
        match db.find(&self.experiment.name) {
            Some(i) => {
                db.experiments[i].data.experiment.toolchains[0] = start.clone();
                proof {
                    lemma_only_row(before, i as int);
                }
            },
            None => {},
        }
        self.experiment.toolchains[0] = start;
        proof {
            assert(db@.experiments =~= before.altered(
                name,
                |d: ExperimentDataView| d.with_start(start@),
            ).experiments);
        }
        Ok(())
    }

    /// Sets the end toolchain, in the store and in `self`, unless it is the
    /// start toolchain of `self`: then nothing changes.
    pub fn set_end_toolchain(&mut self, db: &mut Database, end: Toolchain) -> (set: Result<
        (),
        Error,
    >)
        requires
            old(db).wf(),
        ensures
            final(db).wf(),
            match set {
                Ok(_) => {
                    &&& end@ != old(self)@.experiment.start
                    &&& final(self)@ == old(self)@.with_end(end@)
                    &&& final(db)@ == old(db)@.altered(
                        old(self)@.experiment.name,
                        |d: ExperimentDataView| d.with_end(end@),
                    )
                },
                Err(e) => {
                    &&& e == Error::SameToolchains
                    &&& end@ == old(self)@.experiment.start
                    &&& final(self)@ == old(self)@
                    &&& final(db)@ == old(db)@
                },
            },
    {
        if end == self.experiment.toolchains[0] {
            return Err(Error::SameToolchains);
        }
        let ghost before = db@;
        let ghost name = self@.experiment.name;
        match db.find(&self.experiment.name) {
            Some(i) => {
                db.experiments[i].data.experiment.toolchains[1] = end.clone();
                proof {
                    lemma_only_row(before, i as int);
                }
            },
            None => {},
        }
        self.experiment.toolchains[1] = end;
        proof {
            assert(db@.experiments =~= before.altered(
                name,
                |d: ExperimentDataView| d.with_end(end@),
            ).experiments);
        }
        Ok(())
    }

    /// How far the experiment is: the number of outcomes recorded for it,
    /// and the number that a full run records, twice the number of its
    /// packages that are not skipped. Each number is capped at the largest
    /// `u64`.
    pub fn raw_progress(&self, db: &Database) -> (progress: (u64, u64))
        requires
            db.wf(),
        ensures
            progress.0 == capped(db@.done(self@.experiment.name)),
            progress.1 == capped(db@.total(self@.experiment.name)),
    {
        let done = db.results.count(&self.experiment.name) as u64;
        let total: u64 = match db.find(&self.experiment.name) {
            Some(i) => {
                let skipped = &db.experiments[i].skipped;
                let mut kept: u64 = 0;
                let mut k: usize = 0;
                while k < skipped.len()
                    invariant
                        k <= skipped.len(),
                        kept <= k,
                        kept == count_kept(skipped@.take(k as int)),
                    decreases skipped.len() - k,
                {
                    assert(skipped@.take(k + 1).drop_last() =~= skipped@.take(k as int));
                    if !skipped[k] {
                        kept += 1;
                    }
                    k += 1;
                }
                assert(skipped@.take(skipped@.len() as int) =~= skipped@);
                if kept > u64::MAX / 2 {
                    u64::MAX
                } else {
                    2 * kept
                }
            },
            None => 0,
        };
        (done, total)
    }

    /// How far the experiment is, in percent: the share of the recorded
    /// outcomes in those of a full run, rounded up, and 255 where that is
    /// more; 0 while no outcome can be recorded.
    pub fn progress(&self, db: &Database) -> (share: u8)
        requires
            db.wf(),
        ensures
            share == if percent(
                capped(db@.done(self@.experiment.name)) as nat,
                capped(db@.total(self@.experiment.name)) as nat,
            ) > 255 {
                255u8
            } else {
                percent(
                    capped(db@.done(self@.experiment.name)) as nat,
                    capped(db@.total(self@.experiment.name)) as nat,
                ) as u8
            },
    {
        let (results_len, crates_len) = self.raw_progress(db);
        if crates_len != 0 {
            let done: u128 = results_len as u128;
            let total: u128 = crates_len as u128;
            let share: u128 = (done * 100 + total - 1) / total;
            if share > 255 {
                255
            } else {
                share as u8
            }
        } else {
            0
        }
    }

    /// Drops from `self`, not from the store, the packages that have two
    /// outcomes recorded; the others stay, in order.
    pub fn remove_completed_crates(&mut self, db: &Database)
        ensures
            final(self).experiment.crates@ == unfinished(
                old(self).experiment.crates@,
                db@.results,
                old(self)@.experiment.name,
            ),
            final(self)@ == old(self)@.with_crates(crate_ids(final(self).experiment.crates@)),
    {
        let mut new_crates: Vec<Crate> = Vec::new();
        let mut i: usize = 0;
        let ghost crates = self.experiment.crates@;
        let ghost name = self@.experiment.name;
        while i < self.experiment.crates.len()
            invariant
                i <= self.experiment.crates.len(),
                *self == *old(self),
                crates == self.experiment.crates@,
                name == self.experiment.name@,
                new_crates@ == unfinished(crates.take(i as int), db@.results, name),
            decreases self.experiment.crates.len() - i,
        {
            assert(crates.take(i + 1).drop_last() =~= crates.take(i as int));
            let results_len = db.results.count_crate(
                &self.experiment.name,
                &self.experiment.crates[i],
            );
            if results_len < 2 {
                new_crates.push(self.experiment.crates[i].clone());
            }
            i += 1;
        }
        assert(crates.take(crates.len() as int) =~= crates);
        self.experiment.crates = new_crates;
    }
}

/// The experiments of the server.
pub struct Experiments {
    db: Database,
}

impl View for Experiments {
    type V = DatabaseView;

    closed spec fn view(&self) -> DatabaseView {
        self.db@
    }
}

impl Experiments {
    /// The store behind is well formed.
    pub open spec fn wf(&self) -> bool {
        self@.wf()
    }

    pub fn new(db: Database) -> (experiments: Experiments)
        ensures
            experiments@ == db@,
    {
        Experiments { db }
    }

    /// The store behind.
    pub fn db(&self) -> (db: &Database)
        ensures
            db@ == self@,
    {
        &self.db
    }

    /// Gives the store behind back.
    pub fn into_db(self) -> (db: Database)
        ensures
            db@ == self@,
    {
        self.db
    }

    /// Stores a new experiment after those that are stored, unless one of
    /// its name is stored already. For each package the store remembers
    /// whether `config` leaves it out.
    pub fn create(&mut self, data: ExperimentData, config: &Config) -> (created: Result<(), Error>)
        requires
            old(self).wf(),
        ensures
            final(self).wf(),
            match created {
                Ok(_) => !old(self)@.has(data@.experiment.name) && final(self)@ == old(self)@.with_new(
                    data@,
                    skip_flags(data.experiment.crates@, config),
                ),
                Err(e) => e == Error::DuplicateExperiment && old(self)@.has(data@.experiment.name)
                    && final(self)@ == old(self)@,
            },
    {
        if self.db.find(&data.experiment.name).is_some() {
            return Err(Error::DuplicateExperiment);
        }
        let ghost before = self@;
        let mut skipped: Vec<bool> = Vec::new();
        let mut k: usize = 0;
        while k < data.experiment.crates.len()
            invariant
                k <= data.experiment.crates.len(),
                skipped@ == skip_flags(data.experiment.crates@, config).take(k as int),
            decreases data.experiment.crates.len() - k,
        {
            skipped.push(config.should_skip(&data.experiment.crates[k]));
            assert(skipped@ =~= skip_flags(data.experiment.crates@, config).take(k + 1));
            k += 1;
        }
        assert(skipped@ =~= skip_flags(data.experiment.crates@, config));
        let ghost entry = EntryView { data: data@, skipped: skipped@ };
        self.db.experiments.push(Entry { data, skipped });
        proof {
            assert(self@.experiments =~= before.experiments.push(entry));
            assert forall|i: int, j: int|
                0 <= i < self@.experiments.len() && 0 <= j < self@.experiments.len() && i
                    != j implies (#[trigger] self@.experiments[i]).name() != (
            #[trigger] self@.experiments[j]).name() by {
                if i < before.experiments.len() && j < before.experiments.len() {
                    assert(before.experiments[i].name() != before.experiments[j].name());
                } else if i < before.experiments.len() {
                    assert(before.experiments[i].name() != entry.name());
                } else {
                    assert(before.experiments[j].name() != entry.name());
                }
            }
            assert forall|i: int| 0 <= i < self@.experiments.len() implies (
            #[trigger] self@.experiments[i]).skipped.len()
                == self@.experiments[i].data.experiment.crates.len() by {
                if i < before.experiments.len() {
                    assert(before.experiments[i].skipped.len()
                        == before.experiments[i].data.experiment.crates.len());
                }
            }
        }
        Ok(())
    }

    /// Stores an experiment that was stored before, with the skip flags
    /// that were remembered for its packages. The experiment is refused
    /// where one of its name is stored already, and where the flags are not
    /// as many as its packages.
    pub fn restore(&mut self, data: ExperimentData, skipped: Vec<bool>) -> (restored: Result<
        (),
        Error,
    >)
        requires
            old(self).wf(),
        ensures
            final(self).wf(),
            match restored {
                Ok(_) => {
                    &&& !old(self)@.has(data@.experiment.name)
                    &&& skipped@.len() == data.experiment.crates@.len()
                    &&& final(self)@ == old(self)@.with_new(data@, skipped@)
                },
                Err(e) => {
                    &&& final(self)@ == old(self)@
                    &&& e == if old(self)@.has(data@.experiment.name) {
                        Error::DuplicateExperiment
                    } else {
                        Error::SkipFlagsMismatch
                    }
                    &&& old(self)@.has(data@.experiment.name) || skipped@.len()
                        != data.experiment.crates@.len()
                },
            },
    {
        if self.db.find(&data.experiment.name).is_some() {
            return Err(Error::DuplicateExperiment);
        }
        if skipped.len() != data.experiment.crates.len() {
            return Err(Error::SkipFlagsMismatch);
        }
        let ghost before = self@;
        let ghost entry = EntryView { data: data@, skipped: skipped@ };
        self.db.experiments.push(Entry { data, skipped });
        proof {
            assert(self@.experiments =~= before.experiments.push(entry));
            assert forall|i: int, j: int|
                0 <= i < self@.experiments.len() && 0 <= j < self@.experiments.len() && i
                    != j implies (#[trigger] self@.experiments[i]).name() != (
            #[trigger] self@.experiments[j]).name() by {
                if i < before.experiments.len() && j < before.experiments.len() {
                    assert(before.experiments[i].name() != before.experiments[j].name());
                } else if i < before.experiments.len() {
                    assert(before.experiments[i].name() != entry.name());
                } else {
                    assert(before.experiments[j].name() != entry.name());
                }
            }
            assert forall|i: int| 0 <= i < self@.experiments.len() implies (
            #[trigger] self@.experiments[i]).skipped.len()
                == self@.experiments[i].data.experiment.crates.len() by {
                if i < before.experiments.len() {
                    assert(before.experiments[i].skipped.len()
                        == before.experiments[i].data.experiment.crates.len());
                }
            }
        }
        Ok(())
    }

    /// Takes the experiment `name` out of the store, with its packages and
    /// its outcomes.
    pub fn delete(&mut self, name: &str)
        requires
            old(self).wf(),
        ensures
            final(self).wf(),
            final(self)@ == old(self)@.without(name@),
    {
        let ghost before = self@;
        let name = name.to_owned();
        match self.db.find(&name) {
            Some(i) => {
                self.db.experiments.remove(i);
                proof {
                    assert(self@.experiments =~= before.experiments.remove(i as int));
                    assert forall|a: int, b: int|
                        0 <= a < self@.experiments.len() && 0 <= b < self@.experiments.len() && a
                            != b implies (#[trigger] self@.experiments[a]).name() != (
                    #[trigger] self@.experiments[b]).name() by {
                        let a0 = if a < i {
                            a
                        } else {
                            a + 1
                        };
                        let b0 = if b < i {
                            b
                        } else {
                            b + 1
                        };
                        assert(before.experiments[a0].name() != before.experiments[b0].name());
                    }
                    assert forall|a: int| 0 <= a < self@.experiments.len() implies (
                    #[trigger] self@.experiments[a]).skipped.len()
                        == self@.experiments[a].data.experiment.crates.len() by {
                        let a0 = if a < i {
                            a
                        } else {
                            a + 1
                        };
                        assert(before.experiments[a0].skipped.len()
                            == before.experiments[a0].data.experiment.crates.len());
                    }
                }
            },
            None => {},
        }
        self.db.results.remove_experiment(&name);
    }

    /// The experiment `name`, where it is stored.
    pub fn get(&self, name: &str) -> (found: Option<ExperimentData>)
        requires
            self.wf(),
        ensures
            match found {
                Some(data) => self@.has(name@) && data@ == self@.experiments[self@.index_of(
                    name@,
                )].data,
                None => !self@.has(name@),
            },
    {
        match self.db.find(&name.to_owned()) {
            Some(i) => Some(self.db.experiments[i].data.clone()),
            None => None,
        }
    }

    /// All the experiments, in the order in which they are handed out: by
    /// priority, the highest first; among equals by creation, the earliest
    /// first; among equals as they are stored.
    pub fn all(&self) -> (list: Vec<ExperimentData>)
        ensures
            exists|order: Seq<int>|
                {
                    &&& self@.is_handing_order(order)
                    &&& list@.len() == order.len()
                    &&& forall|a: int|
                        0 <= a < order.len() ==> (#[trigger] list@[a])@
                            == self@.experiments[order[a]].data
                },
    {
        let n = self.db.experiments.len();
        // The rows, sorted by insertion.
        let mut order: Vec<usize> = Vec::new();
        let mut k: usize = 0;
        while k < n
            invariant
                k <= n,
                n == self@.experiments.len(),
                order@.len() == k,
                forall|a: int| 0 <= a < order@.len() ==> #[trigger] order@[a] < k,
                forall|a: int, b: int|
                    0 <= a < b < order@.len() ==> comes_before(
                        self@.experiments[#[trigger] order@[a] as int].data.server_data,
                        order@[a] as int,
                        self@.experiments[#[trigger] order@[b] as int].data.server_data,
                        order@[b] as int,
                    ),
            decreases n - k,
        {
            let mut p: usize = 0;
            while p < order.len() && self.row_comes_before(order[p], k)
                invariant
                    p <= order@.len(),
                    k < n,
                    n == self@.experiments.len(),
                    forall|a: int| 0 <= a < order@.len() ==> #[trigger] order@[a] < k,
                    forall|a: int|
                        0 <= a < p ==> comes_before(
                            self@.experiments[#[trigger] order@[a] as int].data.server_data,
                            order@[a] as int,
                            self@.experiments[k as int].data.server_data,
                            k as int,
                        ),
                decreases order@.len() - p,
            {
                p += 1;
            }
            let ghost sorted = order@;
            order.insert(p, k);
            proof {
                assert forall|a: int, b: int| 0 <= a < b < order@.len() implies comes_before(
                    self@.experiments[#[trigger] order@[a] as int].data.server_data,
                    order@[a] as int,
                    self@.experiments[#[trigger] order@[b] as int].data.server_data,
                    order@[b] as int,
                ) by {
                    if b == p {
                        assert(order@[a] == sorted[a]);
                    } else if a == p {
                        assert(order@[b] == sorted[b - 1]);
                        assert(sorted[p as int] < k);
                        if b - 1 > p {
                            assert(comes_before(
                                self@.experiments[sorted[p as int] as int].data.server_data,
                                sorted[p as int] as int,
                                self@.experiments[sorted[b - 1] as int].data.server_data,
                                sorted[b - 1] as int,
                            ));
                        }
                    } else {
                        let a0 = if a < p {
                            a
                        } else {
                            a - 1
                        };
                        let b0 = if b < p {
                            b
                        } else {
                            b - 1
                        };
                        assert(order@[a] == sorted[a0] && order@[b] == sorted[b0]);
                    }
                }
                assert forall|a: int| 0 <= a < order@.len() implies #[trigger] order@[a] < k + 1 by {
                    if a < p {
                        assert(order@[a] == sorted[a]);
                    } else if a > p {
                        assert(order@[a] == sorted[a - 1]);
                    }
                }
            }
            k += 1;
        }
        let ghost rows = Seq::new(n as nat, |a: int| order@[a] as int);
        let mut list: Vec<ExperimentData> = Vec::new();
        let mut a: usize = 0;
        while a < n
            invariant
                a <= n,
                n == self@.experiments.len(),
                order@.len() == n,
                list@.len() == a,
                forall|c: int| 0 <= c < order@.len() ==> #[trigger] order@[c] < n,
                forall|c: int|
                    0 <= c < a ==> (#[trigger] list@[c])@
                        == self@.experiments[order@[c] as int].data,
            decreases n - a,
        {
            list.push(self.db.experiments[order[a]].data.clone());
            a += 1;
        }
        proof {
            assert(self@.is_handing_order(rows));
        }
        list
    }

    /// Whether the experiment in row `i` is handed out before that in row `j`.
    fn row_comes_before(&self, i: usize, j: usize) -> (before: bool)
        requires
            i < self@.experiments.len(),
            j < self@.experiments.len(),
        ensures
            before == comes_before(
                self@.experiments[i as int].data.server_data,
                i as int,
                self@.experiments[j as int].data.server_data,
                j as int,
            ),
    {
        let a = &self.db.experiments[i].data.server_data;
        let b = &self.db.experiments[j].data.server_data;
        a.priority > b.priority || (a.priority == b.priority && (a.created_at.lt(&b.created_at) || (
        a.created_at == b.created_at && i < j)))
    }

    /// The row of the experiment that is handed out first among those of
    /// the status `status`.
    fn first_row_by_status(&self, status: Status) -> (found: Option<usize>)
        ensures
            match found {
                Some(b) => self@.is_first_with_status(b as int, status),
                None => forall|j: int| !#[trigger] self@.has_status(j, status),
            },
    {
        let mut best: Option<usize> = None;
        let mut i: usize = 0;
        while i < self.db.experiments.len()
            invariant
                i <= self.db.experiments.len(),
                match best {
                    Some(b) => b < i && self@.has_status(b as int, status) && forall|j: int|
                        #![trigger self@.has_status(j, status)]
                        0 <= j < i && self@.has_status(j, status) && j != b ==> comes_before(
                            self@.experiments[b as int].data.server_data,
                            b as int,
                            self@.experiments[j].data.server_data,
                            j,
                        ),
                    None => forall|j: int| 0 <= j < i ==> !#[trigger] self@.has_status(j, status),
                },
            decreases self.db.experiments.len() - i,
        {
            if self.db.experiments[i].data.server_data.status == status {
                assert(self@.has_status(i as int, status));
                match best {
                    Some(b) => {
                        if self.row_comes_before(i, b) {
                            best = Some(i);
                        }
                    },
                    None => {
                        best = Some(i);
                    },
                }
            }
            i += 1;
        }
        best
    }

    /// The experiment that is handed out first among those of the status
    /// `status`: of the highest priority, among those the one created
    /// first, among those the one stored first.
    pub fn first_by_status(&self, status: Status) -> (found: Option<ExperimentData>)
        ensures
            match found {
                Some(data) => exists|b: int|
                    self@.is_first_with_status(b, status) && data@
                        == self@.experiments[b].data,
                None => forall|j: int| !#[trigger] self@.has_status(j, status),
            },
    {
        match self.first_row_by_status(status) {
            Some(b) => Some(self.db.experiments[b].data.clone()),
            None => None,
        }
    }

    /// The first row that holds an experiment running for `agent`.
    fn row_run_by_agent(&self, agent: &String) -> (found: Option<usize>)
        ensures
            match found {
                Some(i) => self@.is_first_running_for(i as int, agent@),
                None => forall|j: int| !#[trigger] self@.runs_for(j, agent@),
            },
    {
        let mut i: usize = 0;
        while i < self.db.experiments.len()
            invariant
                i <= self.db.experiments.len(),
                forall|j: int| 0 <= j < i ==> !#[trigger] self@.runs_for(j, agent@),
            decreases self.db.experiments.len() - i,
        {
            let server_data = &self.db.experiments[i].data.server_data;
            let assigned = match &server_data.assigned_to {
                Some(name) => *name == *agent,
                None => false,
            };
            if server_data.status == Status::Running && assigned {
                assert(self@.runs_for(i as int, agent@));
                return Some(i);
            }
            i += 1;
        }
        None
    }

    /// The experiment that is running for `agent`: the first stored, should
    /// there be several.
    pub fn run_by_agent(&self, agent: &str) -> (found: Option<ExperimentData>)
        ensures
            match found {
                Some(data) => exists|i: int|
                    self@.is_first_running_for(i, agent@) && data@ == self@.experiments[i].data,
                None => forall|j: int| !#[trigger] self@.runs_for(j, agent@),
            },
    {
        match self.row_run_by_agent(&agent.to_owned()) {
            Some(i) => Some(self.db.experiments[i].data.clone()),
            None => None,
        }
    }

    /// Gives `agent` an experiment to work on, at the time `now`.
    ///
    /// An agent that has an experiment running gets that one again, with
    /// `false`, and nothing changes. Otherwise the agent gets, with `true`,
    /// the queued experiment that is handed out first, which is then
    /// running and assigned to the agent. Without a queued experiment the
    /// agent gets nothing.
    pub fn next_at(&mut self, agent: &str, now: Timestamp) -> (handed: Option<
        (bool, ExperimentData),
    >)
        requires
            old(self).wf(),
        ensures
            final(self).wf(),
            old(self)@.assignments_consistent() ==> final(self)@.assignments_consistent(),
            old(self)@.one_running_per_agent() ==> final(self)@.one_running_per_agent(),
            match handed {
                Some((false, data)) => {
                    &&& exists|i: int|
                        old(self)@.is_first_running_for(i, agent@) && data@
                            == old(self)@.experiments[i].data
                    &&& final(self)@ == old(self)@
                },
                Some((true, data)) => {
                    &&& forall|j: int| !#[trigger] old(self)@.runs_for(j, agent@)
                    &&& exists|b: int|
                        {
                            &&& old(self)@.is_first_with_status(b, Status::Queued)
                            &&& data@ == old(self)@.experiments[b].data.handed_to(agent@, now)
                            &&& final(self)@ == old(self)@.altered(
                                old(self)@.experiments[b].name(),
                                |d: ExperimentDataView| d.handed_to(agent@, now),
                            )
                        }
                },
                None => {
                    &&& forall|j: int| !#[trigger] old(self)@.runs_for(j, agent@)
                    &&& forall|j: int| !#[trigger] old(self)@.has_status(j, Status::Queued)
                    &&& final(self)@ == old(self)@
                },
            },
    {
        let agent = agent.to_owned();
        // Avoid assigning two experiments to the same agent
        match self.row_run_by_agent(&agent) {
            Some(i) => {
                return Some((false, self.db.experiments[i].data.clone()));
            },
            None => {},
        }
        match self.first_row_by_status(Status::Queued) {
            Some(b) => {
                let ghost before = self@;
                let ghost row = before.experiments[b as int].data;
                let mut experiment = self.db.experiments[b].data.clone();
                experiment.set_status_at(&mut self.db, Status::Running, now);
                experiment.set_assigned_to(&mut self.db, Some(agent));
                proof {
                    assert(experiment@ == row.handed_to(agent@, now));
                    lemma_only_row(before, b as int);
                    assert(self@.experiments =~= before.altered(
                        before.experiments[b as int].name(),
                        |d: ExperimentDataView| d.handed_to(agent@, now),
                    ).experiments);
                    if before.assignments_consistent() {
                        lemma_handing_keeps_assignments(before, b as int, agent@, now);
                    }
                    if before.one_running_per_agent() {
                        lemma_handing_keeps_one_per_agent(before, b as int, agent@, now);
                    }
                }
                Some((true, experiment))
            },
            None => None,
        }
    }

    /// Gives `agent` an experiment to work on, at the time that the system
    /// clock shows, as `next_at` does.
    pub fn next(&mut self, agent: &str) -> (handed: Option<(bool, ExperimentData)>)
        requires
            old(self).wf(),
        ensures
            final(self).wf(),
            old(self)@.assignments_consistent() ==> final(self)@.assignments_consistent(),
            old(self)@.one_running_per_agent() ==> final(self)@.one_running_per_agent(),
            match handed {
                Some((false, data)) => {
                    &&& exists|i: int|
                        old(self)@.is_first_running_for(i, agent@) && data@
                            == old(self)@.experiments[i].data
                    &&& final(self)@ == old(self)@
                },
                Some((true, data)) => {
                    &&& forall|j: int| !#[trigger] old(self)@.runs_for(j, agent@)
                    &&& exists|b: int, now: Timestamp|
                        {
                            &&& old(self)@.is_first_with_status(b, Status::Queued)
                            &&& data@ == #[trigger] old(self)@.experiments[b].data.handed_to(
                                agent@,
                                now,
                            )
                            &&& final(self)@ == old(self)@.altered(
                                old(self)@.experiments[b].name(),
                                |d: ExperimentDataView| d.handed_to(agent@, now),
                            )
                        }
                },
                None => {
                    &&& forall|j: int| !#[trigger] old(self)@.runs_for(j, agent@)
                    &&& forall|j: int| !#[trigger] old(self)@.has_status(j, Status::Queued)
                    &&& final(self)@ == old(self)@
                },
            },
    {
        let now = utc_now();
        self.next_at(agent, now)
    }
}

} // verus!
