use vstd::prelude::*;
use crate::crates::Crate;
use crate::db::{has_result, recorded, ResultKey, ResultStore, ResultView};
use crate::ex::Experiment;
use crate::results::TestResult;
use crate::toolchain::Toolchain;

verus! {

/// What a task does with its package.
#[derive(Debug)]
pub enum TaskStep {
    /// Fetches the package and gets it ready for the builds.
    Prepare,
    BuildAndTest { tc: Toolchain, quiet: bool },
    BuildOnly { tc: Toolchain, quiet: bool },
    CheckOnly { tc: Toolchain, quiet: bool },
    UnstableFeatures { tc: Toolchain },
}

impl TaskStep {
    /// The toolchain under which the step records an outcome; `Prepare`
    /// records none.
    pub open spec fn spec_toolchain(self) -> Option<Toolchain> {
        match self {
            TaskStep::Prepare => None,
            TaskStep::BuildAndTest { tc, .. } => Some(tc),
            TaskStep::BuildOnly { tc, .. } => Some(tc),
            TaskStep::CheckOnly { tc, .. } => Some(tc),
            TaskStep::UnstableFeatures { tc } => Some(tc),
        }
    }

    /// The toolchain under which the step records an outcome.
    pub fn toolchain(&self) -> (tc: Option<&Toolchain>)
        ensures
            match tc {
                Some(tc) => self.spec_toolchain() == Some(*tc),
                None => self.spec_toolchain() is None,
            },
    {
        match self {
            TaskStep::Prepare => None,
            TaskStep::BuildAndTest { tc, .. } => Some(tc),
            TaskStep::BuildOnly { tc, .. } => Some(tc),
            TaskStep::CheckOnly { tc, .. } => Some(tc),
            TaskStep::UnstableFeatures { tc } => Some(tc),
        }
    }
}

impl Clone for TaskStep {
    fn clone(&self) -> (copy: Self)
        ensures
            copy == *self,
    {
        match self {
            TaskStep::Prepare => TaskStep::Prepare,
            TaskStep::BuildAndTest { tc, quiet } => TaskStep::BuildAndTest {
                tc: tc.clone(),
                quiet: *quiet,
            },
            TaskStep::BuildOnly { tc, quiet } => TaskStep::BuildOnly {
                tc: tc.clone(),
                quiet: *quiet,
            },
            TaskStep::CheckOnly { tc, quiet } => TaskStep::CheckOnly {
                tc: tc.clone(),
                quiet: *quiet,
            },
            TaskStep::UnstableFeatures { tc } => TaskStep::UnstableFeatures { tc: tc.clone() },
        }
    }
}

/// A unit of work on one package.
#[derive(Debug)]
pub struct Task {
    pub krate: Crate,
    pub step: TaskStep,
}

impl Clone for Task {
    fn clone(&self) -> (copy: Self)
        ensures
            copy == *self,
    {
        Task { krate: self.krate.clone(), step: self.step.clone() }
    }
}

impl Task {
    /// The key under which the task records its outcome during `ex`, where
    /// it records one.
    pub open spec fn result_key(&self, ex: &Experiment) -> Option<ResultKey> {
        match self.step.spec_toolchain() {
            Some(tc) => Some(ResultStore::key(ex, &self.krate, &tc)),
            None => None,
        }
    }

    /// Whether running the task would add anything to `rows`. A step under
    /// a toolchain is needed while no outcome is recorded under its key.
    /// `Prepare` is needed while the package lacks an outcome under one of
    /// the two toolchains of the experiment.
    pub open spec fn spec_needs_exec(&self, ex: &Experiment, rows: Seq<ResultView>) -> bool {
        match self.step.spec_toolchain() {
            Some(tc) => !has_result(rows, ResultStore::key(ex, &self.krate, &tc)),
            None => !has_result(rows, ResultStore::key(ex, &self.krate, &ex.toolchains[0]))
                || !has_result(rows, ResultStore::key(ex, &self.krate, &ex.toolchains[1])),
        }
    }

    /// Whether running the task would add anything to what `db` holds.
    pub fn needs_exec(&self, ex: &Experiment, db: &ResultStore) -> (needed: bool)
        requires
            db.wf(),
        ensures
            needed == self.spec_needs_exec(ex, db@),
    {
        match self.step.toolchain() {
            Some(tc) => db.get_result(ex, &self.krate, tc).is_none(),
            None => db.get_result(ex, &self.krate, &ex.toolchains[0]).is_none() || db.get_result(
                ex,
                &self.krate,
                &ex.toolchains[1],
            ).is_none(),
        }
    }

    /// The rows after the task is given up with the outcome `result`: the
    /// outcome is recorded under the task's key, with `error` as its log.
    /// `Prepare` has no key and leaves the rows as they are.
    pub open spec fn spec_mark_as_failed(
        &self,
        ex: &Experiment,
        rows: Seq<ResultView>,
        error: Seq<char>,
        result: TestResult,
    ) -> Seq<ResultView> {
        match self.step.spec_toolchain() {
            Some(tc) => recorded(
                rows,
                ResultView {
                    experiment: ex.name@,
                    krate: self.krate@,
                    toolchain: tc@,
                    result: result,
                    log: error,
                },
            ),
            None => rows,
        }
    }

    /// Gives the task up: records `result` for what the task would have
    /// built, with `error` as the log.
    pub fn mark_as_failed(
        &self,
        ex: &Experiment,
        db: &mut ResultStore,
        error: &str,
        result: TestResult,
    )
        requires
            old(db).wf(),
        ensures
            final(db).wf(),
            final(db)@ == self.spec_mark_as_failed(ex, old(db)@, error@, result),
    {
        match self.step.toolchain() {
            Some(tc) => {
                db.record_result(ex, &self.krate, tc, result, error);
            },
            None => {},
        }
    }
}

} // verus!
