use vstd::prelude::*;
use crate::errors::Error;
use crate::util::str_eq;

verus! {

/// Where an experiment stands in its life.
///
/// An experiment is created `Queued`, is `Running` while an agent works on
/// it, then waits for its report (`NeedsReport`), which is then being made
/// (`GeneratingReport`) and either succeeds (`Completed`) or fails
/// (`ReportFailed`), from where it can be made again.
#[derive(Clone, Copy, Debug, PartialEq, Eq, Structural)]
pub enum Status {
    Queued,
    Running,
    NeedsReport,
    GeneratingReport,
    ReportFailed,
    Completed,
}

impl Status {
    /// The name under which the status is stored.
    pub open spec fn spec_str(self) -> Seq<char> {
        match self {
            Status::Queued => "queued"@,
            Status::Running => "running"@,
            Status::NeedsReport => "needs-report"@,
            Status::GeneratingReport => "generating-report"@,
            Status::ReportFailed => "report-failed"@,
            Status::Completed => "completed"@,
        }
    }

    /// The name under which the status is stored.
    pub fn to_str(&self) -> (name: &'static str)
        ensures
            name@ == self.spec_str(),
    {
        match self {
            Status::Queued => "queued",
            Status::Running => "running",
            Status::NeedsReport => "needs-report",
            Status::GeneratingReport => "generating-report",
            Status::ReportFailed => "report-failed",
            Status::Completed => "completed",
        }
    }

    /// Reads a stored name back. A name is accepted exactly when it is the
    /// name of a status, and then gives a status of that name: the only
    /// one, by `lemma_status_names_differ`.
    pub fn from_str(name: &str) -> (parsed: Result<Status, Error>)
        ensures
            match parsed {
                Ok(status) => name@ == status.spec_str(),
                Err(e) => e == Error::UnknownStatus && forall|status: Status|
                    name@ != #[trigger] status.spec_str(),
            },
    {
        if str_eq(name, "queued") {
            Ok(Status::Queued)
        } else if str_eq(name, "running") {
            Ok(Status::Running)
        } else if str_eq(name, "needs-report") {
            Ok(Status::NeedsReport)
        } else if str_eq(name, "generating-report") {
            Ok(Status::GeneratingReport)
        } else if str_eq(name, "report-failed") {
            Ok(Status::ReportFailed)
        } else if str_eq(name, "completed") {
            Ok(Status::Completed)
        } else {
            Err(Error::UnknownStatus)
        }
    }

    /// The steps that the life of an experiment is made of: forward along
    /// the line from `Queued` to `Completed`, from a failed report back to
    /// making it, and from `Running` back to `Queued` when an agent gives
    /// the experiment up.
    pub open spec fn spec_can_become(self, next: Status) -> bool {
        match (self, next) {
            (Status::Queued, Status::Running) => true,
            (Status::Running, Status::Queued) => true,
            (Status::Running, Status::NeedsReport) => true,
            (Status::NeedsReport, Status::GeneratingReport) => true,
            (Status::GeneratingReport, Status::Completed) => true,
            (Status::GeneratingReport, Status::ReportFailed) => true,
            (Status::ReportFailed, Status::GeneratingReport) => true,
            _ => false,
        }
    }

    /// Whether `next` can follow `self` in the life of an experiment.
    pub fn can_become(&self, next: Status) -> (allowed: bool)
        ensures
            allowed == self.spec_can_become(next),
    {
        match (*self, next) {
            (Status::Queued, Status::Running) => true,
            (Status::Running, Status::Queued) => true,
            (Status::Running, Status::NeedsReport) => true,
            (Status::NeedsReport, Status::GeneratingReport) => true,
            (Status::GeneratingReport, Status::Completed) => true,
            (Status::GeneratingReport, Status::ReportFailed) => true,
            (Status::ReportFailed, Status::GeneratingReport) => true,
            _ => false,
        }
    }
}

/// No two statuses share a stored name.
pub proof fn lemma_status_names_differ()
    ensures
        forall|a: Status, b: Status| a.spec_str() == b.spec_str() ==> a == b,
{
    reveal_strlit("queued");
    reveal_strlit("running");
    reveal_strlit("needs-report");
    reveal_strlit("generating-report");
    reveal_strlit("report-failed");
    reveal_strlit("completed");
    assert forall|a: Status, b: Status| a.spec_str() == b.spec_str() implies a == b by {
        if a != b {
            assert(a.spec_str().len() != b.spec_str().len());
        }
    }
}

} // verus!
