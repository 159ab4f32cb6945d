use vstd::prelude::*;
use crate::crates::Crate;
use crate::errors::Error;
use crate::ex::{
    lemma_cap_lints_names_differ, lemma_mode_names_differ, ExCapLints, ExMode, Experiment,
};
use crate::experiments::{
    ExperimentData, ExperimentDataView, GitHubIssue, GitHubIssueView, ServerData,
};
use crate::status::{lemma_status_names_differ, Status};
use crate::time::Timestamp;
use crate::toolchain::Toolchain;
use crate::util::{clone_opt_string, opt_view};

verus! {

/// An experiment as one row of storage: names in place of the mode, the
/// lint cap and the status, and the linked issue in three columns, which
/// count only where all three are filled. The packages are stored apart.
#[derive(Debug)]
pub struct ExperimentDBRecord {
    pub name: String,
    pub mode: String,
    pub cap_lints: String,
    pub toolchain_start: String,
    pub toolchain_end: String,
    pub priority: i32,
    pub created_at: Timestamp,
    pub started_at: Option<Timestamp>,
    pub completed_at: Option<Timestamp>,
    pub github_issue: Option<String>,
    pub github_issue_url: Option<String>,
    pub github_issue_number: Option<i32>,
    pub status: String,
    pub assigned_to: Option<String>,
    pub report_url: Option<String>,
}

/// A row of storage as a mathematical value.
pub struct RecordView {
    pub name: Seq<char>,
    pub mode: Seq<char>,
    pub cap_lints: Seq<char>,
    pub toolchain_start: Seq<char>,
    pub toolchain_end: Seq<char>,
    pub priority: i32,
    pub created_at: Timestamp,
    pub started_at: Option<Timestamp>,
    pub completed_at: Option<Timestamp>,
    pub github_issue: Option<Seq<char>>,
    pub github_issue_url: Option<Seq<char>>,
    pub github_issue_number: Option<i32>,
    pub status: Seq<char>,
    pub assigned_to: Option<Seq<char>>,
    pub report_url: Option<Seq<char>>,
}

impl View for ExperimentDBRecord {
    type V = RecordView;

    open spec fn view(&self) -> RecordView {
        RecordView {
            name: self.name@,
            mode: self.mode@,
            cap_lints: self.cap_lints@,
            toolchain_start: self.toolchain_start@,
            toolchain_end: self.toolchain_end@,
            priority: self.priority,
            created_at: self.created_at,
            started_at: self.started_at,
            completed_at: self.completed_at,
            github_issue: opt_view(self.github_issue),
            github_issue_url: opt_view(self.github_issue_url),
            github_issue_number: self.github_issue_number,
            status: self.status@,
            assigned_to: opt_view(self.assigned_to),
            report_url: opt_view(self.report_url),
        }
    }
}

impl RecordView {
    /// The linked issue that the three columns hold: an issue where all
    /// three are filled, and none where one is empty.
    pub open spec fn issue(self) -> Option<GitHubIssueView> {
        if self.github_issue is Some && self.github_issue_url is Some
            && self.github_issue_number is Some {
            Some(
                GitHubIssueView {
                    api_url: self.github_issue->0,
                    html_url: self.github_issue_url->0,
                    number: self.github_issue_number->0,
                },
            )
        } else {
            None
        }
    }

    /// What is wrong with the row, where something is: the first of an
    /// unknown lint cap, an unknown mode and an unknown status.
    pub open spec fn error(self) -> Option<Error> {
        if forall|cap: ExCapLints| self.cap_lints != #[trigger] cap.spec_str() {
            Some(Error::UnknownCapLints)
        } else if forall|mode: ExMode| self.mode != #[trigger] mode.spec_str() {
            Some(Error::UnknownMode)
        } else if forall|status: Status| self.status != #[trigger] status.spec_str() {
            Some(Error::UnknownStatus)
        } else {
            None
        }
    }

    /// The row stands for the experiment `data`, but for its packages.
    pub open spec fn stands_for(self, data: ExperimentDataView) -> bool {
        &&& data.experiment.name == self.name
        &&& data.experiment.mode.spec_str() == self.mode
        &&& data.experiment.cap_lints.spec_str() == self.cap_lints
        &&& data.experiment.start == self.toolchain_start
        &&& data.experiment.end == self.toolchain_end
        &&& data.server_data.priority == self.priority
        &&& data.server_data.created_at == self.created_at
        &&& data.server_data.started_at == self.started_at
        &&& data.server_data.completed_at == self.completed_at
        &&& data.server_data.github_issue == self.issue()
        &&& data.server_data.status.spec_str() == self.status
        &&& data.server_data.assigned_to == self.assigned_to
        &&& data.server_data.report_url == self.report_url
    }
}

/// The row that stores the experiment `data`.
pub open spec fn record_of(data: ExperimentDataView) -> RecordView {
    RecordView {
        name: data.experiment.name,
        mode: data.experiment.mode.spec_str(),
        cap_lints: data.experiment.cap_lints.spec_str(),
        toolchain_start: data.experiment.start,
        toolchain_end: data.experiment.end,
        priority: data.server_data.priority,
        created_at: data.server_data.created_at,
        started_at: data.server_data.started_at,
        completed_at: data.server_data.completed_at,
        github_issue: match data.server_data.github_issue {
            Some(issue) => Some(issue.api_url),
            None => None,
        },
        github_issue_url: match data.server_data.github_issue {
            Some(issue) => Some(issue.html_url),
            None => None,
        },
        github_issue_number: match data.server_data.github_issue {
            Some(issue) => Some(issue.number),
            None => None,
        },
        status: data.server_data.status.spec_str(),
        assigned_to: data.server_data.assigned_to,
        report_url: data.server_data.report_url,
    }
}

impl ExperimentDBRecord {
    /// The row that stores `data`.
    pub fn from_experiment_data(data: &ExperimentData) -> (record: ExperimentDBRecord)
        ensures
            record@ == record_of(data@),
    {
        let (github_issue, github_issue_url, github_issue_number) = match &data.server_data.github_issue {
            Some(issue) => (
                Some(issue.api_url.clone()),
                Some(issue.html_url.clone()),
                Some(issue.number),
            ),
            None => (None, None, None),
        };
        ExperimentDBRecord {
            name: data.experiment.name.clone(),
            mode: data.experiment.mode.to_str().to_owned(),
            cap_lints: data.experiment.cap_lints.to_str().to_owned(),
            toolchain_start: data.experiment.toolchains[0].to_string(),
            toolchain_end: data.experiment.toolchains[1].to_string(),
            priority: data.server_data.priority,
            created_at: data.server_data.created_at,
            started_at: data.server_data.started_at,
            completed_at: data.server_data.completed_at,
            github_issue,
            github_issue_url,
            github_issue_number,
            status: data.server_data.status.to_str().to_owned(),
            assigned_to: clone_opt_string(&data.server_data.assigned_to),
            report_url: clone_opt_string(&data.server_data.report_url),
        }
    }

    /// Reads the row back into an experiment with the packages `crates`.
    /// The row is refused where `RecordView::error` names an error, with
    /// that error; otherwise the experiment is the one that the row stands
    /// for.
    pub fn into_experiment_data(self, crates: Vec<Crate>) -> (read: Result<ExperimentData, Error>)
        ensures
            match read {
                Ok(data) => self@.error() is None && self@.stands_for(data@)
                    && data.experiment.crates@ == crates@,
                Err(e) => self@.error() == Some(e),
            },
    {
        let cap_lints = match ExCapLints::from_str(self.cap_lints.as_str()) {
            Ok(cap_lints) => cap_lints,
            Err(e) => {
                return Err(e);
            },
        };
        let mode = match ExMode::from_str(self.mode.as_str()) {
            Ok(mode) => mode,
            Err(e) => {
                return Err(e);
            },
        };
        let github_issue = match (self.github_issue, self.github_issue_url, self.github_issue_number) {
            (Some(api_url), Some(html_url), Some(number)) => Some(
                GitHubIssue { api_url, html_url, number },
            ),
            _ => None,
        };
        let status = match Status::from_str(self.status.as_str()) {
            Ok(status) => status,
            Err(e) => {
                return Err(e);
            },
        };
        Ok(
            ExperimentData {
                experiment: Experiment {
                    name: self.name,
                    crates,
                    toolchains: [
                        Toolchain::new(self.toolchain_start),
                        Toolchain::new(self.toolchain_end),
                    ],
                    cap_lints,
                    mode,
                },
                server_data: ServerData {
                    priority: self.priority,
                    created_at: self.created_at,
                    started_at: self.started_at,
                    completed_at: self.completed_at,
                    github_issue,
                    assigned_to: self.assigned_to,
                    status,
                    report_url: self.report_url,
                },
            },
        )
    }
}

/// Storing an experiment and reading the row back gives the experiment:
/// the row of an experiment has no error, stands for that experiment, and
/// stands for no other with the same packages.
pub proof fn lemma_record_round_trip(data: ExperimentDataView, read: ExperimentDataView)
    ensures
        record_of(data).error() is None,
        record_of(data).stands_for(data),
        record_of(data).stands_for(read) && read.experiment.crates == data.experiment.crates
            ==> read == data,
{
    lemma_mode_names_differ();
    lemma_cap_lints_names_differ();
    lemma_status_names_differ();
    let row = record_of(data);
    assert(row.cap_lints == data.experiment.cap_lints.spec_str());
    assert(row.mode == data.experiment.mode.spec_str());
    assert(row.status == data.server_data.status.spec_str());
    if row.stands_for(read) && read.experiment.crates == data.experiment.crates {
        assert(read.experiment.mode == data.experiment.mode);
        assert(read.experiment.cap_lints == data.experiment.cap_lints);
        assert(read.server_data.status == data.server_data.status);
        assert(read.server_data.github_issue == data.server_data.github_issue);
        assert(read.experiment == data.experiment);
        assert(read.server_data == data.server_data);
    }
}

} // verus!
