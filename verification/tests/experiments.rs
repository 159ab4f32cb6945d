use crater::config::{Config, CrateConfig};
use crater::crates::Crate;
use crater::errors::Error;
use crater::ex::{ExCapLints, ExMode, Experiment};
use crater::experiments::{Database, ExperimentData, Experiments, GitHubIssue, ServerData};
use crater::records::ExperimentDBRecord;
use crater::results::TestResult;
use crater::status::Status;
use crater::time::Timestamp;
use crater::toolchain::Toolchain;

fn krate(id: &str) -> Crate {
    Crate::new(id.to_string())
}

fn toolchain(name: &str) -> Toolchain {
    Toolchain::new(name.to_string())
}

fn at(secs: i64) -> Timestamp {
    Timestamp::new(secs, 0)
}

fn dummy(name: &str, priority: i32, created: i64) -> ExperimentData {
    ExperimentData {
        experiment: Experiment {
            name: name.to_string(),
            crates: vec![krate("a"), krate("b"), krate("c")],
            toolchains: [toolchain("stable"), toolchain("beta")],
            cap_lints: ExCapLints::Forbid,
            mode: ExMode::BuildAndTest,
        },
        server_data: ServerData {
            priority,
            created_at: at(created),
            started_at: None,
            completed_at: None,
            github_issue: None,
            status: Status::Queued,
            assigned_to: None,
            report_url: None,
        },
    }
}

fn store_with(list: Vec<ExperimentData>) -> Experiments {
    let config = Config::new();
    let mut experiments = Experiments::new(Database::new());
    for data in list {
        experiments.create(data, &config).unwrap();
    }
    experiments
}

#[test]
fn test_assigning_experiment() {
    let db = Database::new();
    let mut experiments = Experiments::new(db);
    let config = Config::new();

    experiments.create(dummy("test", 0, 100), &config).unwrap();
    experiments.create(dummy("important", 10, 200), &config).unwrap();

    // Test the important experiment is correctly assigned
    let (new, ex) = experiments.next("agent-1").unwrap();
    assert!(new);
    assert_eq!(ex.experiment.name.as_str(), "important");
    assert_eq!(ex.server_data.status, Status::Running);
    assert_eq!(ex.server_data.assigned_to.unwrap().as_str(), "agent-1");

    // Test the same experiment is returned to the agent
    let (new, ex) = experiments.next("agent-1").unwrap();
    assert!(!new);
    assert_eq!(ex.experiment.name.as_str(), "important");

    // Test the less important experiment is assigned to the next agent
    let (new, ex) = experiments.next("agent-2").unwrap();
    assert!(new);
    assert_eq!(ex.experiment.name.as_str(), "test");
    assert_eq!(ex.server_data.status, Status::Running);
    assert_eq!(ex.server_data.assigned_to.unwrap().as_str(), "agent-2");

    // Test no other experiment is available for the other agents
    assert!(experiments.next("agent-3").is_none());
}

#[test]
fn next_stamps_the_start_and_stores_the_assignment() {
    let mut experiments = store_with(vec![dummy("one", 0, 100)]);
    let (new, ex) = experiments.next_at("agent-1", at(500)).unwrap();
    assert!(new);
    assert_eq!(ex.server_data.started_at, Some(at(500)));
    assert_eq!(ex.server_data.completed_at, None);
    let stored = experiments.get("one").unwrap();
    assert_eq!(stored.server_data.status, Status::Running);
    assert_eq!(stored.server_data.started_at, Some(at(500)));
    assert_eq!(stored.server_data.assigned_to.as_deref(), Some("agent-1"));
    let running = experiments.run_by_agent("agent-1").unwrap();
    assert_eq!(running.experiment.name, "one");
    assert!(experiments.run_by_agent("agent-2").is_none());
}

#[test]
fn next_reads_the_clock() {
    let mut experiments = store_with(vec![dummy("one", 0, 100)]);
    let (_, ex) = experiments.next("agent-1").unwrap();
    // Some time after the year 2020.
    assert!(ex.server_data.started_at.unwrap().secs > 1_577_836_800);
}

#[test]
fn equal_priorities_are_handed_out_by_creation() {
    let mut experiments =
        store_with(vec![dummy("late", 3, 900), dummy("early", 3, 100), dummy("low", 1, 50)]);
    assert_eq!(experiments.first_by_status(Status::Queued).unwrap().experiment.name, "early");
    assert!(experiments.first_by_status(Status::Running).is_none());
    let names: Vec<String> =
        experiments.all().into_iter().map(|data| data.experiment.name).collect();
    assert_eq!(names, vec!["early", "late", "low"]);
    let (_, first) = experiments.next_at("agent-1", at(1000)).unwrap();
    assert_eq!(first.experiment.name, "early");
    let (_, second) = experiments.next_at("agent-2", at(1000)).unwrap();
    assert_eq!(second.experiment.name, "late");
    let (_, third) = experiments.next_at("agent-3", at(1000)).unwrap();
    assert_eq!(third.experiment.name, "low");
}

#[test]
fn equal_keys_are_handed_out_as_stored() {
    let experiments = store_with(vec![dummy("x", 3, 100), dummy("y", 3, 100)]);
    let names: Vec<String> =
        experiments.all().into_iter().map(|data| data.experiment.name).collect();
    assert_eq!(names, vec!["x", "y"]);
    assert_eq!(experiments.first_by_status(Status::Queued).unwrap().experiment.name, "x");
}

#[test]
fn create_rejects_a_name_that_is_stored() {
    let config = Config::new();
    let mut experiments = store_with(vec![dummy("one", 0, 100)]);
    assert_eq!(experiments.create(dummy("one", 5, 300), &config), Err(Error::DuplicateExperiment));
    assert_eq!(experiments.db().len(), 1);
    assert_eq!(experiments.get("one").unwrap().server_data.priority, 0);
    assert!(ExperimentData::exists_in(experiments.db(), "one"));
    assert!(!ExperimentData::exists_in(experiments.db(), "two"));
    assert!(experiments.get("two").is_none());
}

#[test]
fn status_stamps_start_and_completion_once() {
    let mut db = store_with(vec![dummy("one", 0, 100)]).into_db();
    let mut ex = dummy("one", 0, 100);
    ex.set_status_at(&mut db, Status::Running, at(10));
    assert_eq!(ex.server_data.started_at, Some(at(10)));
    assert_eq!(ex.server_data.completed_at, None);
    // Staying in "running" stamps nothing.
    ex.set_status_at(&mut db, Status::Running, at(15));
    assert_eq!(ex.server_data.started_at, Some(at(10)));
    assert_eq!(ex.server_data.completed_at, None);
    // An agent gives the experiment up.
    ex.set_status_at(&mut db, Status::Queued, at(20));
    assert_eq!(ex.server_data.status, Status::Queued);
    assert_eq!(ex.server_data.completed_at, Some(at(20)));
    // A second start and a second end keep the first stamps.
    ex.set_status_at(&mut db, Status::Running, at(30));
    ex.set_status_at(&mut db, Status::NeedsReport, at(40));
    assert_eq!(ex.server_data.started_at, Some(at(10)));
    assert_eq!(ex.server_data.completed_at, Some(at(20)));
    ex.set_status_at(&mut db, Status::GeneratingReport, at(50));
    ex.set_status_at(&mut db, Status::Completed, at(60));
    let stored = Experiments::new(db).get("one").unwrap();
    assert_eq!(stored.server_data.status, Status::Completed);
    assert_eq!(stored.server_data.started_at, Some(at(10)));
    assert_eq!(stored.server_data.completed_at, Some(at(20)));
}

#[test]
fn set_status_reads_the_clock() {
    let mut db = store_with(vec![dummy("one", 0, 100)]).into_db();
    let mut ex = dummy("one", 0, 100);
    ex.set_status(&mut db, Status::Running);
    let started = ex.server_data.started_at.unwrap();
    assert!(started.secs > 1_577_836_800);
    ex.set_status(&mut db, Status::NeedsReport);
    let completed = ex.server_data.completed_at.unwrap();
    assert!(started.le(&completed));
}

#[test]
fn the_life_of_an_experiment_has_seven_steps() {
    let all = [
        Status::Queued,
        Status::Running,
        Status::NeedsReport,
        Status::GeneratingReport,
        Status::ReportFailed,
        Status::Completed,
    ];
    let mut steps = Vec::new();
    for from in all.iter() {
        for to in all.iter() {
            if from.can_become(*to) {
                steps.push((*from, *to));
            }
        }
    }
    assert_eq!(
        steps,
        vec![
            (Status::Queued, Status::Running),
            (Status::Running, Status::Queued),
            (Status::Running, Status::NeedsReport),
            (Status::NeedsReport, Status::GeneratingReport),
            (Status::GeneratingReport, Status::ReportFailed),
            (Status::GeneratingReport, Status::Completed),
            (Status::ReportFailed, Status::GeneratingReport),
        ]
    );
}

#[test]
fn mutators_change_the_store_and_the_copy() {
    let mut db = store_with(vec![dummy("one", 0, 100), dummy("two", 0, 200)]).into_db();
    let mut ex = dummy("one", 0, 100);
    ex.set_priority(&mut db, 7);
    ex.set_mode(&mut db, ExMode::CheckOnly);
    ex.set_cap_lints(&mut db, ExCapLints::Warn);
    ex.set_report_url(&mut db, "https://example.com/report");
    ex.set_assigned_to(&mut db, Some("agent-9".to_string()));
    assert_eq!(ex.server_data.priority, 7);
    assert_eq!(ex.experiment.mode, ExMode::CheckOnly);
    let experiments = Experiments::new(db);
    let one = experiments.get("one").unwrap();
    assert_eq!(one.server_data.priority, 7);
    assert_eq!(one.experiment.mode, ExMode::CheckOnly);
    assert_eq!(one.experiment.cap_lints, ExCapLints::Warn);
    assert_eq!(one.server_data.report_url.as_deref(), Some("https://example.com/report"));
    assert_eq!(one.server_data.assigned_to.as_deref(), Some("agent-9"));
    let two = experiments.get("two").unwrap();
    assert_eq!(two.server_data.priority, 0);
    assert_eq!(two.experiment.mode, ExMode::BuildAndTest);
    assert_eq!(two.server_data.assigned_to, None);
    // The operator clears the assignment.
    let mut db = experiments.into_db();
    ex.set_assigned_to(&mut db, None);
    assert_eq!(Experiments::new(db).get("one").unwrap().server_data.assigned_to, None);
}

#[test]
fn a_mutator_on_an_experiment_that_is_not_stored_changes_only_the_copy() {
    let mut db = store_with(vec![dummy("one", 0, 100)]).into_db();
    let mut ex = dummy("ghost", 0, 100);
    ex.set_priority(&mut db, 7);
    assert_eq!(ex.server_data.priority, 7);
    let experiments = Experiments::new(db);
    assert_eq!(experiments.db().len(), 1);
    assert_eq!(experiments.get("one").unwrap().server_data.priority, 0);
}

#[test]
fn toolchain_validation_leaves_everything_as_it_was() {
    let mut db = store_with(vec![dummy("one", 0, 100)]).into_db();
    let mut ex = dummy("one", 0, 100);
    assert_eq!(ex.set_start_toolchain(&mut db, toolchain("beta")), Err(Error::SameToolchains));
    assert_eq!(ex.experiment.toolchains[0].to_string(), "stable");
    assert_eq!(ex.set_end_toolchain(&mut db, toolchain("stable")), Err(Error::SameToolchains));
    assert_eq!(ex.experiment.toolchains[1].to_string(), "beta");
    let experiments = Experiments::new(db);
    let stored = experiments.get("one").unwrap();
    assert_eq!(stored.experiment.toolchains[0].to_string(), "stable");
    assert_eq!(stored.experiment.toolchains[1].to_string(), "beta");
    let mut db = experiments.into_db();
    assert_eq!(ex.set_start_toolchain(&mut db, toolchain("nightly")), Ok(()));
    assert_eq!(ex.set_end_toolchain(&mut db, toolchain("stable")), Ok(()));
    let stored = Experiments::new(db).get("one").unwrap();
    assert_eq!(stored.experiment.toolchains[0].to_string(), "nightly");
    assert_eq!(stored.experiment.toolchains[1].to_string(), "stable");
    assert_eq!(ex.experiment.validate(), Ok(()));
}

#[test]
fn validate_wants_two_toolchains() {
    let mut ex = dummy("one", 0, 100).experiment;
    assert_eq!(ex.validate(), Ok(()));
    ex.toolchains[1] = toolchain("stable");
    assert_eq!(ex.validate(), Err(Error::SameToolchains));
}

#[test]
fn progress_counts_outcomes_against_kept_packages() {
    let mut config = Config::new();
    config.set(
        krate("c"),
        CrateConfig { skip: true, skip_tests: false, quiet: false, broken: false },
    );
    let mut experiments = Experiments::new(Database::new());
    experiments.create(dummy("one", 0, 100), &config).unwrap();
    experiments.create(dummy("two", 0, 100), &Config::new()).unwrap();
    let mut db = experiments.into_db();
    let one = dummy("one", 0, 100);
    let two = dummy("two", 0, 100);
    assert_eq!(one.raw_progress(&db), (0, 4));
    assert_eq!(two.raw_progress(&db), (0, 6));
    assert_eq!(one.progress(&db), 0);
    db.record_result(&two.experiment, &krate("a"), &toolchain("stable"), TestResult::TestPass, "");
    assert_eq!(two.raw_progress(&db), (1, 6));
    // One of six is 16.67 percent, rounded up.
    assert_eq!(two.progress(&db), 17);
    assert_eq!(one.raw_progress(&db), (0, 4));
    db.record_result(&one.experiment, &krate("a"), &toolchain("stable"), TestResult::TestPass, "");
    assert_eq!(one.progress(&db), 25);
    // Recording the same outcome again changes nothing.
    db.record_result(&one.experiment, &krate("a"), &toolchain("stable"), TestResult::TestPass, "");
    assert_eq!(one.raw_progress(&db), (1, 4));
    db.record_result(&one.experiment, &krate("a"), &toolchain("beta"), TestResult::TestFail, "");
    db.record_result(&one.experiment, &krate("b"), &toolchain("stable"), TestResult::BuildFail, "");
    assert_eq!(one.progress(&db), 75);
    db.record_result(&one.experiment, &krate("b"), &toolchain("beta"), TestResult::Error, "");
    assert_eq!(one.raw_progress(&db), (4, 4));
    assert_eq!(one.progress(&db), 100);
    // An experiment that is not stored has nothing to do.
    assert_eq!(dummy("ghost", 0, 0).raw_progress(&db), (0, 0));
    assert_eq!(dummy("ghost", 0, 0).progress(&db), 0);
}

#[test]
fn progress_never_goes_back() {
    let mut db = store_with(vec![dummy("one", 0, 100)]).into_db();
    let one = dummy("one", 0, 100);
    let mut last = one.progress(&db);
    let mut shares = vec![last];
    for id in ["a", "b", "c", "a", "b"] {
        for tc in ["stable", "beta"] {
            db.record_result(&one.experiment, &krate(id), &toolchain(tc), TestResult::TestPass, "");
            let share = one.progress(&db);
            assert!(share >= last);
            last = share;
            shares.push(share);
        }
    }
    assert_eq!(shares, vec![0, 17, 34, 50, 67, 84, 100, 100, 100, 100, 100]);
}

#[test]
fn progress_is_capped_at_255() {
    let mut db = store_with(vec![]).into_db();
    let mut small = dummy("small", 0, 100);
    small.experiment.crates = vec![krate("a")];
    let mut experiments = Experiments::new(db);
    experiments.create(dummy("small", 0, 100), &Config::new()).unwrap();
    db = experiments.into_db();
    small.set_crates(&mut db, &Config::new(), vec![krate("a")]);
    for id in ["a", "b", "c", "d"] {
        for tc in ["stable", "beta"] {
            db.record_result(&small.experiment, &krate(id), &toolchain(tc), TestResult::TestPass, "");
        }
    }
    assert_eq!(small.raw_progress(&db), (8, 2));
    assert_eq!(small.progress(&db), 255);
}

#[test]
fn set_crates_remembers_what_the_configuration_skips() {
    let mut config = Config::new();
    config.set(
        krate("y"),
        CrateConfig { skip: true, skip_tests: false, quiet: false, broken: false },
    );
    let mut db = store_with(vec![dummy("one", 0, 100)]).into_db();
    let mut ex = dummy("one", 0, 100);
    ex.set_crates(&mut db, &config, vec![krate("x"), krate("y")]);
    assert_eq!(ex.experiment.crates, vec![krate("x"), krate("y")]);
    assert_eq!(ex.raw_progress(&db), (0, 2));
    let stored = Experiments::new(db).get("one").unwrap();
    assert_eq!(stored.experiment.crates, vec![krate("x"), krate("y")]);
}

#[test]
fn remove_completed_crates_keeps_what_lacks_an_outcome() {
    let mut db = store_with(vec![dummy("one", 0, 100)]).into_db();
    let mut ex = dummy("one", 0, 100);
    let other = dummy("two", 0, 100);
    db.record_result(&ex.experiment, &krate("a"), &toolchain("stable"), TestResult::TestPass, "");
    db.record_result(&ex.experiment, &krate("a"), &toolchain("beta"), TestResult::TestPass, "");
    db.record_result(&ex.experiment, &krate("b"), &toolchain("stable"), TestResult::TestPass, "");
    db.record_result(&other.experiment, &krate("b"), &toolchain("beta"), TestResult::TestPass, "");
    ex.remove_completed_crates(&db);
    assert_eq!(ex.experiment.crates, vec![krate("b"), krate("c")]);
    // The store still knows all the packages.
    assert_eq!(Experiments::new(db).get("one").unwrap().experiment.crates.len(), 3);
}

#[test]
fn delete_takes_the_outcomes_along() {
    let mut db = store_with(vec![dummy("one", 0, 100), dummy("two", 0, 200)]).into_db();
    let one = dummy("one", 0, 100);
    let two = dummy("two", 0, 200);
    db.record_result(&one.experiment, &krate("a"), &toolchain("stable"), TestResult::TestPass, "");
    db.record_result(&two.experiment, &krate("a"), &toolchain("stable"), TestResult::TestFail, "");
    db.record_result(&one.experiment, &krate("b"), &toolchain("stable"), TestResult::TestPass, "");
    let mut experiments = Experiments::new(db);
    experiments.delete("one");
    assert!(experiments.get("one").is_none());
    assert!(experiments.get("two").is_some());
    assert_eq!(experiments.db().results().len(), 1);
    assert_eq!(one.raw_progress(experiments.db()), (0, 0));
    assert_eq!(two.raw_progress(experiments.db()), (1, 6));
    assert_eq!(
        experiments.db().results().get_result(&two.experiment, &krate("a"), &toolchain("stable")),
        Some(TestResult::TestFail)
    );
    experiments.delete("nothing");
    assert_eq!(experiments.db().len(), 1);
}

fn full_data() -> ExperimentData {
    let mut data = dummy("pr-1", -3, 1_500_000_000);
    data.experiment.mode = ExMode::UnstableFeatures;
    data.experiment.cap_lints = ExCapLints::Deny;
    data.server_data.started_at = Some(Timestamp::new(1_500_000_100, 5));
    data.server_data.completed_at = Some(Timestamp::new(1_500_000_200, 1_999_999_999));
    data.server_data.status = Status::ReportFailed;
    data.server_data.assigned_to = Some("agent-1".to_string());
    data.server_data.report_url = Some("https://example.com".to_string());
    data.server_data.github_issue = Some(GitHubIssue {
        api_url: "https://api.github.com/issues/7".to_string(),
        html_url: "https://github.com/issues/7".to_string(),
        number: 7,
    });
    data
}

#[test]
fn a_record_reads_back_as_the_experiment_it_was_made_from() {
    let data = full_data();
    let record = ExperimentDBRecord::from_experiment_data(&data);
    assert_eq!(record.mode, "unstable-features");
    assert_eq!(record.cap_lints, "deny");
    assert_eq!(record.status, "report-failed");
    assert_eq!(record.toolchain_start, "stable");
    assert_eq!(record.toolchain_end, "beta");
    assert_eq!(record.github_issue.as_deref(), Some("https://api.github.com/issues/7"));
    assert_eq!(record.github_issue_url.as_deref(), Some("https://github.com/issues/7"));
    assert_eq!(record.github_issue_number, Some(7));
    let read = record.into_experiment_data(data.experiment.crates.clone()).unwrap();
    assert_eq!(read.experiment.name, data.experiment.name);
    assert_eq!(read.experiment.crates, data.experiment.crates);
    assert_eq!(read.experiment.toolchains, data.experiment.toolchains);
    assert_eq!(read.experiment.mode, data.experiment.mode);
    assert_eq!(read.experiment.cap_lints, data.experiment.cap_lints);
    assert_eq!(read.server_data.priority, -3);
    assert_eq!(read.server_data.created_at, data.server_data.created_at);
    assert_eq!(read.server_data.started_at, data.server_data.started_at);
    assert_eq!(read.server_data.completed_at, data.server_data.completed_at);
    assert_eq!(read.server_data.status, Status::ReportFailed);
    assert_eq!(read.server_data.assigned_to, data.server_data.assigned_to);
    assert_eq!(read.server_data.report_url, data.server_data.report_url);
    let issue = read.server_data.github_issue.unwrap();
    assert_eq!(issue.api_url, "https://api.github.com/issues/7");
    assert_eq!(issue.html_url, "https://github.com/issues/7");
    assert_eq!(issue.number, 7);
}

#[test]
fn a_stored_experiment_is_found_as_it_was_created() {
    let experiments = store_with(vec![full_data()]);
    let found = experiments.get("pr-1").unwrap();
    let data = full_data();
    assert_eq!(found.experiment.crates, data.experiment.crates);
    assert_eq!(found.experiment.toolchains, data.experiment.toolchains);
    assert_eq!(found.server_data.priority, data.server_data.priority);
    assert_eq!(found.server_data.status, data.server_data.status);
    assert_eq!(found.server_data.completed_at, data.server_data.completed_at);
    assert_eq!(found.server_data.github_issue.unwrap().number, 7);
}

#[test]
fn a_record_with_a_wrong_column_is_refused() {
    let make = || ExperimentDBRecord::from_experiment_data(&full_data());
    let mut record = make();
    record.status = "paused".to_string();
    assert_eq!(record.into_experiment_data(vec![]).err(), Some(Error::UnknownStatus));
    let mut record = make();
    record.mode = "build".to_string();
    assert_eq!(record.into_experiment_data(vec![]).err(), Some(Error::UnknownMode));
    let mut record = make();
    record.cap_lints = "".to_string();
    assert_eq!(record.into_experiment_data(vec![]).err(), Some(Error::UnknownCapLints));
    // The first wrong column is named.
    let mut record = make();
    record.status = "paused".to_string();
    record.mode = "build".to_string();
    record.cap_lints = "never".to_string();
    assert_eq!(record.into_experiment_data(vec![]).err(), Some(Error::UnknownCapLints));
}

#[test]
fn a_linked_issue_counts_only_with_all_its_columns() {
    let make = || ExperimentDBRecord::from_experiment_data(&full_data());
    let issue = |record: ExperimentDBRecord| {
        record.into_experiment_data(vec![]).unwrap().server_data.github_issue
    };
    assert_eq!(issue(make()).unwrap().number, 7);
    let mut record = make();
    record.github_issue_number = None;
    assert!(issue(record).is_none());
    let mut record = make();
    record.github_issue = None;
    assert!(issue(record).is_none());
    let mut record = make();
    record.github_issue_url = None;
    assert!(issue(record).is_none());
    let mut record = make();
    record.github_issue = None;
    record.github_issue_url = None;
    assert!(issue(record).is_none());
    let mut record = make();
    record.github_issue = None;
    record.github_issue_url = None;
    record.github_issue_number = None;
    assert!(issue(record).is_none());
    // The other columns are read all the same.
    let mut record = make();
    record.github_issue_url = None;
    let read = record.into_experiment_data(vec![krate("a")]).unwrap();
    assert_eq!(read.experiment.name, "pr-1");
    assert_eq!(read.server_data.status, Status::ReportFailed);
    assert_eq!(read.experiment.crates, vec![krate("a")]);
}

#[test]
fn names_read_back() {
    for status in [
        Status::Queued,
        Status::Running,
        Status::NeedsReport,
        Status::GeneratingReport,
        Status::ReportFailed,
        Status::Completed,
    ] {
        assert_eq!(Status::from_str(status.to_str()), Ok(status));
    }
    assert_eq!(Status::Queued.to_str(), "queued");
    assert_eq!(Status::NeedsReport.to_str(), "needs-report");
    assert_eq!(Status::GeneratingReport.to_str(), "generating-report");
    assert_eq!(Status::from_str("Queued"), Err(Error::UnknownStatus));
    for mode in
        [ExMode::BuildAndTest, ExMode::BuildOnly, ExMode::CheckOnly, ExMode::UnstableFeatures]
    {
        assert_eq!(ExMode::from_str(mode.to_str()), Ok(mode));
    }
    assert_eq!(ExMode::BuildAndTest.to_str(), "build-and-test");
    assert_eq!(ExMode::from_str("test"), Err(Error::UnknownMode));
    for cap in [ExCapLints::Allow, ExCapLints::Warn, ExCapLints::Deny, ExCapLints::Forbid] {
        assert_eq!(ExCapLints::from_str(cap.to_str()), Ok(cap));
    }
    assert_eq!(ExCapLints::from_str("error"), Err(Error::UnknownCapLints));
    for result in [
        TestResult::BuildFail,
        TestResult::TestFail,
        TestResult::TestSkipped,
        TestResult::TestPass,
        TestResult::Error,
    ] {
        assert_eq!(TestResult::from_str(result.to_str()), Ok(result));
    }
    assert_eq!(TestResult::TestPass.to_str(), "test-pass");
    assert_eq!(TestResult::from_str("pass"), Err(Error::UnknownTestResult));
}

#[test]
fn timestamps_are_ordered_by_seconds_then_nanoseconds() {
    let early = Timestamp::new(5, 999_999_999);
    let late = Timestamp::new(6, 0);
    let leap = Timestamp::new(5, 1_500_000_000);
    assert!(early.lt(&late));
    assert!(early.le(&late));
    assert!(!late.le(&early));
    assert!(early.lt(&leap));
    assert!(leap.lt(&late));
    assert!(early.le(&early));
    assert!(!early.lt(&early));
}

#[test]
fn restore_keeps_the_remembered_skip_flags() {
    let mut experiments = Experiments::new(Database::new());
    assert_eq!(experiments.restore(dummy("one", 0, 100), vec![false, true, true]), Ok(()));
    assert_eq!(
        experiments.restore(dummy("one", 0, 100), vec![false, false, false]),
        Err(Error::DuplicateExperiment)
    );
    assert_eq!(
        experiments.restore(dummy("two", 0, 100), vec![false, true]),
        Err(Error::SkipFlagsMismatch)
    );
    assert_eq!(experiments.db().len(), 1);
    assert_eq!(experiments.db().experiment(0).experiment.name, "one");
    assert_eq!(experiments.db().skipped(0), &vec![false, true, true]);
    assert_eq!(dummy("one", 0, 100).raw_progress(experiments.db()), (0, 2));
}

#[test]
fn outcomes_can_be_taken_out_for_a_run_and_put_back() {
    let mut db = store_with(vec![dummy("one", 0, 100)]).into_db();
    let one = dummy("one", 0, 100);
    db.record_result(&one.experiment, &krate("a"), &toolchain("stable"), TestResult::TestPass, "");
    let mut results = db.take_results();
    assert_eq!(results.len(), 1);
    assert_eq!(db.results().len(), 0);
    assert_eq!(one.raw_progress(&db), (0, 6));
    results.record_result(&one.experiment, &krate("a"), &toolchain("beta"), TestResult::TestPass, "");
    db.set_results(results);
    assert_eq!(one.raw_progress(&db), (2, 6));
    assert_eq!(db.len(), 1);
}

#[test]
fn an_agent_is_assigned_exactly_while_an_experiment_is_running() {
    let mut experiments =
        store_with(vec![dummy("one", 0, 100), dummy("two", 5, 100), dummy("three", 0, 50)]);
    let check = |experiments: &Experiments| {
        for data in experiments.all() {
            assert_eq!(
                data.server_data.assigned_to.is_some(),
                data.server_data.status == Status::Running
            );
        }
    };
    check(&experiments);
    for agent in ["agent-1", "agent-2", "agent-1", "agent-3", "agent-4"] {
        experiments.next_at(agent, at(1000));
        check(&experiments);
    }
    // Each agent runs one experiment.
    let running: Vec<Option<String>> =
        experiments.all().into_iter().map(|data| data.server_data.assigned_to).collect();
    assert_eq!(
        running,
        vec![
            Some("agent-1".to_string()),
            Some("agent-2".to_string()),
            Some("agent-3".to_string())
        ]
    );
    // An agent gives its experiment up, and the operator clears the assignment.
    let mut db = experiments.into_db();
    let mut two = Experiments::new(Database::new());
    two.create(dummy("two", 5, 100), &Config::new()).unwrap();
    let mut given_up = two.get("two").unwrap();
    given_up.set_status_at(&mut db, Status::Queued, at(2000));
    given_up.set_assigned_to(&mut db, None);
    let experiments = Experiments::new(db);
    check(&experiments);
    assert_eq!(experiments.first_by_status(Status::Queued).unwrap().experiment.name, "two");
}
