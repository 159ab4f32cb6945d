use vstd::prelude::*;
use crate::db::{count_for, has_result, position, recorded, ResultView};
use crate::experiments::{
    capped, percent, DatabaseView, ExperimentDataView, ServerDataView,
};
use crate::status::Status;
use crate::time::Timestamp;

verus! {

/// Setting a status and then the agent keeps "an agent is assigned exactly
/// while the experiment is running", whenever an agent is set exactly with
/// the status `Running`.
pub proof fn lemma_status_then_agent(
    data: ServerDataView,
    status: Status,
    now: Timestamp,
    agent: Option<Seq<char>>,
)
    requires
        agent is Some <==> status == Status::Running,
    ensures
        (ServerDataView { assigned_to: agent, ..data.with_status(data, status, now) }).assignment_consistent(),
{
}

/// Handing a queued experiment to an agent keeps "in every experiment an
/// agent is assigned exactly while it is running".
pub proof fn lemma_handing_keeps_assignments(
    db: DatabaseView,
    b: int,
    agent: Seq<char>,
    now: Timestamp,
)
    requires
        db.assignments_consistent(),
        0 <= b < db.experiments.len(),
    ensures
        db.altered(
            db.experiments[b].name(),
            |d: ExperimentDataView| d.handed_to(agent, now),
        ).assignments_consistent(),
{
    let after = db.altered(db.experiments[b].name(), |d: ExperimentDataView| d.handed_to(agent, now));
    assert forall|i: int| 0 <= i < after.experiments.len() implies (
    #[trigger] after.experiments[i]).data.server_data.assignment_consistent() by {
        assert(db.experiments[i].data.server_data.assignment_consistent());
    }
}

/// Handing a queued experiment to an agent that runs none keeps "no agent
/// runs two experiments".
pub proof fn lemma_handing_keeps_one_per_agent(
    db: DatabaseView,
    b: int,
    agent: Seq<char>,
    now: Timestamp,
)
    requires
        db.wf(),
        db.one_running_per_agent(),
        0 <= b < db.experiments.len(),
        forall|j: int| !#[trigger] db.runs_for(j, agent),
    ensures
        db.altered(
            db.experiments[b].name(),
            |d: ExperimentDataView| d.handed_to(agent, now),
        ).one_running_per_agent(),
{
    let after = db.altered(db.experiments[b].name(), |d: ExperimentDataView| d.handed_to(agent, now));
    assert forall|i: int, j: int, other: Seq<char>|
        #![trigger after.runs_for(i, other), after.runs_for(j, other)]
        after.runs_for(i, other) && after.runs_for(j, other) implies i == j by {
        if i != j {
            assert(db.experiments[i].name() != db.experiments[j].name());
            if i != b {
                assert(db.experiments[i].name() != db.experiments[b].name());
                assert(after.experiments[i] == db.experiments[i]);
                assert(db.runs_for(i, other));
            }
            if j != b {
                assert(db.experiments[j].name() != db.experiments[b].name());
                assert(after.experiments[j] == db.experiments[j]);
                assert(db.runs_for(j, other));
            }
            assert(db.runs_for(i, other) && db.runs_for(j, other) ==> i == j);
        }
    }
}

/// A start that is set stays as it is, and so does a completion, whatever
/// status is set and whenever.
pub proof fn lemma_stamps_stay(data: ServerDataView, status: Status, now: Timestamp)
    ensures
        data.started_at is Some ==> data.with_status(data, status, now).started_at
            == data.started_at,
        data.completed_at is Some ==> data.with_status(data, status, now).completed_at
            == data.completed_at,
{
}

/// While the clock does not show a time before the start, setting a status
/// keeps "a running experiment has started, and a completed one has
/// started, not after its completion".
pub proof fn lemma_status_keeps_times(data: ServerDataView, status: Status, now: Timestamp)
    requires
        data.times_consistent(),
        data.started_at is Some ==> data.started_at->0.spec_le(now),
    ensures
        data.with_status(data, status, now).times_consistent(),
{
}

/// A row that takes the place of a row of the same experiment leaves the
/// number of rows of every experiment as it was.
pub proof fn lemma_count_update(rows: Seq<ResultView>, i: int, row: ResultView, name: Seq<char>)
    requires
        0 <= i < rows.len(),
        rows[i].experiment == row.experiment,
    ensures
        count_for(rows.update(i, row), name) == count_for(rows, name),
    decreases rows.len(),
{
    if i == rows.len() - 1 {
        assert(rows.update(i, row).drop_last() =~= rows.drop_last());
    } else {
        lemma_count_update(rows.drop_last(), i, row, name);
        assert(rows.update(i, row).drop_last() =~= rows.drop_last().update(i, row));
    }
}

/// Recording an outcome takes no row away from any experiment.
pub proof fn lemma_record_grows(rows: Seq<ResultView>, row: ResultView, name: Seq<char>)
    ensures
        count_for(recorded(rows, row), name) >= count_for(rows, name),
        count_for(recorded(rows, row), name) <= count_for(rows, name) + 1,
{
    match position(rows, row.key()) {
        Some(i) => {
            assert(has_result(rows, row.key()));
            lemma_count_update(rows, i, row, name);
        },
        None => {
            assert(rows.push(row).drop_last() =~= rows);
        },
    }
}

/// With more done of the same total, the share in percent is not smaller.
pub proof fn lemma_percent_grows(done: nat, more: nat, total: nat)
    requires
        done <= more,
    ensures
        percent(done, total) <= percent(more, total),
{
    if total > 0 {
        vstd::arithmetic::div_mod::lemma_div_is_ordered(
            done * 100 + total - 1,
            more * 100 + total - 1,
            total as int,
        );
    }
}

/// Recording an outcome never takes progress back: of every experiment,
/// the number of outcomes done is not smaller than before, the number to do
/// is the same, and the share in percent is not smaller.
pub proof fn lemma_progress_grows(db: DatabaseView, row: ResultView, name: Seq<char>)
    ensures
        ({
            let after = DatabaseView { results: recorded(db.results, row), ..db };
            &&& after.done(name) >= db.done(name)
            &&& after.total(name) == db.total(name)
            &&& percent(capped(after.done(name)) as nat, capped(after.total(name)) as nat)
                >= percent(capped(db.done(name)) as nat, capped(db.total(name)) as nat)
        }),
{
    let after = DatabaseView { results: recorded(db.results, row), ..db };
    lemma_record_grows(db.results, row, name);
    lemma_percent_grows(
        capped(db.done(name)) as nat,
        capped(after.done(name)) as nat,
        capped(db.total(name)) as nat,
    );
}

/// An experiment that was created is found again as it was created.
pub proof fn lemma_create_then_get(db: DatabaseView, data: ExperimentDataView, skipped: Seq<bool>)
    requires
        db.wf(),
        !db.has(data.experiment.name),
    ensures
        db.with_new(data, skipped).has(data.experiment.name),
        db.with_new(data, skipped).experiments[db.with_new(data, skipped).index_of(
            data.experiment.name,
        )].data == data,
{
    let after = db.with_new(data, skipped);
    let last = after.experiments.len() - 1;
    assert(after.experiments[last].name() == data.experiment.name);
    let found = after.index_of(data.experiment.name);
    if found != last {
        assert(db.experiments[found].name() == data.experiment.name);
    }
}

} // verus!
