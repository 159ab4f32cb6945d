use vstd::prelude::*;
use crate::crates::Crate;
use crate::ex::Experiment;
use crate::results::TestResult;
use crate::toolchain::Toolchain;

verus! {

/// One recorded outcome: what building `krate` with `toolchain` gave during
/// the experiment named `experiment`, and the log of that build.
#[derive(Debug)]
pub struct ResultEntry {
    pub experiment: String,
    pub krate: Crate,
    pub toolchain: Toolchain,
    pub result: TestResult,
    pub log: String,
}

/// A recorded outcome as a mathematical value.
pub struct ResultView {
    pub experiment: Seq<char>,
    pub krate: Seq<char>,
    pub toolchain: Seq<char>,
    pub result: TestResult,
    pub log: Seq<char>,
}

/// What an outcome is recorded for.
pub struct ResultKey {
    pub experiment: Seq<char>,
    pub krate: Seq<char>,
    pub toolchain: Seq<char>,
}

impl View for ResultEntry {
    type V = ResultView;

    open spec fn view(&self) -> ResultView {
        ResultView {
            experiment: self.experiment@,
            krate: self.krate@,
            toolchain: self.toolchain@,
            result: self.result,
            log: self.log@,
        }
    }
}

impl Clone for ResultEntry {
    fn clone(&self) -> (copy: Self)
        ensures
            copy == *self,
    {
        ResultEntry {
            experiment: self.experiment.clone(),
            krate: self.krate.clone(),
            toolchain: self.toolchain.clone(),
            result: self.result,
            log: self.log.clone(),
        }
    }
}

impl ResultView {
    pub open spec fn key(self) -> ResultKey {
        ResultKey { experiment: self.experiment, krate: self.krate, toolchain: self.toolchain }
    }
}

/// The views of a list of recorded outcomes, in order.
pub open spec fn result_views(rows: Seq<ResultEntry>) -> Seq<ResultView> {
    Seq::new(rows.len(), |i: int| rows[i]@)
}

/// No two rows record an outcome for the same key.
pub open spec fn distinct_keys(rows: Seq<ResultView>) -> bool {
    forall|i: int, j: int|
        0 <= i < rows.len() && 0 <= j < rows.len() && i != j ==> (#[trigger] rows[i]).key() != (
        #[trigger] rows[j]).key()
}

/// Some row records an outcome for `key`.
pub open spec fn has_result(rows: Seq<ResultView>, key: ResultKey) -> bool {
    exists|i: int| 0 <= i < rows.len() && (#[trigger] rows[i]).key() == key
}

/// The row that records an outcome for `key`, where there is one.
pub open spec fn position(rows: Seq<ResultView>, key: ResultKey) -> Option<int> {
    if has_result(rows, key) {
        Some(choose|i: int| 0 <= i < rows.len() && (#[trigger] rows[i]).key() == key)
    } else {
        None
    }
}

/// The outcome recorded for `key`, where there is one.
pub open spec fn outcome_of(rows: Seq<ResultView>, key: ResultKey) -> Option<TestResult> {
    match position(rows, key) {
        Some(i) => Some(rows[i].result),
        None => None,
    }
}

/// How many rows belong to the experiment `name`.
pub open spec fn count_for(rows: Seq<ResultView>, name: Seq<char>) -> nat
    decreases rows.len(),
{
    if rows.len() == 0 {
        0
    } else {
        count_for(rows.drop_last(), name) + if rows.last().experiment == name {
            1nat
        } else {
            0nat
        }
    }
}

/// How many rows belong to the package `krate` of the experiment `name`.
pub open spec fn count_for_crate(rows: Seq<ResultView>, name: Seq<char>, krate: Seq<char>) -> nat
    decreases rows.len(),
{
    if rows.len() == 0 {
        0
    } else {
        count_for_crate(rows.drop_last(), name, krate) + if rows.last().experiment == name
            && rows.last().krate == krate {
            1nat
        } else {
            0nat
        }
    }
}

/// The rows that do not belong to the experiment `name`, in order.
pub open spec fn without_experiment(rows: Seq<ResultView>, name: Seq<char>) -> Seq<ResultView>
    decreases rows.len(),
{
    if rows.len() == 0 {
        Seq::empty()
    } else if rows.last().experiment == name {
        without_experiment(rows.drop_last(), name)
    } else {
        without_experiment(rows.drop_last(), name).push(rows.last())
    }
}

/// The rows that are left without an experiment were there before, and
/// none of them belongs to the experiment; rows with distinct keys leave
/// rows with distinct keys; and no row of another experiment is lost.
pub proof fn lemma_without_experiment(rows: Seq<ResultView>, name: Seq<char>)
    ensures
        forall|k: int|
            0 <= k < without_experiment(rows, name).len() ==> {
                let row = #[trigger] without_experiment(rows, name)[k];
                row.experiment != name && exists|i: int| 0 <= i < rows.len() && #[trigger] rows[i] == row
            },
        distinct_keys(rows) ==> distinct_keys(without_experiment(rows, name)),
        count_for(without_experiment(rows, name), name) == 0,
        forall|other: Seq<char>|
            other != name ==> #[trigger] count_for(without_experiment(rows, name), other)
                == count_for(rows, other),
    decreases rows.len(),
{
    if rows.len() > 0 {
        let front = rows.drop_last();
        lemma_without_experiment(front, name);
        let kept = without_experiment(front, name);
        let all = without_experiment(rows, name);
        assert forall|k: int| 0 <= k < all.len() implies {
            let row = #[trigger] all[k];
            row.experiment != name && exists|i: int| 0 <= i < rows.len() && #[trigger] rows[i] == row
        } by {
            if rows.last().experiment != name && k == all.len() - 1 {
                assert(rows[rows.len() - 1] == all[k]);
            } else {
                assert(all[k] == kept[k]);
                let i = choose|i: int| 0 <= i < front.len() && #[trigger] front[i] == kept[k];
                assert(rows[i] == front[i]);
            }
        }
        if distinct_keys(rows) {
            assert forall|a: int, b: int|
                0 <= a < front.len() && 0 <= b < front.len() && a != b implies (
            #[trigger] front[a]).key() != (#[trigger] front[b]).key() by {
                assert(rows[a].key() != rows[b].key());
            }
            assert forall|a: int, b: int| 0 <= a < all.len() && 0 <= b < all.len() && a != b implies (
            #[trigger] all[a]).key() != (#[trigger] all[b]).key() by {
                if a < kept.len() && b < kept.len() {
                    assert(kept[a].key() != kept[b].key());
                } else {
                    let c = if a < kept.len() {
                        a
                    } else {
                        b
                    };
                    let i = choose|i: int| 0 <= i < front.len() && #[trigger] front[i] == kept[c];
                    assert(rows[i].key() != rows[rows.len() - 1].key());
                }
            }
        }
        if rows.last().experiment != name {
            assert(all.drop_last() =~= kept);
        }
        assert forall|other: Seq<char>| other != name implies #[trigger] count_for(all, other)
            == count_for(rows, other) by {
            assert(count_for(kept, other) == count_for(front, other));
            if rows.last().experiment != name {
                assert(all.drop_last() =~= kept);
                assert(all.last() == rows.last());
            } else {
                assert(all =~= kept);
            }
        }
    }
}

/// The store of recorded outcomes: at most one outcome for each experiment,
/// package and toolchain.
#[derive(Debug)]
pub struct ResultStore {
    rows: Vec<ResultEntry>,
}

impl View for ResultStore {
    type V = Seq<ResultView>;

    closed spec fn view(&self) -> Seq<ResultView> {
        result_views(self.rows@)
    }
}

impl ResultStore {
    /// The store holds at most one outcome for each key.
    pub open spec fn wf(&self) -> bool {
        distinct_keys(self@)
    }

    /// The key of the package `krate` under `tc` in the experiment `ex`.
    pub open spec fn key(ex: &Experiment, krate: &Crate, tc: &Toolchain) -> ResultKey {
        ResultKey { experiment: ex.name@, krate: krate@, toolchain: tc@ }
    }

    /// A store without outcomes.
    pub fn new() -> (store: ResultStore)
        ensures
            store@.len() == 0,
            store.wf(),
    {
        ResultStore { rows: Vec::new() }
    }

    /// How many outcomes the store holds.
    pub fn len(&self) -> (n: usize)
        ensures
            n == self@.len(),
    {
        self.rows.len()
    }

    /// The `i`-th outcome, in the order of recording.
    pub fn row(&self, i: usize) -> (entry: &ResultEntry)
        requires
            i < self@.len(),
        ensures
            entry@ == self@[i as int],
    {
        &self.rows[i]
    }

    fn find(&self, name: &String, krate: &Crate, tc: &Toolchain) -> (found: Option<usize>)
        requires
            self.wf(),
        ensures
            match found {
                Some(i) => i < self@.len() && position(
                    self@,
                    ResultKey { experiment: name@, krate: krate@, toolchain: tc@ },
                ) == Some(i as int),
                None => !has_result(
                    self@,
                    ResultKey { experiment: name@, krate: krate@, toolchain: tc@ },
                ),
            },
    {
        let ghost key = ResultKey { experiment: name@, krate: krate@, toolchain: tc@ };
        let mut i: usize = 0;
        while i < self.rows.len()
            invariant
                i <= self.rows.len(),
                self.wf(),
                key == (ResultKey { experiment: name@, krate: krate@, toolchain: tc@ }),
                forall|j: int| 0 <= j < i ==> (#[trigger] self@[j]).key() != key,
            decreases self.rows.len() - i,
        {
            let row = &self.rows[i];
            if row.experiment == *name && row.krate == *krate && row.toolchain == *tc {
                proof {
                    assert(self@[i as int].key() == key);
                    lemma_position(self@, key, i as int);
                }
                return Some(i);
            }
            i += 1;
        }
        None
    }

    /// The outcome recorded for the package `krate` under `tc` in the
    /// experiment `ex`, where there is one.
    pub fn get_result(&self, ex: &Experiment, krate: &Crate, tc: &Toolchain) -> (outcome: Option<
        TestResult,
    >)
        requires
            self.wf(),
        ensures
            outcome == outcome_of(self@, Self::key(ex, krate, tc)),
    {
        match self.find(&ex.name, krate, tc) {
            Some(i) => Some(self.rows[i].result),
            None => None,
        }
    }

    /// Records `result` and `log` for the package `krate` under `tc` in the
    /// experiment `ex`. An outcome already recorded for that key is replaced
    /// in its row; otherwise a row is added at the end. No other row changes.
    pub fn record_result(
        &mut self,
        ex: &Experiment,
        krate: &Crate,
        tc: &Toolchain,
        result: TestResult,
        log: &str,
    )
        requires
            old(self).wf(),
        ensures
            final(self).wf(),
            final(self)@ == recorded(
                old(self)@,
                ResultView {
                    experiment: ex.name@,
                    krate: krate@,
                    toolchain: tc@,
                    result: result,
                    log: log@,
                },
            ),
    {
        let entry = ResultEntry {
            experiment: ex.name.clone(),
            krate: krate.clone(),
            toolchain: tc.clone(),
            result,
            log: log.to_owned(),
        };
        let ghost before = self@;
        match self.find(&ex.name, krate, tc) {
            Some(i) => {
                self.rows.set(i, entry);
                assert(self@ =~= before.update(i as int, entry@));
                assert forall|a: int, b: int|
                    0 <= a < self@.len() && 0 <= b < self@.len() && a != b implies (
                #[trigger] self@[a]).key() != (#[trigger] self@[b]).key() by {
                    assert(before[a].key() != before[b].key());
                }
            },
            None => {
                self.rows.push(entry);
                assert(self@ =~= before.push(entry@));
                assert forall|a: int, b: int|
                    0 <= a < self@.len() && 0 <= b < self@.len() && a != b implies (
                #[trigger] self@[a]).key() != (#[trigger] self@[b]).key() by {
                    if a < before.len() && b < before.len() {
                        assert(before[a].key() != before[b].key());
                    } else if a < before.len() {
                        assert(before[a].key() != entry@.key());
                    } else {
                        assert(before[b].key() != entry@.key());
                    }
                }
            },
        }
    }

    /// Takes out every outcome of the experiment `name`; the other
    /// outcomes stay, in their order.
    pub fn remove_experiment(&mut self, name: &String)
        requires
            old(self).wf(),
        ensures
            final(self).wf(),
            final(self)@ == without_experiment(old(self)@, name@),
    {
        let ghost before = self@;
        let mut kept: Vec<ResultEntry> = Vec::new();
        let mut i: usize = 0;
        while i < self.rows.len()
            invariant
                i <= self.rows.len(),
                self@ == before,
                result_views(kept@) == without_experiment(before.take(i as int), name@),
            decreases self.rows.len() - i,
        {
            assert(before.take(i + 1).drop_last() =~= before.take(i as int));
            if !(self.rows[i].experiment == *name) {
                let ghost prev = result_views(kept@);
                kept.push(self.rows[i].clone());
                assert(result_views(kept@) =~= prev.push(before[i as int]));
            }
            i += 1;
        }
        proof {
            assert(before.take(before.len() as int) =~= before);
            lemma_without_experiment(before, name@);
        }
        self.rows = kept;
    }

    /// How many outcomes are recorded for the experiment `name`.
    pub fn count(&self, name: &String) -> (n: usize)
        ensures
            n == count_for(self@, name@),
    {
        let mut n: usize = 0;
        let mut i: usize = 0;
        while i < self.rows.len()
            invariant
                i <= self.rows.len(),
                n <= i,
                n == count_for(self@.take(i as int), name@),
            decreases self.rows.len() - i,
        {
            assert(self@.take(i + 1).drop_last() == self@.take(i as int));
            if self.rows[i].experiment == *name {
                n += 1;
            }
            i += 1;
        }
        assert(self@.take(self@.len() as int) == self@);
        n
    }

    /// How many outcomes are recorded for the package `krate` of the
    /// experiment `name`.
    pub fn count_crate(&self, name: &String, krate: &Crate) -> (n: usize)
        ensures
            n == count_for_crate(self@, name@, krate@),
    {
        let mut n: usize = 0;
        let mut i: usize = 0;
        while i < self.rows.len()
            invariant
                i <= self.rows.len(),
                n <= i,
                n == count_for_crate(self@.take(i as int), name@, krate@),
            decreases self.rows.len() - i,
        {
            assert(self@.take(i + 1).drop_last() == self@.take(i as int));
            if self.rows[i].experiment == *name && self.rows[i].krate == *krate {
                n += 1;
            }
            i += 1;
        }
        assert(self@.take(self@.len() as int) == self@);
        n
    }
}

/// In rows with distinct keys, the row that holds `key` is the one found for it.
pub proof fn lemma_position(rows: Seq<ResultView>, key: ResultKey, i: int)
    requires
        distinct_keys(rows),
        0 <= i < rows.len(),
        rows[i].key() == key,
    ensures
        position(rows, key) == Some(i),
        outcome_of(rows, key) == Some(rows[i].result),
{
    let c = choose|c: int| 0 <= c < rows.len() && (#[trigger] rows[c]).key() == key;
    assert(rows[c].key() == rows[i].key());
}

/// The rows after `row` is recorded: `row` takes the place of the row with
/// its key, or comes last where there is none.
pub open spec fn recorded(rows: Seq<ResultView>, row: ResultView) -> Seq<ResultView> {
    match position(rows, row.key()) {
        Some(i) => rows.update(i, row),
        None => rows.push(row),
    }
}

} // verus!
