//! The tracker engine: task lifecycle, session lifecycle, and queries, each
//! one a full read-modify-write on the document.

use vstd::prelude::*;

use crate::errors::TrackerError;
use crate::model::{
    ActiveSession, ActiveView, DocView, ShiganConfig, Session, SessionView, Task, TaskView, doc_wf,
    empty_doc, find_task, lemma_find_task_at, lemma_find_task_none, lemma_find_task_props,
    lemma_find_task_push,
};
use crate::strings::{chars_string, lower_of, lowercase};
use crate::time::{
    MAX_EPOCH_SECS, current_epoch_secs, elapsed_secs, elapsed_spec, format_hms, format_rfc3339,
    hms_text, parse_rfc3339, rfc3339_of, rfc3339_secs,
};

verus! {

/// A newly registered task: no time accumulated, no sessions.
pub open spec fn fresh_task(name: Seq<char>) -> TaskView {
    TaskView { name: name, minutes: 0, sessions: Seq::empty() }
}

/// What `add_task` does to a document, given the normalized name.
pub open spec fn add_result(d: DocView, n: Seq<char>) -> (DocView, Result<(), TrackerError>) {
    if find_task(d.subjects, n) is Some {
        (d, Err(TrackerError::TaskAlreadyExists))
    } else {
        (DocView { current: d.current, subjects: d.subjects.push(fresh_task(n)) }, Ok(()))
    }
}

/// Whether the active marker points at the given name.
pub open spec fn is_active(d: DocView, n: Seq<char>) -> bool {
    match d.current {
        Some(a) => a.task == n,
        None => false,
    }
}

/// What `delete_task` does to a document, given the normalized name.
pub open spec fn delete_result(d: DocView, n: Seq<char>) -> (DocView, Result<(), TrackerError>) {
    if is_active(d, n) {
        (d, Err(TrackerError::TaskIsActive))
    } else {
        match find_task(d.subjects, n) {
            None => (d, Err(TrackerError::TaskNotFound)),
            Some(i) => (DocView { current: d.current, subjects: d.subjects.remove(i) }, Ok(())),
        }
    }
}

/// What `start_task` does to a document, given the normalized name and the
/// moment the run begins.
pub open spec fn start_result(d: DocView, n: Seq<char>, now: i64) -> (
    DocView,
    Result<(), TrackerError>,
) {
    if find_task(d.subjects, n) is None {
        (d, Err(TrackerError::TaskNotFound))
    } else if d.current is Some {
        (d, Err(TrackerError::SessionAlreadyActive))
    } else {
        (
            DocView {
                current: Some(ActiveView { task: n, started: rfc3339_of(now) }),
                subjects: d.subjects,
            },
            Ok(()),
        )
    }
}

/// Whole minutes added to a total, capped at what a `u64` holds.
pub open spec fn minutes_plus(m: u64, extra: int) -> u64 {
    if m + extra > u64::MAX {
        u64::MAX
    } else {
        (m + extra) as u64
    }
}

/// The task after a session of `dur` seconds (ending at `now`) is folded in.
pub open spec fn task_after_session(t: TaskView, started: Seq<char>, now: i64, dur: int) -> TaskView {
    TaskView {
        name: t.name,
        minutes: minutes_plus(t.minutes, dur / 60),
        sessions: t.sessions.push(
            SessionView { started: started, ended: rfc3339_of(now), duration: hms_text(dur) },
        ),
    }
}

/// What `stop_task` does to a document once the marker's recorded start has
/// been read back as `parsed`.
pub open spec fn stop_result_with(d: DocView, parsed: Option<i64>, now: i64) -> (
    DocView,
    Result<(), TrackerError>,
) {
    match d.current {
        None => (d, Err(TrackerError::NoActiveSession)),
        Some(a) => match find_task(d.subjects, a.task) {
            None => (d, Err(TrackerError::TaskNotFound)),
            Some(i) => match parsed {
                None => (d, Err(TrackerError::CorruptData)),
                Some(t0) => {
                    let dur = elapsed_spec(t0 as int, now as int);
                    (
                        DocView {
                            current: None,
                            subjects: d.subjects.update(
                                i,
                                task_after_session(d.subjects[i], a.started, now, dur),
                            ),
                        },
                        Ok(()),
                    )
                },
            },
        },
    }
}

/// What `stop_task` does to a document: the marker's recorded start is
/// parsed back with `rfc3339_secs`.
pub open spec fn stop_result(d: DocView, now: i64) -> (DocView, Result<(), TrackerError>) {
    stop_result_with(
        d,
        match d.current {
            Some(a) => rfc3339_secs(a.started),
            None => None,
        },
        now,
    )
}

/// One line of a query answer: a task and its accumulated whole minutes.
pub struct TaskTotal {
    pub name: String,
    pub minutes: u64,
}

#[verifier::ext_equal]
pub ghost struct RowView {
    pub name: Seq<char>,
    pub minutes: u64,
}

impl View for TaskTotal {
    type V = RowView;

    open spec fn view(&self) -> RowView {
        RowView { name: self.name@, minutes: self.minutes }
    }
}

/// What a query reports on: every task, or one named task.
pub enum QueryFilter {
    All,
    Named(String),
}

pub open spec fn row_of(t: TaskView) -> RowView {
    RowView { name: t.name, minutes: t.minutes }
}

/// The ghost rows of a vector of totals.
pub open spec fn views_of(v: Seq<TaskTotal>) -> Seq<RowView> {
    v.map_values(|t: TaskTotal| t@)
}

pub open spec fn rows_of(ts: Seq<TaskView>) -> Seq<RowView> {
    ts.map_values(|t: TaskView| row_of(t))
}

/// Places `x` behind every row with at least as many minutes, in front of
/// the first with fewer: the insertion step of a stable descending sort.
pub open spec fn insert_desc(s: Seq<RowView>, x: RowView) -> Seq<RowView>
    decreases s.len(),
{
    if s.len() == 0 {
        seq![x]
    } else if s[0].minutes >= x.minutes {
        seq![s[0]] + insert_desc(s.skip(1), x)
    } else {
        seq![x] + s
    }
}

/// Stable insertion sort by accumulated minutes, descending: rows with equal
/// totals keep their original relative order.
pub open spec fn sort_desc(s: Seq<RowView>) -> Seq<RowView>
    decreases s.len(),
{
    if s.len() == 0 {
        Seq::empty()
    } else {
        insert_desc(sort_desc(s.drop_last()), s.last())
    }
}

/// What `query` answers, given the document and the filter.
pub open spec fn query_result(d: DocView, f: QueryFilter) -> Result<
    Seq<RowView>,
    TrackerError,
> {
    match f {
        QueryFilter::All => Ok(sort_desc(rows_of(d.subjects))),
        QueryFilter::Named(s) => match find_task(d.subjects, lower_of(s@)) {
            None => Err(TrackerError::TaskNotFound),
            Some(i) => Ok(seq![row_of(d.subjects[i])]),
        },
    }
}

pub open spec fn sorted_desc(s: Seq<RowView>) -> bool {
    forall|i: int, j: int|
        0 <= i < j < s.len() ==> (#[trigger] s[i]).minutes >= (#[trigger] s[j]).minutes
}

pub open spec fn rows_at_most(s: Seq<RowView>, b: u64) -> bool {
    forall|i: int| 0 <= i < s.len() ==> (#[trigger] s[i]).minutes <= b
}

proof fn lemma_insert_desc_le(s: Seq<RowView>, x: RowView, b: u64)
    requires
        rows_at_most(s, b),
        x.minutes <= b,
    ensures
        rows_at_most(insert_desc(s, x), b),
        insert_desc(s, x).len() == s.len() + 1,
    decreases s.len(),
{
    if s.len() == 0 {
    } else if s[0].minutes >= x.minutes {
        assert(rows_at_most(s.skip(1), b)) by {
            assert(forall|i: int| 0 <= i < s.skip(1).len() ==> s.skip(1)[i] == s[i + 1]);
        }
        lemma_insert_desc_le(s.skip(1), x, b);
        let r = seq![s[0]] + insert_desc(s.skip(1), x);
        assert(forall|i: int|
            1 <= i < r.len() ==> r[i] == insert_desc(s.skip(1), x)[i - 1]);
    } else {
    }
}

proof fn lemma_insert_desc_sorted(s: Seq<RowView>, x: RowView)
    requires
        sorted_desc(s),
    ensures
        sorted_desc(insert_desc(s, x)),
        insert_desc(s, x).len() == s.len() + 1,
    decreases s.len(),
{
    if s.len() == 0 {
    } else if s[0].minutes >= x.minutes {
        let tail = s.skip(1);
        assert(forall|i: int| 0 <= i < tail.len() ==> tail[i] == s[i + 1]);
        assert(sorted_desc(tail));
        lemma_insert_desc_sorted(tail, x);
        assert(rows_at_most(tail, s[0].minutes));
        lemma_insert_desc_le(tail, x, s[0].minutes);
        let r = seq![s[0]] + insert_desc(tail, x);
        assert(forall|i: int| 1 <= i < r.len() ==> r[i] == insert_desc(tail, x)[i - 1]);
        assert(sorted_desc(r));
    } else {
        let r = seq![x] + s;
        assert(forall|i: int| 1 <= i < r.len() ==> r[i] == s[i - 1]);
        assert(forall|i: int| 1 <= i < r.len() ==> r[i].minutes <= s[0].minutes);
        assert(sorted_desc(r));
    }
}

proof fn lemma_sort_desc_sorted(s: Seq<RowView>)
    ensures
        sorted_desc(sort_desc(s)),
        sort_desc(s).len() == s.len(),
    decreases s.len(),
{
    if s.len() > 0 {
        lemma_sort_desc_sorted(s.drop_last());
        lemma_insert_desc_sorted(sort_desc(s.drop_last()), s.last());
    }
}

/// `insert_desc` puts `x` exactly at the first position whose row has fewer
/// minutes.
proof fn lemma_insert_desc_at(s: Seq<RowView>, x: RowView, pos: int)
    requires
        sorted_desc(s),
        0 <= pos <= s.len(),
        forall|j: int| 0 <= j < pos ==> (#[trigger] s[j]).minutes >= x.minutes,
        pos < s.len() ==> s[pos].minutes < x.minutes,
    ensures
        insert_desc(s, x) == s.insert(pos, x),
    decreases s.len(),
{
    if s.len() == 0 {
        assert(insert_desc(s, x) =~= s.insert(0, x));
    } else if s[0].minutes >= x.minutes {
        let tail = s.skip(1);
        assert(forall|i: int| 0 <= i < tail.len() ==> tail[i] == s[i + 1]);
        assert(pos >= 1) by {
            if pos == 0 {
                assert(s[0].minutes < x.minutes);
            }
        }
        lemma_insert_desc_at(tail, x, pos - 1);
        assert(seq![s[0]] + tail.insert(pos - 1, x) =~= s.insert(pos, x));
    } else {
        assert(pos == 0) by {
            if pos >= 1 {
                assert(s[0].minutes >= x.minutes);
            }
        }
        assert(seq![x] + s =~= s.insert(0, x));
    }
}

/// Sorts query rows by accumulated minutes, descending and stable.
fn sort_rows(v: Vec<TaskTotal>) -> (r: Vec<TaskTotal>)
    ensures
        views_of(r@) == sort_desc(views_of(v@)),
{
    let ghost rows = views_of(v@);
    let mut out: Vec<TaskTotal> = Vec::new();
    let n = v.len();
    let mut i: usize = 0;
    proof {
        assert(rows.take(0) =~= Seq::<RowView>::empty());
        assert(views_of(out@) =~= sort_desc(rows.take(0)));
    }
    while i < n
        invariant
            n == v.len(),
            i <= n,
            rows == views_of(v@),
            views_of(out@) == sort_desc(rows.take(i as int)),
            sorted_desc(views_of(out@)),
        decreases n - i,
    {
        let x = TaskTotal { name: v[i].name.clone(), minutes: v[i].minutes };
        proof {
            assert(x@ == rows[i as int]);
        }
        let m = out.len();
        let mut pos: usize = 0;
        while pos < m && out[pos].minutes >= x.minutes
            invariant
                m == out.len(),
                pos <= m,
                forall|j: int| 0 <= j < pos ==> (#[trigger] out@[j]).minutes >= x.minutes,
            decreases m - pos,
        {
            pos = pos + 1;
        }
        let ghost s = views_of(out@);
        proof {
            assert(forall|j: int| 0 <= j < s.len() ==> s[j] == (#[trigger] out@[j])@);
            lemma_insert_desc_at(s, x@, pos as int);
            lemma_insert_desc_sorted(s, x@);
        }
        out.insert(pos, x);
        proof {
            assert(views_of(out@) =~= s.insert(pos as int, x@));
            assert(rows.take(i + 1).drop_last() =~= rows.take(i as int));
            assert(rows.take(i + 1).last() == rows[i as int]);
            assert(sort_desc(rows.take(i + 1)) == insert_desc(
                sort_desc(rows.take(i as int)),
                rows[i as int],
            ));
        }
        i = i + 1;
    }
    proof {
        assert(rows.take(n as int) =~= rows);
    }
    out
}

impl ShiganConfig {
    /// Reports accumulated totals: for `All`, every task sorted by total
    /// descending (ties keep registry order); for `Named`, the one matching
    /// task, or `TaskNotFound`. Read-only.
    pub fn query(&self, filter: &QueryFilter) -> (r: Result<Vec<TaskTotal>, TrackerError>)
        ensures
            match r {
                Ok(v) => query_result(self@, *filter) matches Ok(rows) && views_of(v@) == rows,
                Err(e) => query_result(self@, *filter) == Err::<Seq<RowView>, TrackerError>(e),
            },
    {
        match filter {
            QueryFilter::All => {
                let mut rows: Vec<TaskTotal> = Vec::new();
                let n = self.subjects.len();
                let mut i: usize = 0;
                proof {
                    assert(views_of(rows@) =~= rows_of(self@.subjects).take(0));
                }
                while i < n
                    invariant
                        n == self.subjects.len(),
                        i <= n,
                        views_of(rows@) == rows_of(self@.subjects).take(
                            i as int,
                        ),
                    decreases n - i,
                {
                    let t = &self.subjects[i];
                    let x = TaskTotal { name: t.name.clone(), minutes: t.minutes };
                    proof {
                        assert(self@.subjects[i as int] == self.subjects@[i as int]@);
                        assert(x@ == row_of(self@.subjects[i as int]));
                        assert(views_of(rows@).len() == i as int);
                        assert(rows@.len() == i as int);
                    }
                    rows.push(x);
                    proof {
                        let target = rows_of(self@.subjects).take(i + 1);
                        assert(target.len() == i + 1);
                        assert forall|j: int| 0 <= j < views_of(rows@).len() implies views_of(
                            rows@,
                        )[j] == target[j] by {
                            assert(target[j] == rows_of(self@.subjects)[j]);
                            if j < i {
                                assert(views_of(rows@)[j] == rows_of(self@.subjects).take(
                                    i as int,
                                )[j]);
                            } else {
                                assert(views_of(rows@)[j] == x@);
                            }
                        }
                        assert(views_of(rows@) =~= target);
                    }
                    i = i + 1;
                }
                proof {
                    assert(rows_of(self@.subjects).take(n as int) =~= rows_of(self@.subjects));
                }
                Ok(sort_rows(rows))
            },
            QueryFilter::Named(s) => {
                let lname = lowercase(s.as_str());
                match self.index_of(&lname) {
                    None => Err(TrackerError::TaskNotFound),
                    Some(k) => {
                        proof {
                            lemma_find_task_props(self@.subjects, lname@);
                        }
                        let t = &self.subjects[k];
                        let mut one: Vec<TaskTotal> = Vec::new();
                        one.push(TaskTotal { name: t.name.clone(), minutes: t.minutes });
                        proof {
                            assert(views_of(one@) =~= seq![
                                row_of(self@.subjects[k as int]),
                            ]);
                        }
                        Ok(one)
                    },
                }
            },
        }
    }

    /// The index of the first task with this (already normalized) name.
    pub fn index_of(&self, name: &String) -> (r: Option<usize>)
        ensures
            match r {
                Some(k) => find_task(self@.subjects, name@) == Some(k as int),
                None => find_task(self@.subjects, name@) is None,
            },
    {
        let n = self.subjects.len();
        let mut k: usize = 0;
        while k < n
            invariant
                n == self.subjects.len(),
                k <= n,
                forall|j: int| 0 <= j < k ==> (#[trigger] self@.subjects[j]).name != name@,
            decreases n - k,
        {
            if self.subjects[k].name == *name {
                proof {
                    assert(self@.subjects[k as int].name == name@);
                    lemma_find_task_at(self@.subjects, name@, k as int);
                }
                return Some(k);
            }
            k = k + 1;
        }
        proof {
            lemma_find_task_none(self@.subjects, name@);
        }
        None
    }

    /// Registers a task under the case-normalized name; fails if the name is
    /// already present and then leaves the document unchanged.
    pub fn add_task(&mut self, name: &str) -> (r: Result<(), TrackerError>)
        ensures
            final(self)@ == add_result(old(self)@, lower_of(name@)).0,
            r == add_result(old(self)@, lower_of(name@)).1,
    {
        let lname = lowercase(name);
        if self.task_exists(&lname) {
            Err(TrackerError::TaskAlreadyExists)
        } else {
            let t = Task { name: lname, minutes: 0, sessions: Vec::new() };
            proof {
                assert(t@ =~= fresh_task(lower_of(name@)));
            }
            self.subjects.push(t);
            proof {
                assert(self@ =~= add_result(old(self)@, lower_of(name@)).0);
            }
            Ok(())
        }
    }

    /// Removes the task with the case-normalized name together with its whole
    /// session history; fails if that task is being timed or is not
    /// registered, and then leaves the document unchanged.
    pub fn delete_task(&mut self, name: &str) -> (r: Result<(), TrackerError>)
        ensures
            final(self)@ == delete_result(old(self)@, lower_of(name@)).0,
            r == delete_result(old(self)@, lower_of(name@)).1,
    {
        let lname = lowercase(name);
        let running = match &self.current {
            Some(a) => a.task == lname,
            None => false,
        };
        if running {
            return Err(TrackerError::TaskIsActive);
        }
        match self.index_of(&lname) {
            None => Err(TrackerError::TaskNotFound),
            Some(k) => {
                proof {
                    lemma_find_task_props(self@.subjects, lname@);
                    assert(k < self.subjects@.len());
                }
                self.subjects.remove(k);
                proof {
                    assert(self@.subjects =~= delete_result(old(self)@, lower_of(name@)).0.subjects);
                    assert(self@ =~= delete_result(old(self)@, lower_of(name@)).0);
                }
                Ok(())
            },
        }
    }

    /// Starts timing the task with the case-normalized name at moment `now`;
    /// fails if the task is unknown or some session is already running, and
    /// then leaves the document unchanged.
    pub fn start_task_at(&mut self, name: &str, now: i64) -> (r: Result<(), TrackerError>)
        requires
            0 <= now <= MAX_EPOCH_SECS,
        ensures
            final(self)@ == start_result(old(self)@, lower_of(name@), now).0,
            r == start_result(old(self)@, lower_of(name@), now).1,
    {
        let lname = lowercase(name);
        if !self.task_exists(&lname) {
            return Err(TrackerError::TaskNotFound);
        }
        if self.current.is_some() {
            return Err(TrackerError::SessionAlreadyActive);
        }
        let st = format_rfc3339(now);
        self.current = Some(ActiveSession { task: lname, started: st });
        proof {
            assert(self@ =~= start_result(old(self)@, lower_of(name@), now).0);
        }
        Ok(())
    }

    /// Starts timing the named task at the current clock reading.
    pub fn start_task(&mut self, name: &str) -> (r: Result<(), TrackerError>)
        ensures
            exists|now: i64|
                0 <= now <= MAX_EPOCH_SECS && final(self)@ == start_result(
                    old(self)@,
                    lower_of(name@),
                    now,
                ).0 && r == start_result(old(self)@, lower_of(name@), now).1,
    {
        let now = current_epoch_secs();
        let r = self.start_task_at(name, now);
        proof {
            assert(0 <= now <= MAX_EPOCH_SECS && final(self)@ == start_result(
                old(self)@,
                lower_of(name@),
                now,
            ).0 && r == start_result(old(self)@, lower_of(name@), now).1);
        }
        r
    }

    /// Ends the running session at moment `now`: appends one fully populated
    /// session record to the active task, folds the elapsed whole minutes
    /// into its total, and clears the marker. Fails — leaving the document
    /// unchanged — if nothing is running, if the marker's task is no longer
    /// registered, or if its recorded start does not parse back.
    pub fn stop_task_at(&mut self, now: i64) -> (r: Result<(), TrackerError>)
        requires
            0 <= now <= MAX_EPOCH_SECS,
        ensures
            final(self)@ == stop_result(old(self)@, now).0,
            r == stop_result(old(self)@, now).1,
    {
        let (tname, started) = match &self.current {
            None => {
                return Err(TrackerError::NoActiveSession);
            },
            Some(a) => (a.task.clone(), a.started.clone()),
        };
        let idx = match self.index_of(&tname) {
            None => {
                return Err(TrackerError::TaskNotFound);
            },
            Some(k) => k,
        };
        let t0 = match parse_rfc3339(started.as_str()) {
            None => {
                return Err(TrackerError::CorruptData);
            },
            Some(t0) => t0,
        };
        proof {
            lemma_find_task_props(self@.subjects, tname@);
            assert(idx < self.subjects@.len());
        }
        let dur = elapsed_secs(t0, now);
        let ended = format_rfc3339(now);
        let dur_chars = format_hms(dur);
        let duration = chars_string(&dur_chars);
        let sess = Session { started: started, ended: ended, duration: duration };
        let mut t = self.subjects.remove(idx);
        t.sessions.push(sess);
        t.minutes = match t.minutes.checked_add((dur / 60) as u64) {
            Some(m) => m,
            None => u64::MAX,
        };
        self.subjects.insert(idx, t);
        self.current = None;
        proof {
            let target = stop_result(old(self)@, now).0;
            assert(self@.subjects =~~= target.subjects);
            assert(self@ =~~= target);
        }
        Ok(())
    }

    /// Ends the running session at the current clock reading.
    pub fn stop_task(&mut self) -> (r: Result<(), TrackerError>)
        ensures
            exists|now: i64|
                0 <= now <= MAX_EPOCH_SECS && final(self)@ == stop_result(old(self)@, now).0 && r
                    == stop_result(old(self)@, now).1,
    {
        let now = current_epoch_secs();
        let r = self.stop_task_at(now);
        proof {
            assert(0 <= now <= MAX_EPOCH_SECS && final(self)@ == stop_result(old(self)@, now).0
                && r == stop_result(old(self)@, now).1);
        }
        r
    }

    /// The name of the task being timed, if any.
    pub fn current_task(&self) -> (r: Option<&String>)
        ensures
            match self@.current {
                Some(a) => r matches Some(n) && n@ == a.task,
                None => r is None,
            },
    {
        match &self.current {
            Some(a) => Some(&a.task),
            None => None,
        }
    }
}

// ------------------------------------------------------------------
// Laws of the engine.
// ------------------------------------------------------------------
/// The registry after a whole run of `add_task` calls.
pub open spec fn add_all(d: DocView, names: Seq<Seq<char>>) -> DocView
    decreases names.len(),
{
    if names.len() == 0 {
        d
    } else {
        add_all(add_result(d, names[0]).0, names.skip(1))
    }
}

/// The fresh tasks for a run of names.
pub open spec fn fresh_tasks(names: Seq<Seq<char>>) -> Seq<TaskView> {
    names.map_values(|n: Seq<char>| fresh_task(n))
}

proof fn lemma_add_all_extends(d: DocView, names: Seq<Seq<char>>)
    requires
        forall|i: int, j: int| 0 <= i < j < names.len() ==> names[i] != names[j],
        forall|i: int| 0 <= i < names.len() ==> find_task(d.subjects, #[trigger] names[i]) is None,
    ensures
        add_all(d, names).current == d.current,
        add_all(d, names).subjects == d.subjects + fresh_tasks(names),
    decreases names.len(),
{
    if names.len() == 0 {
        assert(d.subjects + fresh_tasks(names) =~= d.subjects);
    } else {
        let n0 = names[0];
        let d1 = add_result(d, n0).0;
        assert(d1.subjects == d.subjects.push(fresh_task(n0)));
        assert(forall|i: int, j: int|
            0 <= i < j < names.skip(1).len() ==> names.skip(1)[i] != names.skip(1)[j]) by {
            assert(forall|i: int| 0 <= i < names.skip(1).len() ==> names.skip(1)[i] == names[i + 1]);
        }
        assert forall|i: int| 0 <= i < names.skip(1).len() implies find_task(
            d1.subjects,
            #[trigger] names.skip(1)[i],
        ) is None by {
            assert(names.skip(1)[i] == names[i + 1]);
            assert(find_task(d.subjects, names[i + 1]) is None);
            assert(names[i + 1] != n0);
            lemma_find_task_push(d.subjects, fresh_task(n0), names[i + 1]);
        }
        lemma_add_all_extends(d1, names.skip(1));
        assert(d1.subjects + fresh_tasks(names.skip(1)) =~= d.subjects + fresh_tasks(names));
    }
}

/// Law: adding any run of names with distinct normalized forms to an empty
/// registry registers exactly those names, in order, each with zero
/// accumulated time and no sessions.
pub proof fn lemma_registry_after_adds(names: Seq<Seq<char>>)
    requires
        forall|i: int, j: int| 0 <= i < j < names.len() ==> names[i] != names[j],
    ensures
        add_all(empty_doc(), names).current is None,
        add_all(empty_doc(), names).subjects.len() == names.len(),
        forall|k: int|
            0 <= k < names.len() ==> add_all(empty_doc(), names).subjects[k] == fresh_task(
                #[trigger] names[k],
            ),
{
    assert(forall|i: int|
        0 <= i < names.len() ==> find_task(empty_doc().subjects, #[trigger] names[i]) is None);
    lemma_add_all_extends(empty_doc(), names);
    assert(empty_doc().subjects + fresh_tasks(names) =~= fresh_tasks(names));
}

/// Law: registering the same normalized name twice fails the second call
/// with `TaskAlreadyExists` and leaves the document unchanged.
pub proof fn lemma_add_twice(d: DocView, n: Seq<char>)
    requires
        add_result(d, n).1 is Ok,
    ensures
        ({
            let d1 = add_result(d, n).0;
            add_result(d1, n) == (d1, Err::<(), TrackerError>(TrackerError::TaskAlreadyExists))
        }),
{
    lemma_find_task_push(d.subjects, fresh_task(n), n);
}

/// Law: starting a second task while one runs fails with
/// `SessionAlreadyActive`, and the marker still references the first task.
pub proof fn lemma_start_then_start(d: DocView, x: Seq<char>, y: Seq<char>, t1: i64, t2: i64)
    requires
        start_result(d, x, t1).1 is Ok,
        find_task(d.subjects, y) is Some,
    ensures
        ({
            let d1 = start_result(d, x, t1).0;
            &&& d1.current == Some(ActiveView { task: x, started: rfc3339_of(t1) })
            &&& start_result(d1, y, t2) == (
                d1,
                Err::<(), TrackerError>(TrackerError::SessionAlreadyActive),
            )
        }),
{
}

/// Law: stopping with no running session fails with `NoActiveSession` and
/// leaves the document unchanged.
pub proof fn lemma_stop_without_active(d: DocView, now: i64)
    requires
        d.current is None,
    ensures
        stop_result(d, now) == (d, Err::<(), TrackerError>(TrackerError::NoActiveSession)),
{
}

/// Law: deleting the task that is being timed fails with `TaskIsActive` and
/// leaves the document unchanged.
pub proof fn lemma_delete_active(d: DocView, x: Seq<char>)
    requires
        is_active(d, x),
    ensures
        delete_result(d, x) == (d, Err::<(), TrackerError>(TrackerError::TaskIsActive)),
{
}

/// Law: starting task `x` at `t1` and stopping at `t2` appends exactly one
/// session to `x` — with the recorded start it was given, the end instant,
/// and the `Hh Mm Ss` breakdown of `t2 - t1` — adds the elapsed whole
/// minutes (capped at what a `u64` holds) to its total, and clears the
/// marker. This holds whenever the marker's recorded start parses back to
/// the instant it was written from, which the time bridges guarantee of
/// every value they produce.
pub proof fn lemma_start_then_stop(d: DocView, x: Seq<char>, t1: i64, t2: i64)
    requires
        d.current is None,
        find_task(d.subjects, x) is Some,
        0 <= t1 <= t2 <= MAX_EPOCH_SECS,
    ensures
        start_result(d, x, t1).1 is Ok,
        ({
            let d1 = start_result(d, x, t1).0;
            let i = find_task(d.subjects, x).unwrap();
            rfc3339_secs(rfc3339_of(t1)) == Some(t1) ==> {
                &&& stop_result(d1, t2).1 is Ok
                &&& stop_result(d1, t2).0.current is None
                &&& stop_result(d1, t2).0.subjects == d.subjects.update(
                    i,
                    TaskView {
                        name: d.subjects[i].name,
                        minutes: minutes_plus(d.subjects[i].minutes, (t2 - t1) / 60),
                        sessions: d.subjects[i].sessions.push(
                            SessionView {
                                started: rfc3339_of(t1),
                                ended: rfc3339_of(t2),
                                duration: hms_text(t2 - t1),
                            },
                        ),
                    },
                )
            }
        }),
{
    let d1 = start_result(d, x, t1).0;
    assert(d1.current == Some(ActiveView { task: x, started: rfc3339_of(t1) }));
    if rfc3339_secs(rfc3339_of(t1)) == Some(t1) {
        let i = find_task(d.subjects, x).unwrap();
        lemma_find_task_props(d.subjects, x);
        assert(elapsed_spec(t1 as int, t2 as int) == t2 - t1);
        assert(stop_result(d1, t2).0.subjects == d.subjects.update(
            i,
            task_after_session(d.subjects[i], rfc3339_of(t1), t2, t2 - t1),
        ));
        assert(task_after_session(d.subjects[i], rfc3339_of(t1), t2, t2 - t1) =~= TaskView {
            name: d.subjects[i].name,
            minutes: minutes_plus(d.subjects[i].minutes, (t2 - t1) / 60),
            sessions: d.subjects[i].sessions.push(
                SessionView {
                    started: rfc3339_of(t1),
                    ended: rfc3339_of(t2),
                    duration: hms_text(t2 - t1),
                },
            ),
        });
    }
}

/// The index of the first row with the given name, if any.
pub open spec fn find_row(s: Seq<RowView>, name: Seq<char>) -> Option<int>
    decreases s.len(),
{
    if s.len() == 0 {
        None
    } else if s[0].name == name {
        Some(0)
    } else {
        match find_row(s.skip(1), name) {
            Some(i) => Some(i + 1),
            None => None,
        }
    }
}

proof fn lemma_find_row_props(s: Seq<RowView>, name: Seq<char>)
    ensures
        match find_row(s, name) {
            Some(i) => 0 <= i < s.len() && s[i].name == name && forall|j: int|
                0 <= j < i ==> s[j].name != name,
            None => forall|j: int| 0 <= j < s.len() ==> s[j].name != name,
        },
    decreases s.len(),
{
    if s.len() > 0 && s[0].name != name {
        lemma_find_row_props(s.skip(1), name);
        match find_row(s.skip(1), name) {
            Some(i) => {
                assert(s[i + 1] == s.skip(1)[i]);
                assert forall|j: int| 0 <= j < i + 1 implies s[j].name != name by {
                    if j > 0 {
                        assert(s[j] == s.skip(1)[j - 1]);
                    }
                }
            },
            None => {
                assert forall|j: int| 0 <= j < s.len() implies s[j].name != name by {
                    if j > 0 {
                        assert(s[j] == s.skip(1)[j - 1]);
                    }
                }
            },
        }
    }
}

proof fn lemma_find_row_at(s: Seq<RowView>, name: Seq<char>, i: int)
    requires
        0 <= i < s.len(),
        s[i].name == name,
        forall|j: int| 0 <= j < i ==> s[j].name != name,
    ensures
        find_row(s, name) == Some(i),
    decreases s.len(),
{
    if i > 0 {
        assert(forall|j: int| 0 <= j < s.skip(1).len() ==> s.skip(1)[j] == s[j + 1]);
        lemma_find_row_at(s.skip(1), name, i - 1);
    }
}

/// Appending a row leaves earlier lookups alone.
proof fn lemma_find_row_push(s: Seq<RowView>, x: RowView, name: Seq<char>)
    ensures
        find_row(s, name) is Some ==> find_row(s.push(x), name) == find_row(s, name),
        find_row(s, name) is None && x.name == name ==> find_row(s.push(x), name) == Some(
            s.len() as int,
        ),
        find_row(s, name) is None && x.name != name ==> find_row(s.push(x), name) is None,
{
    lemma_find_row_props(s, name);
    match find_row(s, name) {
        Some(i) => {
            lemma_find_row_at(s.push(x), name, i);
        },
        None => {
            if x.name == name {
                lemma_find_row_at(s.push(x), name, s.len() as int);
            } else {
                lemma_find_row_props(s.push(x), name);
                if find_row(s.push(x), name) is Some {
                    let i = find_row(s.push(x), name).unwrap();
                    assert(s.push(x)[i].name == name);
                }
            }
        },
    }
}

proof fn lemma_insert_desc_multiset(s: Seq<RowView>, x: RowView)
    ensures
        insert_desc(s, x).to_multiset() =~= s.to_multiset().insert(x),
    decreases s.len(),
{
    broadcast use vstd::seq_lib::group_to_multiset_ensures;
    broadcast use vstd::multiset::group_multiset_axioms;

    if s.len() == 0 {
        assert(seq![x] =~= Seq::<RowView>::empty().push(x));
        assert(Seq::<RowView>::empty().push(x).to_multiset() =~= Seq::<
            RowView,
        >::empty().to_multiset().insert(x));
        assert(s.to_multiset() =~= Seq::<RowView>::empty().to_multiset());
    } else if s[0].minutes >= x.minutes {
        lemma_insert_desc_multiset(s.skip(1), x);
        vstd::seq_lib::lemma_multiset_commutative(seq![s[0]], insert_desc(s.skip(1), x));
        vstd::seq_lib::lemma_multiset_commutative(seq![s[0]], s.skip(1));
        assert(s =~= seq![s[0]] + s.skip(1));
        assert(insert_desc(s, x).to_multiset() =~= seq![s[0]].to_multiset().add(
            s.skip(1).to_multiset().insert(x),
        ));
        assert(seq![s[0]].to_multiset().add(s.skip(1).to_multiset().insert(x)) =~= (seq![
            s[0],
        ].to_multiset().add(s.skip(1).to_multiset())).insert(x));
    } else {
        vstd::seq_lib::lemma_multiset_commutative(seq![x], s);
        assert(seq![x] =~= Seq::<RowView>::empty().push(x));
        assert(seq![x].to_multiset() =~= Seq::<RowView>::empty().to_multiset().insert(x));
        assert(insert_desc(s, x).to_multiset() =~= seq![x].to_multiset().add(s.to_multiset()));
        assert(seq![x].to_multiset().add(s.to_multiset()) =~= s.to_multiset().insert(x));
    }
}

proof fn lemma_sort_desc_perm(s: Seq<RowView>)
    ensures
        sort_desc(s).to_multiset() =~= s.to_multiset(),
    decreases s.len(),
{
    broadcast use vstd::seq_lib::group_to_multiset_ensures;
    broadcast use vstd::multiset::group_multiset_axioms;

    if s.len() > 0 {
        lemma_sort_desc_perm(s.drop_last());
        lemma_insert_desc_multiset(sort_desc(s.drop_last()), s.last());
        assert(s =~= s.drop_last().push(s.last()));
        assert(s.drop_last().push(s.last()).to_multiset() =~= s.drop_last().to_multiset().insert(
            s.last(),
        ));
    }
}

/// `insert_desc` is insertion at the first position with fewer minutes.
proof fn lemma_insert_desc_position(s: Seq<RowView>, x: RowView)
    requires
        sorted_desc(s),
    ensures
        exists|pos: int|
            {
                &&& 0 <= pos <= s.len()
                &&& #[trigger] insert_desc(s, x) == s.insert(pos, x)
                &&& forall|j: int| 0 <= j < pos ==> (#[trigger] s[j]).minutes >= x.minutes
                &&& (pos < s.len() ==> s[pos].minutes < x.minutes)
            },
    decreases s.len(),
{
    if s.len() == 0 {
        assert(insert_desc(s, x) =~= s.insert(0, x));
        assert({
            &&& 0 <= 0 <= s.len()
            &&& insert_desc(s, x) == s.insert(0, x)
            &&& forall|j: int| 0 <= j < 0 ==> (#[trigger] s[j]).minutes >= x.minutes
            &&& (0 < s.len() ==> s[0].minutes < x.minutes)
        });
    } else if s[0].minutes >= x.minutes {
        let tail = s.skip(1);
        assert(forall|i: int| 0 <= i < tail.len() ==> tail[i] == s[i + 1]);
        assert(sorted_desc(tail));
        lemma_insert_desc_position(tail, x);
        let pos0 = choose|pos: int|
            {
                &&& 0 <= pos <= tail.len()
                &&& #[trigger] insert_desc(tail, x) == tail.insert(pos, x)
                &&& forall|j: int| 0 <= j < pos ==> (#[trigger] tail[j]).minutes >= x.minutes
                &&& (pos < tail.len() ==> tail[pos].minutes < x.minutes)
            };
        assert(seq![s[0]] + tail.insert(pos0, x) =~= s.insert(pos0 + 1, x));
        assert(insert_desc(s, x) == seq![s[0]] + insert_desc(tail, x));
        assert(insert_desc(s, x) == s.insert(pos0 + 1, x));
        assert forall|j: int| 0 <= j < pos0 + 1 implies (#[trigger] s[j]).minutes >= x.minutes by {
            if j > 0 {
                assert(s[j] == tail[j - 1]);
                assert(tail[j - 1].minutes >= x.minutes);
            }
        }
        assert(pos0 + 1 < s.len() ==> s[pos0 + 1] == tail[pos0] && s[pos0 + 1].minutes
            < x.minutes);
        assert({
            &&& 0 <= pos0 + 1 <= s.len()
            &&& insert_desc(s, x) == s.insert(pos0 + 1, x)
            &&& forall|j: int| 0 <= j < pos0 + 1 ==> (#[trigger] s[j]).minutes >= x.minutes
            &&& (pos0 + 1 < s.len() ==> s[pos0 + 1].minutes < x.minutes)
        });
    } else {
        assert(seq![x] + s =~= s.insert(0, x));
        assert({
            &&& 0 <= 0 <= s.len()
            &&& insert_desc(s, x) == s.insert(0, x)
            &&& forall|j: int| 0 <= j < 0 ==> (#[trigger] s[j]).minutes >= x.minutes
            &&& (0 < s.len() ==> s[0].minutes < x.minutes)
        });
    }
}

/// Law: sorting for the full query is a permutation, descending in
/// accumulated minutes, and stable — rows with equal totals keep the order
/// their tasks were registered in (stated through first-occurrence indices
/// in the unsorted row run, whose names are distinct).
pub proof fn lemma_query_all_order(s: Seq<RowView>)
    requires
        forall|i: int, j: int|
            0 <= i < j < s.len() ==> (#[trigger] s[i]).name != (#[trigger] s[j]).name,
    ensures
        sort_desc(s).len() == s.len(),
        sort_desc(s).to_multiset() =~= s.to_multiset(),
        sorted_desc(sort_desc(s)),
        forall|p: int, q: int|
            0 <= p < q < sort_desc(s).len() && (#[trigger] sort_desc(s)[p]).minutes == (
            #[trigger] sort_desc(s)[q]).minutes ==> {
                &&& find_row(s, sort_desc(s)[p].name) is Some
                &&& find_row(s, sort_desc(s)[q].name) is Some
                &&& find_row(s, sort_desc(s)[p].name).unwrap() < find_row(
                    s,
                    sort_desc(s)[q].name,
                ).unwrap()
            },
    decreases s.len(),
{
    broadcast use vstd::seq_lib::group_to_multiset_ensures;
    broadcast use vstd::multiset::group_multiset_axioms;

    lemma_sort_desc_sorted(s);
    lemma_sort_desc_perm(s);
    if s.len() == 0 {
    } else {
        let pre = s.drop_last();
        let x = s.last();
        let rp = sort_desc(pre);
        let r = sort_desc(s);
        assert(forall|i: int, j: int|
            0 <= i < j < pre.len() ==> (#[trigger] pre[i]).name != (#[trigger] pre[j]).name) by {
            assert(forall|i: int| 0 <= i < pre.len() ==> pre[i] == s[i]);
        }
        lemma_query_all_order(pre);
        lemma_sort_desc_sorted(pre);
        lemma_sort_desc_perm(pre);
        lemma_insert_desc_position(rp, x);
        let pos = choose|pos: int|
            {
                &&& 0 <= pos <= rp.len()
                &&& #[trigger] insert_desc(rp, x) == rp.insert(pos, x)
                &&& forall|j: int| 0 <= j < pos ==> (#[trigger] rp[j]).minutes >= x.minutes
                &&& (pos < rp.len() ==> rp[pos].minutes < x.minutes)
            };
        assert(r == rp.insert(pos, x));
        rp.insert_ensures(pos, x);
        // every sorted-prefix row sits somewhere in pre
        assert forall|k: int| 0 <= k < rp.len() implies exists|m: int|
            0 <= m < pre.len() && pre[m] == #[trigger] rp[k] by {
            assert(rp.to_multiset().count(rp[k]) > 0);
            assert(pre.to_multiset().count(rp[k]) > 0);
            assert(pre.contains(rp[k]));
        }
        // x's name is fresh in pre
        assert(forall|m: int| 0 <= m < pre.len() ==> (#[trigger] pre[m]).name != x.name) by {
            assert(forall|m: int| 0 <= m < pre.len() ==> pre[m] == s[m] && x == s[s.len() - 1]);
        }
        lemma_find_row_props(pre, x.name);
        lemma_find_row_push(pre, x, x.name);
        assert(pre.push(x) =~= s);
        assert(find_row(s, x.name) == Some(pre.len() as int));
        assert forall|p: int, q: int|
            0 <= p < q < r.len() && (#[trigger] r[p]).minutes == (#[trigger] r[q]).minutes implies {
            &&& find_row(s, r[p].name) is Some
            &&& find_row(s, r[q].name) is Some
            &&& find_row(s, r[p].name).unwrap() < find_row(s, r[q].name).unwrap()
        } by {
            if p == pos {
                // rows after x have strictly fewer minutes: contradiction
                assert(r[q] == rp[q - 1]);
                assert(q - 1 >= pos);
                if pos < rp.len() {
                    assert(rp[q - 1].minutes <= rp[pos].minutes);
                    assert(rp[q - 1].minutes < x.minutes);
                }
                assert(false);
            } else if q == pos {
                assert(r[p] == rp[p]);
                let m = choose|m: int| 0 <= m < pre.len() && pre[m] == #[trigger] rp[p as int];
                lemma_find_row_props(pre, rp[p].name);
                if find_row(pre, rp[p].name) is None {
                    assert(pre[m].name == rp[p].name);
                    assert(false);
                }
                lemma_find_row_push(pre, x, rp[p].name);
                assert(find_row(s, rp[p].name) == find_row(pre, rp[p].name));
                lemma_find_row_props(s, rp[p].name);
                assert(find_row(pre, rp[p].name).unwrap() < pre.len());
            } else {
                let pp = if p < pos { p } else { p - 1 };
                let qq = if q < pos { q } else { q - 1 };
                assert(r[p] == rp[pp]);
                assert(r[q] == rp[qq]);
                assert(pp < qq);
                assert(find_row(pre, rp[pp].name) is Some);
                assert(find_row(pre, rp[qq].name) is Some);
                assert(find_row(pre, rp[pp].name).unwrap() < find_row(pre, rp[qq].name).unwrap());
                lemma_find_row_push(pre, x, rp[pp].name);
                lemma_find_row_push(pre, x, rp[qq].name);
                assert(find_row(s, rp[pp].name) == find_row(pre, rp[pp].name));
                assert(find_row(s, rp[qq].name) == find_row(pre, rp[qq].name));
            }
        }
    }
}

// ------------------------------------------------------------------
// The document invariant is preserved by every operation.
// ------------------------------------------------------------------
/// Law: `add_task` keeps the document well formed.
pub proof fn lemma_add_preserves_wf(d: DocView, n: Seq<char>)
    requires
        doc_wf(d),
    ensures
        doc_wf(add_result(d, n).0),
{
    if find_task(d.subjects, n) is None {
        lemma_find_task_props(d.subjects, n);
        let rs = d.subjects.push(fresh_task(n));
        assert(forall|i: int| 0 <= i < d.subjects.len() ==> rs[i] == d.subjects[i]);
        match d.current {
            Some(a) => {
                lemma_find_task_push(d.subjects, fresh_task(n), a.task);
            },
            None => {},
        }
    }
}

/// Law: `delete_task` keeps the document well formed.
pub proof fn lemma_delete_preserves_wf(d: DocView, n: Seq<char>)
    requires
        doc_wf(d),
    ensures
        doc_wf(delete_result(d, n).0),
{
    if !is_active(d, n) && find_task(d.subjects, n) is Some {
        let i = find_task(d.subjects, n).unwrap();
        lemma_find_task_props(d.subjects, n);
        let rs = d.subjects.remove(i);
        d.subjects.remove_ensures(i);
        assert(forall|k: int, l: int|
            0 <= k < l < rs.len() ==> (#[trigger] rs[k]).name != (#[trigger] rs[l]).name) by {
            assert(forall|k: int|
                0 <= k < rs.len() ==> rs[k] == (if k < i {
                    d.subjects[k]
                } else {
                    d.subjects[k + 1]
                }));
        }
        match d.current {
            Some(a) => {
                assert(a.task != n);
                let m = find_task(d.subjects, a.task).unwrap();
                lemma_find_task_props(d.subjects, a.task);
                assert(d.subjects[i].name == n);
                assert(m != i);
                let m2: int = if m < i {
                    m
                } else {
                    m - 1
                };
                assert(rs[m2] == d.subjects[m]);
                assert forall|j: int| 0 <= j < m2 implies rs[j].name != a.task by {
                    if j < i {
                        assert(rs[j] == d.subjects[j]);
                    } else {
                        assert(rs[j] == d.subjects[j + 1]);
                    }
                }
                lemma_find_task_at(rs, a.task, m2);
            },
            None => {},
        }
    }
}

/// Law: `start_task` keeps the document well formed.
pub proof fn lemma_start_preserves_wf(d: DocView, n: Seq<char>, now: i64)
    requires
        doc_wf(d),
    ensures
        doc_wf(start_result(d, n, now).0),
{
}

/// Law: `stop_task` keeps the document well formed.
pub proof fn lemma_stop_preserves_wf(d: DocView, now: i64)
    requires
        doc_wf(d),
    ensures
        doc_wf(stop_result(d, now).0),
{
    match d.current {
        Some(a) => {
            match find_task(d.subjects, a.task) {
                Some(i) => {
                    lemma_find_task_props(d.subjects, a.task);
                    let d2 = stop_result(d, now).0;
                    if stop_result(d, now).1 is Ok {
                        assert(forall|k: int|
                            0 <= k < d2.subjects.len() ==> (#[trigger] d2.subjects[k]).name
                                == d.subjects[k].name);
                    }
                },
                None => {},
            }
        },
        None => {},
    }
}

} // verus!
