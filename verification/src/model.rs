//! The persisted document: the task registry and the at-most-one active
//! session marker, with their mathematical views.

use vstd::prelude::*;

verus! {

/// One completed start-to-stop interval, immutable once recorded.
pub struct Session {
    /// RFC 3339 text of the moment the session began.
    pub started: String,
    /// RFC 3339 text of the moment the session ended.
    pub ended: String,
    /// The display breakdown of the length, as in `0h 1m 30s`.
    pub duration: String,
}

/// A named unit of work whose time is tracked.
pub struct Task {
    /// Case-normalized name, unique within the registry.
    pub name: String,
    /// Accumulated whole minutes folded in from completed sessions.
    pub minutes: u64,
    /// Completed sessions, in chronological (insertion) order.
    pub sessions: Vec<Session>,
}

/// The system-wide marker for the currently running session.
pub struct ActiveSession {
    /// Name of the task being timed.
    pub task: String,
    /// RFC 3339 text of the moment the run began.
    pub started: String,
}

/// The whole persisted state: registry plus active marker.
pub struct ShiganConfig {
    /// The running session, if any.
    pub current: Option<ActiveSession>,
    /// The task registry, in insertion order.
    pub subjects: Vec<Task>,
}

#[verifier::ext_equal]
pub ghost struct SessionView {
    pub started: Seq<char>,
    pub ended: Seq<char>,
    pub duration: Seq<char>,
}

#[verifier::ext_equal]
pub ghost struct TaskView {
    pub name: Seq<char>,
    pub minutes: u64,
    pub sessions: Seq<SessionView>,
}

#[verifier::ext_equal]
pub ghost struct ActiveView {
    pub task: Seq<char>,
    pub started: Seq<char>,
}

#[verifier::ext_equal]
pub ghost struct DocView {
    pub current: Option<ActiveView>,
    pub subjects: Seq<TaskView>,
}

/// The marker's ghost record, if it is set.
pub open spec fn active_view(c: Option<ActiveSession>) -> Option<ActiveView> {
    match c {
        Option::Some(a) => Option::Some(a@),
        Option::None => Option::None,
    }
}

/// The ghost records of a vector of sessions.
pub open spec fn session_views(ss: Seq<Session>) -> Seq<SessionView> {
    ss.map_values(|s: Session| s@)
}

/// The ghost records of a vector of tasks.
pub open spec fn task_views(ts: Seq<Task>) -> Seq<TaskView> {
    ts.map_values(|t: Task| t@)
}

impl View for Session {
    type V = SessionView;

    open spec fn view(&self) -> SessionView {
        SessionView { started: self.started@, ended: self.ended@, duration: self.duration@ }
    }
}

impl View for Task {
    type V = TaskView;

    open spec fn view(&self) -> TaskView {
        TaskView {
            name: self.name@,
            minutes: self.minutes,
            sessions: session_views(self.sessions@),
        }
    }
}

impl View for ActiveSession {
    type V = ActiveView;

    open spec fn view(&self) -> ActiveView {
        ActiveView { task: self.task@, started: self.started@ }
    }
}

impl View for ShiganConfig {
    type V = DocView;

    open spec fn view(&self) -> DocView {
        DocView { current: active_view(self.current), subjects: task_views(self.subjects@) }
    }
}

/// The state of first use: no tasks, no running session.
pub open spec fn empty_doc() -> DocView {
    DocView { current: Option::None, subjects: Seq::empty() }
}

impl ShiganConfig {
    /// A document in the state of first use; well formed from the start.
    pub fn new_empty() -> (r: ShiganConfig)
        ensures
            r@ == empty_doc(),
            doc_wf(r@),
    {
        let d = ShiganConfig { current: Option::None, subjects: Vec::new() };
        proof {
            assert(d@ =~= empty_doc());
        }
        d
    }
}

/// The index of the first task with the given name, if any.
pub open spec fn find_task(ts: Seq<TaskView>, name: Seq<char>) -> Option<int>
    decreases ts.len(),
{
    if ts.len() == 0 {
        None
    } else if ts[0].name == name {
        Some(0)
    } else {
        match find_task(ts.skip(1), name) {
            Some(i) => Some(i + 1),
            None => None,
        }
    }
}

pub proof fn lemma_find_task_props(ts: Seq<TaskView>, name: Seq<char>)
    ensures
        match find_task(ts, name) {
            Some(i) => 0 <= i < ts.len() && ts[i].name == name && forall|j: int|
                0 <= j < i ==> ts[j].name != name,
            None => forall|j: int| 0 <= j < ts.len() ==> ts[j].name != name,
        },
    decreases ts.len(),
{
    if ts.len() > 0 && ts[0].name != name {
        lemma_find_task_props(ts.skip(1), name);
        match find_task(ts.skip(1), name) {
            Some(i) => {
                assert(ts[i + 1] == ts.skip(1)[i]);
                assert forall|j: int| 0 <= j < i + 1 implies ts[j].name != name by {
                    if j > 0 {
                        assert(ts[j] == ts.skip(1)[j - 1]);
                    }
                }
            },
            None => {
                assert forall|j: int| 0 <= j < ts.len() implies ts[j].name != name by {
                    if j > 0 {
                        assert(ts[j] == ts.skip(1)[j - 1]);
                    }
                }
            },
        }
    }
}

/// The first index with a matching name determines `find_task`.
pub proof fn lemma_find_task_at(ts: Seq<TaskView>, name: Seq<char>, i: int)
    requires
        0 <= i < ts.len(),
        ts[i].name == name,
        forall|j: int| 0 <= j < i ==> ts[j].name != name,
    ensures
        find_task(ts, name) == Some(i),
    decreases ts.len(),
{
    if i > 0 {
        assert(forall|j: int| 0 <= j < ts.skip(1).len() ==> ts.skip(1)[j] == ts[j + 1]);
        lemma_find_task_at(ts.skip(1), name, i - 1);
    }
}

pub proof fn lemma_find_task_none(ts: Seq<TaskView>, name: Seq<char>)
    requires
        forall|j: int| 0 <= j < ts.len() ==> ts[j].name != name,
    ensures
        find_task(ts, name) is None,
{
    lemma_find_task_props(ts, name);
    if find_task(ts, name) is Some {
        let i = find_task(ts, name).unwrap();
        assert(ts[i].name == name);
    }
}

/// Appending a task leaves earlier lookups alone and makes the new name
/// findable at the end.
pub proof fn lemma_find_task_push(ts: Seq<TaskView>, t: TaskView, name: Seq<char>)
    ensures
        find_task(ts, name) is Some ==> find_task(ts.push(t), name) == find_task(ts, name),
        find_task(ts, name) is None && t.name == name ==> find_task(ts.push(t), name) == Some(
            ts.len() as int,
        ),
        find_task(ts, name) is None && t.name != name ==> find_task(ts.push(t), name) is None,
{
    lemma_find_task_props(ts, name);
    match find_task(ts, name) {
        Some(i) => {
            lemma_find_task_at(ts.push(t), name, i);
        },
        None => {
            if t.name == name {
                lemma_find_task_at(ts.push(t), name, ts.len() as int);
            } else {
                lemma_find_task_none(ts.push(t), name);
            }
        },
    }
}

/// A document is well formed when names are unique and the active marker,
/// if set, points at a registered task.
pub open spec fn doc_wf(d: DocView) -> bool {
    &&& forall|i: int, j: int|
        0 <= i < j < d.subjects.len() ==> (#[trigger] d.subjects[i]).name != (
        #[trigger] d.subjects[j]).name
    &&& match d.current {
        Some(a) => find_task(d.subjects, a.task) is Some,
        None => true,
    }
}

impl ShiganConfig {
    /// Whether a task with exactly this (already normalized) name is
    /// registered.
    pub fn task_exists(&self, task: &String) -> (r: bool)
        ensures
            r == (find_task(self@.subjects, task@) is Some),
    {
        let n = self.subjects.len();
        let mut k: usize = 0;
        while k < n
            invariant
                n == self.subjects.len(),
                k <= n,
                forall|j: int| 0 <= j < k ==> (#[trigger] self@.subjects[j]).name != task@,
            decreases n - k,
        {
            if self.subjects[k].name == *task {
                proof {
                    assert(self@.subjects[k as int].name == task@);
                    lemma_find_task_at(self@.subjects, task@, k as int);
                }
                return true;
            }
            k = k + 1;
        }
        proof {
            lemma_find_task_none(self@.subjects, task@);
        }
        false
    }
}

} // verus!
