//! The clock state machine: clocking in and out of a task, and undoing
//! either. A task is active while the last entry of its log is open.

use vstd::prelude::*;
use crate::index::{
    active_count, any_active, ids_unique, is_active, lemma_position, lemma_updated_unique, other_active,
    position, updated, Index, IndexEntryView, RepoError, StateError,
};
use crate::models::{LogEntry, Task};
use crate::index::IndexEntry;
use crate::query::status_order;
use crate::time::Timestamp;

verus! {

/// One of the four transitions of a task's log.
pub enum ClockOp {
    In(Timestamp),
    Out(Timestamp),
    UnIn,
    UnOut,
}

pub open spec fn last_open(log: Seq<LogEntry>) -> bool {
    log.len() > 0 && log.last().end is None
}

/// The log that a transition leaves for task `id`, or why it does not
/// apply. `v` is the index, which clocking in and reopening consult to keep a
/// single task active.
pub open spec fn clock_step(v: Seq<IndexEntryView>, op: ClockOp, id: Seq<char>, log: Seq<LogEntry>) -> Result<Seq<LogEntry>, StateError> {
    match op {
        ClockOp::In(ts) => {
            if any_active(v) {
                Err(StateError::AlreadyActive)
            } else if last_open(log) {
                Err(StateError::AlreadyOpen)
            } else {
                Ok(log.push(LogEntry { start: ts, end: None }))
            }
        },
        ClockOp::Out(ts) => {
            if log.len() == 0 {
                Err(StateError::EmptyLog)
            } else if !last_open(log) {
                Err(StateError::AlreadyClosed)
            } else if ts.secs < log.last().start.secs {
                Err(StateError::EndBeforeStart)
            } else {
                Ok(log.update(log.len() - 1, LogEntry { start: log.last().start, end: Some(ts) }))
            }
        },
        ClockOp::UnIn => {
            if log.len() == 0 {
                Err(StateError::EmptyLog)
            } else if !last_open(log) {
                Err(StateError::AlreadyClosed)
            } else {
                Ok(log.drop_last())
            }
        },
        ClockOp::UnOut => {
            if log.len() == 0 {
                Err(StateError::EmptyLog)
            } else if last_open(log) {
                Err(StateError::AlreadyOpen)
            } else if other_active(v, id) {
                Err(StateError::AlreadyActive)
            } else {
                Ok(log.update(log.len() - 1, LogEntry { start: log.last().start, end: None }))
            }
        },
    }
}

/// What a transition does to a task: the log of `clock_step` on success;
/// on failure the log is kept and the reason returned.
pub open spec fn step_done(v: Seq<IndexEntryView>, op: ClockOp, old_task: &Task, new_task: &Task, r: Result<(), RepoError>) -> bool {
    &&& new_task.id == old_task.id
    &&& new_task.data.title == old_task.data.title
    &&& match clock_step(v, op, old_task.id@, old_task.data.log@) {
        Ok(l) => r is Ok && new_task.data.log@ == l,
        Err(e) => r == Err::<(), RepoError>(RepoError::InvalidState(e)) && new_task.data.log@ == old_task.data.log@,
    }
}

impl Index {
    fn any_open(&self) -> (r: bool)
        ensures
            r == any_active(self@),
    {
        let a = self.is_clocked_in();
        a.is_some()
    }

    /// Starts work on `task` at `ts`: appends an open entry. Fails while any
    /// task is active, or when the task's own last entry is open.
    pub fn clock_in(&self, task: &mut Task, ts: Timestamp) -> (r: Result<(), RepoError>)
        ensures
            step_done(self@, ClockOp::In(ts), old(task), final(task), r),
    {
        if self.any_open() {
            return Err(RepoError::InvalidState(StateError::AlreadyActive));
        }
        let n = task.data.log.len();
        if n > 0 && task.data.log[n - 1].is_open() {
            return Err(RepoError::InvalidState(StateError::AlreadyOpen));
        }
        task.data.log.push(LogEntry::new(ts));
        Ok(())
    }

    /// Stops work on `task` at `ts`: closes its open last entry.
    pub fn clock_out(&self, task: &mut Task, ts: Timestamp) -> (r: Result<(), RepoError>)
        ensures
            step_done(self@, ClockOp::Out(ts), old(task), final(task), r),
    {
        let n = task.data.log.len();
        if n == 0 {
            return Err(RepoError::InvalidState(StateError::EmptyLog));
        }
        let last = task.data.log[n - 1];
        if last.is_closed() {
            return Err(RepoError::InvalidState(StateError::AlreadyClosed));
        }
        if ts.is_before(&last.start) {
            return Err(RepoError::InvalidState(StateError::EndBeforeStart));
        }
        task.data.log[n - 1] = LogEntry { start: last.start, end: Some(ts) };
        Ok(())
    }

    /// Undoes a clock-in: removes the open last entry of `task`.
    pub fn un_clock_in(&self, task: &mut Task) -> (r: Result<(), RepoError>)
        ensures
            step_done(self@, ClockOp::UnIn, old(task), final(task), r),
    {
        let n = task.data.log.len();
        if n == 0 {
            return Err(RepoError::InvalidState(StateError::EmptyLog));
        }
        if task.data.log[n - 1].is_closed() {
            return Err(RepoError::InvalidState(StateError::AlreadyClosed));
        }
        task.data.log.pop();
        Ok(())
    }

    /// Some task other than `id` is active.
    fn other_open(&self, id: &String) -> (r: bool)
        ensures
            r == other_active(self@, id@),
    {
        let src = self.entries();
        let mut i: usize = 0;
        while i < src.len()
            invariant
                i <= src@.len(),
                self@ == src@.map_values(|e: IndexEntry| e.view()),
                forall|j: int| 0 <= j < i ==> !(#[trigger] self@[j].id != id@ && is_active(self@[j])),
            decreases src@.len() - i,
        {
            if src[i].log_entry.is_open() && src[i].id != *id {
                assert(self@[i as int].id != id@ && is_active(self@[i as int]));
                return true;
            }
            i = i + 1;
        }
        false
    }

    /// Undoes a clock-out: reopens the closed last entry of `task`. Fails
    /// while another task is active.
    pub fn un_clock_out(&self, task: &mut Task) -> (r: Result<(), RepoError>)
        ensures
            step_done(self@, ClockOp::UnOut, old(task), final(task), r),
    {
        let n = task.data.log.len();
        if n == 0 {
            return Err(RepoError::InvalidState(StateError::EmptyLog));
        }
        let last = task.data.log[n - 1];
        if last.is_open() {
            return Err(RepoError::InvalidState(StateError::AlreadyOpen));
        }
        if self.other_open(&task.id) {
            return Err(RepoError::InvalidState(StateError::AlreadyActive));
        }
        task.data.log[n - 1] = LogEntry { start: last.start, end: None };
        Ok(())
    }
}

impl Index {
    /// The task being worked on, which halting and cancelling apply to.
    pub fn active_target(&self) -> (r: Result<String, RepoError>)
        ensures
            r is Ok <==> any_active(self@),
            r matches Ok(id) ==> exists|i: int| 0 <= i < self@.len() && #[trigger] self@[i].id == id@ && is_active(self@[i]),
            r matches Err(e) ==> e == RepoError::InvalidState(StateError::NoneActive),
    {
        match self.is_clocked_in() {
            Some(id) => Ok(id),
            None => Err(RepoError::InvalidState(StateError::NoneActive)),
        }
    }

    /// The task `i` places back in recency, which resuming and appending
    /// apply to; it must not be active.
    pub fn idle_previous(&self, i: usize) -> (r: Result<String, RepoError>)
        ensures
            i >= self@.len() ==> r == Err::<String, RepoError>(RepoError::InvalidState(StateError::NoPrevious)),
            i < self@.len() ==> forall|s: Seq<IndexEntryView>| #[trigger] status_order(s, self@) ==> s.len() == self@.len() && {
                if is_active(s[i as int]) {
                    r == Err::<String, RepoError>(RepoError::InvalidState(StateError::AlreadyActive))
                } else {
                    r matches Ok(id) && id@ == s[i as int].id
                }
            },
    {
        broadcast use vstd::seq_lib::group_to_multiset_ensures;
        match self.previous_task(i) {
            Some((id, e)) => {
                if e.is_open() {
                    Err(RepoError::InvalidState(StateError::AlreadyActive))
                } else {
                    Ok(id)
                }
            }
            None => Err(RepoError::InvalidState(StateError::NoPrevious)),
        }
    }
}

/// At most one entry is active.
pub open spec fn single_active(v: Seq<IndexEntryView>) -> bool {
    forall|i: int, j: int|
        0 <= i < v.len() && 0 <= j < v.len() && is_active(#[trigger] v[i]) && is_active(#[trigger] v[j]) ==> i == j
}

proof fn lemma_no_active(v: Seq<IndexEntryView>)
    ensures
        active_count(v) == 0 <==> !any_active(v),
    decreases v.len(),
{
    if v.len() > 0 {
        lemma_no_active(v.drop_last());
        if any_active(v.drop_last()) {
            let i = choose|i: int| 0 <= i < v.drop_last().len() && is_active(#[trigger] v.drop_last()[i]);
            assert(v[i] == v.drop_last()[i]);
        }
        if any_active(v) {
            let i = choose|i: int| 0 <= i < v.len() && is_active(#[trigger] v[i]);
            if i < v.len() - 1 {
                assert(v.drop_last()[i] == v[i]);
            }
        }
        if is_active(v.last()) {
            assert(is_active(v[v.len() - 1]));
        }
    }
}

/// The index check passes (at most one open entry counted) exactly when at
/// most one entry is active.
pub proof fn lemma_active_count_single(v: Seq<IndexEntryView>)
    ensures
        active_count(v) <= 1 <==> single_active(v),
    decreases v.len(),
{
    if v.len() > 0 {
        let w = v.drop_last();
        let n = v.len() - 1;
        lemma_active_count_single(w);
        lemma_no_active(w);
        assert forall|i: int| 0 <= i < n implies w[i] == v[i] by {}
        if active_count(v) <= 1 {
            assert forall|i: int, j: int|
                0 <= i < v.len() && 0 <= j < v.len() && is_active(#[trigger] v[i]) && is_active(#[trigger] v[j]) implies i == j by {
                if is_active(v.last()) {
                    if i < n {
                        assert(is_active(w[i]));
                    }
                    if j < n {
                        assert(is_active(w[j]));
                    }
                } else {
                    assert(i < n && j < n);
                    assert(is_active(w[i]) && is_active(w[j]));
                }
            }
        }
        if single_active(v) {
            assert forall|i: int, j: int|
                0 <= i < w.len() && 0 <= j < w.len() && is_active(#[trigger] w[i]) && is_active(#[trigger] w[j]) implies i == j by {
                assert(is_active(v[i]) && is_active(v[j]));
            }
            if is_active(v.last()) {
                assert(is_active(v[n]));
                if any_active(w) {
                    let i = choose|i: int| 0 <= i < w.len() && is_active(#[trigger] w[i]);
                    assert(is_active(v[i]));
                }
            }
        }
    }
}

/// Every entry but the last is closed, as in a log that only the clock
/// operations have written.
pub open spec fn log_valid(log: Seq<LogEntry>) -> bool {
    forall|i: int| 0 <= i < log.len() - 1 ==> (#[trigger] log[i]).end is Some
}

/// One call of a clock operation on a task as it was loaded, followed by
/// saving the task, which updates the index.
pub struct ClockCall {
    pub op: ClockOp,
    pub id: Seq<char>,
    pub title: Seq<char>,
    pub log: Seq<LogEntry>,
    pub now: Timestamp,
}

/// The index after a call: updated from the new log when the call
/// succeeds, unchanged when it fails.
pub open spec fn after_call(v: Seq<IndexEntryView>, c: ClockCall) -> Seq<IndexEntryView> {
    match clock_step(v, c.op, c.id, c.log) {
        Ok(l) => updated(v, c.id, c.title, l, c.now),
        Err(_) => v,
    }
}

pub open spec fn after_calls(v: Seq<IndexEntryView>, calls: Seq<ClockCall>) -> Seq<IndexEntryView>
    decreases calls.len(),
{
    if calls.len() == 0 {
        v
    } else {
        after_call(after_calls(v, calls.drop_last()), calls.last())
    }
}

/// The call meets a valid log.
pub open spec fn call_admissible(v: Seq<IndexEntryView>, c: ClockCall) -> bool {
    log_valid(c.log)
}

pub open spec fn calls_admissible(v: Seq<IndexEntryView>, calls: Seq<ClockCall>) -> bool
    decreases calls.len(),
{
    if calls.len() == 0 {
        true
    } else {
        calls_admissible(v, calls.drop_last()) && call_admissible(after_calls(v, calls.drop_last()), calls.last())
    }
}

proof fn lemma_call_keeps_single(v: Seq<IndexEntryView>, c: ClockCall)
    requires
        single_active(v),
        ids_unique(v),
        call_admissible(v, c),
    ensures
        single_active(after_call(v, c)),
        ids_unique(after_call(v, c)),
{
    match clock_step(v, c.op, c.id, c.log) {
        Ok(l) => {
            lemma_updated_unique(v, c.id, c.title, l, c.now);
            lemma_position(v, c.id);
            let p = position(v, c.id);
            let w = updated(v, c.id, c.title, l, c.now);
            if l.len() > 0 {
                // Every entry of `w` but the one for `c.id` is an entry of `v`.
                assert forall|i: int, j: int|
                    0 <= i < w.len() && 0 <= j < w.len() && is_active(#[trigger] w[i]) && is_active(#[trigger] w[j]) implies i == j by {
                    let q = if p >= 0 { p } else { v.len() as int };
                    match c.op {
                        ClockOp::In(ts) => {
                            if i != q {
                                assert(w[i] == v[i]);
                                assert(any_active(v));
                            }
                            if j != q {
                                assert(w[j] == v[j]);
                                assert(any_active(v));
                            }
                        },
                        ClockOp::Out(ts) => {
                            assert(!is_active(w[q]));
                            assert(w[i] == v[i]);
                            assert(w[j] == v[j]);
                        },
                        ClockOp::UnIn => {
                            assert(l.last() == c.log[c.log.len() - 2]);
                            assert(!is_active(w[q]));
                            assert(w[i] == v[i]);
                            assert(w[j] == v[j]);
                        },
                        ClockOp::UnOut => {
                            if i != q {
                                assert(w[i] == v[i]);
                                assert(v[i].id != c.id);
                                assert(other_active(v, c.id));
                            }
                            if j != q {
                                assert(w[j] == v[j]);
                                assert(v[j].id != c.id);
                                assert(other_active(v, c.id));
                            }
                        },
                    }
                }
            } else if p >= 0 {
                assert forall|i: int, j: int|
                    0 <= i < w.len() && 0 <= j < w.len() && is_active(#[trigger] w[i]) && is_active(#[trigger] w[j]) implies i == j by {
                    let i0 = if i < p { i } else { i + 1 };
                    let j0 = if j < p { j } else { j + 1 };
                    assert(w[i] == v[i0]);
                    assert(w[j] == v[j0]);
                }
            }
        },
        Err(_) => {},
    }
}

/// After any sequence of clock calls, each made on a valid log, at most one
/// task in the index is active, provided that held at the start.
pub proof fn lemma_single_active(v: Seq<IndexEntryView>, calls: Seq<ClockCall>)
    requires
        single_active(v),
        ids_unique(v),
        calls_admissible(v, calls),
    ensures
        single_active(after_calls(v, calls)),
        ids_unique(after_calls(v, calls)),
    decreases calls.len(),
{
    if calls.len() > 0 {
        lemma_single_active(v, calls.drop_last());
        lemma_call_keeps_single(after_calls(v, calls.drop_last()), calls.last());
    }
}

/// Clocking in and then undoing it gives back the log as it was; so does
/// clocking out and then undoing that, while no other task is active.
pub proof fn lemma_undo_inverse(v: Seq<IndexEntryView>, w: Seq<IndexEntryView>, id: Seq<char>, log: Seq<LogEntry>, ts: Timestamp)
    ensures
        clock_step(v, ClockOp::In(ts), id, log) matches Ok(l) ==> clock_step(w, ClockOp::UnIn, id, l) == Ok::<Seq<LogEntry>, StateError>(log),
        !other_active(w, id) ==> (clock_step(v, ClockOp::Out(ts), id, log) matches Ok(l) ==>
            clock_step(w, ClockOp::UnOut, id, l) == Ok::<Seq<LogEntry>, StateError>(log)),
{
    if let Ok(l) = clock_step(v, ClockOp::In(ts), id, log) {
        assert(l.drop_last() =~= log);
    }
    if let Ok(l) = clock_step(v, ClockOp::Out(ts), id, log) {
        let n = log.len() - 1;
        assert(l.update(n, LogEntry { start: l.last().start, end: None }) =~= log);
    }
}

} // verus!
