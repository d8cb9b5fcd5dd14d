//! Tasks, their log entries, and the rows that reports are made of.

use vstd::prelude::*;
use crate::key::{is_task_key, validate_task_key};
use crate::order::{key_of, sort_by_key, sorted_asc, stable_order, Timed};
use crate::time::{Duration, Timestamp, MAX_DURATION, MAX_SECS};

verus! {

/// One contiguous interval of work: open while it has no end.
#[derive(Clone, Copy, Debug, PartialEq, Eq, Structural)]
pub struct LogEntry {
    pub start: Timestamp,
    pub end: Option<Timestamp>,
}

/// What a task's record file holds.
pub struct TaskData {
    pub title: String,
    pub log: Vec<LogEntry>,
}

/// A task, identified by its hierarchical key.
pub struct Task {
    pub id: String,
    pub data: TaskData,
}

/// One log entry of one task, as a listing shows it.
pub struct ListItem {
    pub id: String,
    pub title: String,
    pub log_entry: LogEntry,
}

/// A task's latest log entry and total effort, as the status report shows it.
pub struct StatusItem {
    pub id: String,
    pub title: String,
    pub log_entry: LogEntry,
    pub total_effort: Duration,
}

/// Largest magnitude of one entry's effort, in seconds.
pub const MAX_EFFORT: i128 = 16_000_000_000_000;

impl LogEntry {
    pub open spec fn wf(&self) -> bool {
        &&& self.start.wf()
        &&& (self.end matches Some(e) ==> e.wf())
    }

    pub open spec fn is_open_spec(&self) -> bool {
        self.end is None
    }

    /// Seconds worked in this entry: up to its end, or up to `now` while open.
    pub open spec fn effort_spec(&self, now: Timestamp) -> int {
        match self.end {
            Some(e) => e.secs - self.start.secs,
            None => now.secs - self.start.secs,
        }
    }

    pub fn new(start: Timestamp) -> (r: LogEntry)
        ensures
            r == (LogEntry { start, end: None }),
    {
        LogEntry { start, end: None }
    }

    pub fn is_open(&self) -> (r: bool)
        ensures
            r == self.is_open_spec(),
    {
        self.end.is_none()
    }

    pub fn is_closed(&self) -> (r: bool)
        ensures
            r == !self.is_open_spec(),
    {
        self.end.is_some()
    }

    /// The time worked in this entry, an open one counting up to `now`.
    pub fn effort(&self, now: Timestamp) -> (r: Duration)
        requires
            self.wf(),
            now.wf(),
        ensures
            r.secs == self.effort_spec(now),
            -MAX_EFFORT <= r.secs <= MAX_EFFORT,
    {
        match self.end {
            Some(e) => Duration::between(self.start, e),
            None => Duration::between(self.start, now),
        }
    }
}

impl Timed for LogEntry {
    open spec fn key(&self) -> int {
        self.start.secs as int
    }

    fn key_exec(&self) -> (r: i64) {
        self.start.secs
    }
}

pub open spec fn log_wf(log: Seq<LogEntry>) -> bool {
    forall|i: int| 0 <= i < log.len() ==> (#[trigger] log[i]).wf()
}

/// The sum of the efforts of every entry of `log`.
pub open spec fn log_effort(log: Seq<LogEntry>, now: Timestamp) -> int
    decreases log.len(),
{
    if log.len() == 0 {
        0
    } else {
        log_effort(log.drop_last(), now) + log.last().effort_spec(now)
    }
}

/// An entry's effort never decreases as `now` advances, and a closed entry's
/// effort does not depend on `now` at all.
pub proof fn lemma_effort_monotonic(e: LogEntry, now1: Timestamp, now2: Timestamp)
    requires
        now1.secs <= now2.secs,
    ensures
        e.effort_spec(now1) <= e.effort_spec(now2),
        e.end is Some ==> e.effort_spec(now1) == e.effort_spec(now2),
{
}

/// A log's total effort never decreases as `now` advances, and does not
/// depend on `now` once every entry is closed.
pub proof fn lemma_log_effort_monotonic(log: Seq<LogEntry>, now1: Timestamp, now2: Timestamp)
    requires
        now1.secs <= now2.secs,
    ensures
        log_effort(log, now1) <= log_effort(log, now2),
        (forall|i: int| 0 <= i < log.len() ==> (#[trigger] log[i]).end is Some) ==> log_effort(log, now1) == log_effort(log, now2),
    decreases log.len(),
{
    if log.len() > 0 {
        lemma_log_effort_monotonic(log.drop_last(), now1, now2);
        lemma_effort_monotonic(log.last(), now1, now2);
        if forall|i: int| 0 <= i < log.len() ==> (#[trigger] log[i]).end is Some {
            assert forall|i: int| 0 <= i < log.drop_last().len() implies (#[trigger] log.drop_last()[i]).end is Some by {
                assert(log.drop_last()[i] == log[i]);
            }
            assert(log.last() == log[log.len() - 1]);
        }
    }
}

/// The sum of the efforts of the entries of `log`.
pub fn log_total_effort(log: &Vec<LogEntry>, now: Timestamp) -> (r: Duration)
    requires
        log_wf(log@),
        now.wf(),
    ensures
        r.wf(),
        r.secs == log_effort(log@, now),
{
    let mut acc: i128 = 0;
    let mut i: usize = 0;
    while i < log.len()
        invariant
            i <= log@.len(),
            log_wf(log@),
            now.wf(),
            acc == log_effort(log@.subrange(0, i as int), now),
            -(i as int) * (MAX_EFFORT as int) <= acc <= (i as int) * (MAX_EFFORT as int),
        decreases log@.len() - i,
    {
        let e = log[i].effort(now);
        assert(log@.subrange(0, i as int + 1).drop_last() =~= log@.subrange(0, i as int));
        acc = acc + e.secs;
        i = i + 1;
    }
    assert(log@.subrange(0, i as int) =~= log@);
    assert((i as int) * (MAX_EFFORT as int) <= MAX_DURATION);
    Duration { secs: acc }
}

impl Task {
    /// A task with no title and an empty log.
    pub fn new(id: String) -> (r: Task)
        ensures
            r.id == id,
            r.data.title@.len() == 0,
            r.data.log@.len() == 0,
    {
        Task { id, data: TaskData { title: String::new(), log: Vec::new() } }
    }

    pub fn from_data(id: String, data: TaskData) -> (r: Task)
        ensures
            r.id == id,
            r.data == data,
    {
        Task { id, data }
    }

    /// Accepts a task identifier; hands a rejected one back as the error.
    pub fn validate_key(key: &str) -> (r: Result<(), String>)
        ensures
            r is Ok <==> is_task_key(key@),
            r matches Err(s) ==> s@ == key@,
    {
        validate_task_key(key)
    }

    /// A task as it is read back from storage: its log sorted by start,
    /// ascending, whatever order the entries were stored in; entries with
    /// equal starts keep their stored order.
    pub fn from_record(id: String, data: TaskData) -> (r: Task)
        ensures
            r.id == id,
            r.data.title == data.title,
            r.data.log@.to_multiset() == data.log@.to_multiset(),
            r.data.log@.len() == data.log@.len(),
            sorted_asc(r.data.log@),
            stable_order(r.data.log@, data.log@, key_of::<LogEntry>(), false),
    {
        let TaskData { title, log } = data;
        let sorted = sort_by_key(log, false);
        Task { id, data: TaskData { title, log: sorted } }
    }

    pub open spec fn wf(&self) -> bool {
        log_wf(self.data.log@)
    }

    /// The sum of the efforts of the task's log entries.
    pub fn total_effort(&self, now: Timestamp) -> (r: Duration)
        requires
            self.wf(),
            now.wf(),
        ensures
            r.wf(),
            r.secs == log_effort(self.data.log@, now),
    {
        log_total_effort(&self.data.log, now)
    }
}

impl ListItem {
    pub fn new(task: &Task, log_entry: &LogEntry) -> (r: ListItem)
        ensures
            r == (ListItem { id: task.id, title: task.data.title, log_entry: *log_entry }),
    {
        ListItem { id: task.id.clone(), title: task.data.title.clone(), log_entry: *log_entry }
    }

    pub fn start(&self) -> (r: Timestamp)
        ensures
            r == self.log_entry.start,
    {
        self.log_entry.start
    }

    pub fn end(&self) -> (r: Option<Timestamp>)
        ensures
            r == self.log_entry.end,
    {
        self.log_entry.end
    }

    pub fn effort(&self, now: Timestamp) -> (r: Duration)
        requires
            self.log_entry.wf(),
            now.wf(),
        ensures
            r.secs == self.log_entry.effort_spec(now),
    {
        self.log_entry.effort(now)
    }
}

impl Timed for ListItem {
    open spec fn key(&self) -> int {
        self.log_entry.start.secs as int
    }

    fn key_exec(&self) -> (r: i64) {
        self.log_entry.start.secs
    }
}

impl StatusItem {
    pub fn start(&self) -> (r: Timestamp)
        ensures
            r == self.log_entry.start,
    {
        self.log_entry.start
    }

    pub fn end(&self) -> (r: Option<Timestamp>)
        ensures
            r == self.log_entry.end,
    {
        self.log_entry.end
    }

    pub fn effort(&self, now: Timestamp) -> (r: Duration)
        requires
            self.log_entry.wf(),
            now.wf(),
        ensures
            r.secs == self.log_entry.effort_spec(now),
    {
        self.log_entry.effort(now)
    }
}

impl Timed for StatusItem {
    open spec fn key(&self) -> int {
        self.log_entry.start.secs as int
    }

    fn key_exec(&self) -> (r: i64) {
        self.log_entry.start.secs
    }
}

} // verus!
