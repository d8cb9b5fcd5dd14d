//! The index: for each task with a non-empty log, its latest entry and total
//! effort. It is derived from the task records and can be rebuilt from them.

use vstd::prelude::*;
use crate::models::{log_effort, LogEntry, StatusItem, Task};
use crate::order::Timed;
use crate::time::{Duration, Timestamp};

verus! {

/// Why a clock operation does not apply to a task in its present state.
#[derive(Clone, Copy, Debug, PartialEq, Eq, Structural)]
pub enum StateError {
    /// Some task is already being worked on.
    AlreadyActive,
    /// The task's last entry is already open.
    AlreadyOpen,
    /// The task's last entry is already closed.
    AlreadyClosed,
    /// The task's log is empty.
    EmptyLog,
    /// The end given lies before the start of the entry it would close.
    EndBeforeStart,
    /// No task is being worked on.
    NoneActive,
    /// The index holds no task that far back.
    NoPrevious,
}

/// The failures of the record store and the index.
#[derive(Debug)]
pub enum RepoError {
    /// No record exists for the task.
    NotFound(String),
    /// A record already exists for the task.
    AlreadyExists(String),
    /// A clock operation met a task in the wrong state.
    InvalidState(StateError),
    /// More than one task in the index is being worked on.
    IndexInconsistent,
    /// Reading or writing storage failed.
    StorageIO(String),
    /// Stored content does not have the expected shape.
    Corrupt(String),
}

/// What the index keeps for one task.
pub struct IndexEntry {
    pub id: String,
    pub title: String,
    pub log_entry: LogEntry,
    pub total_effort: Duration,
}

/// An index entry as plain values.
pub struct IndexEntryView {
    pub id: Seq<char>,
    pub title: Seq<char>,
    pub log_entry: LogEntry,
    pub total_effort: int,
}

impl IndexEntry {
    pub open spec fn view(&self) -> IndexEntryView {
        IndexEntryView {
            id: self.id@,
            title: self.title@,
            log_entry: self.log_entry,
            total_effort: self.total_effort.secs as int,
        }
    }

    /// The entry for a task whose log ends with `entry`.
    pub fn new(task: &Task, entry: &LogEntry, now: Timestamp) -> (r: IndexEntry)
        requires
            task.wf(),
            now.wf(),
        ensures
            r.id == task.id,
            r.title == task.data.title,
            r.log_entry == *entry,
            r.total_effort.secs == log_effort(task.data.log@, now),
    {
        IndexEntry {
            id: task.id.clone(),
            title: task.data.title.clone(),
            log_entry: *entry,
            total_effort: task.total_effort(now),
        }
    }

    /// A copy with equal fields.
    pub fn copy(&self) -> (r: IndexEntry)
        ensures
            r == *self,
    {
        IndexEntry {
            id: self.id.clone(),
            title: self.title.clone(),
            log_entry: self.log_entry,
            total_effort: self.total_effort,
        }
    }

    /// The status row of this entry.
    pub fn to_status(&self) -> (r: StatusItem)
        ensures
            r.id@ == self.id@,
            r.title@ == self.title@,
            r.log_entry == self.log_entry,
            r.total_effort == self.total_effort,
    {
        StatusItem {
            id: self.id.clone(),
            title: self.title.clone(),
            log_entry: self.log_entry,
            total_effort: self.total_effort,
        }
    }
}

impl Timed for IndexEntry {
    open spec fn key(&self) -> int {
        self.log_entry.start.secs as int
    }

    fn key_exec(&self) -> (r: i64) {
        self.log_entry.start.secs
    }
}

/// The first position of `id` in `v`, or -1.
pub open spec fn position(v: Seq<IndexEntryView>, id: Seq<char>) -> int
    decreases v.len(),
{
    if v.len() == 0 {
        -1
    } else {
        let p = position(v.drop_last(), id);
        if p >= 0 {
            p
        } else if v.last().id == id {
            v.len() - 1
        } else {
            -1
        }
    }
}

pub open spec fn ids_unique(v: Seq<IndexEntryView>) -> bool {
    forall|i: int, j: int| 0 <= i < j < v.len() ==> v[i].id != v[j].id
}

pub open spec fn is_active(e: IndexEntryView) -> bool {
    e.log_entry.end is None
}

/// How many entries are open.
pub open spec fn active_count(v: Seq<IndexEntryView>) -> nat
    decreases v.len(),
{
    if v.len() == 0 {
        0
    } else {
        active_count(v.drop_last()) + if is_active(v.last()) { 1nat } else { 0nat }
    }
}

pub open spec fn any_active(v: Seq<IndexEntryView>) -> bool {
    exists|i: int| 0 <= i < v.len() && is_active(#[trigger] v[i])
}

/// Some task other than `id` is being worked on.
pub open spec fn other_active(v: Seq<IndexEntryView>, id: Seq<char>) -> bool {
    exists|i: int| 0 <= i < v.len() && #[trigger] v[i].id != id && is_active(v[i])
}

/// The entry a task with a non-empty log gets.
pub open spec fn entry_for(id: Seq<char>, title: Seq<char>, log: Seq<LogEntry>, now: Timestamp) -> IndexEntryView {
    IndexEntryView { id, title, log_entry: log.last(), total_effort: log_effort(log, now) }
}

/// The index after a task has been saved: its entry replaced or added when
/// its log is non-empty, removed when the log is empty.
pub open spec fn updated(v: Seq<IndexEntryView>, id: Seq<char>, title: Seq<char>, log: Seq<LogEntry>, now: Timestamp) -> Seq<IndexEntryView> {
    let p = position(v, id);
    if log.len() > 0 {
        if p >= 0 {
            v.update(p, entry_for(id, title, log, now))
        } else {
            v.push(entry_for(id, title, log, now))
        }
    } else if p >= 0 {
        v.remove(p)
    } else {
        v
    }
}

/// The index that saving each of `tasks` in turn makes from `v`.
pub open spec fn updated_all(v: Seq<IndexEntryView>, tasks: Seq<Task>, now: Timestamp) -> Seq<IndexEntryView>
    decreases tasks.len(),
{
    if tasks.len() == 0 {
        v
    } else {
        let t = tasks.last();
        updated(updated_all(v, tasks.drop_last(), now), t.id@, t.data.title@, t.data.log@, now)
    }
}

/// The index that a rebuild from `tasks` makes.
pub open spec fn rebuilt(tasks: Seq<Task>, now: Timestamp) -> Seq<IndexEntryView> {
    updated_all(Seq::empty(), tasks, now)
}

/// Every entry of every task is closed.
pub open spec fn all_closed(tasks: Seq<Task>) -> bool {
    forall|i: int, j: int| 0 <= i < tasks.len() && 0 <= j < tasks[i].data.log@.len() ==>
        (#[trigger] tasks[i].data.log@[j]).end is Some
}

/// Rebuilding depends on the records alone, never on the index it
/// replaces, so a second rebuild with no change to the records in between
/// gives the very same entries in the same order: at the same moment, or at
/// any later one when no task is active.
pub proof fn lemma_rebuild_stable(tasks: Seq<Task>, now1: Timestamp, now2: Timestamp)
    requires
        now1 == now2 || (now1.secs <= now2.secs && all_closed(tasks)),
    ensures
        rebuilt(tasks, now1) == rebuilt(tasks, now2),
    decreases tasks.len(),
{
    if now1 != now2 && tasks.len() > 0 {
        let init = tasks.drop_last();
        assert forall|i: int, j: int| 0 <= i < init.len() && 0 <= j < init[i].data.log@.len() implies
            (#[trigger] init[i].data.log@[j]).end is Some by {
            assert(init[i] == tasks[i]);
        }
        lemma_rebuild_stable(init, now1, now2);
        let t = tasks.last();
        assert(t == tasks[tasks.len() - 1]);
        crate::models::lemma_log_effort_monotonic(t.data.log@, now1, now2);
    }
}

pub proof fn lemma_position(v: Seq<IndexEntryView>, id: Seq<char>)
    ensures
        -1 <= position(v, id) < v.len(),
        position(v, id) >= 0 ==> v[position(v, id)].id == id,
        position(v, id) >= 0 ==> forall|j: int| 0 <= j < position(v, id) ==> v[j].id != id,
        position(v, id) == -1 ==> forall|j: int| 0 <= j < v.len() ==> v[j].id != id,
    decreases v.len(),
{
    if v.len() > 0 {
        lemma_position(v.drop_last(), id);
        let p = position(v.drop_last(), id);
        if p < 0 {
            assert forall|j: int| 0 <= j < v.len() - 1 implies v[j].id != id by {
                assert(v.drop_last()[j] == v[j]);
            }
        } else {
            assert(v.drop_last()[p] == v[p]);
            assert forall|j: int| 0 <= j < p implies v[j].id != id by {
                assert(v.drop_last()[j] == v[j]);
            }
        }
    }
}

proof fn lemma_position_first(v: Seq<IndexEntryView>, id: Seq<char>, k: int)
    requires
        0 <= k < v.len(),
        v[k].id == id,
        forall|j: int| 0 <= j < k ==> v[j].id != id,
    ensures
        position(v, id) == k,
{
    lemma_position(v, id);
}

proof fn lemma_position_none(v: Seq<IndexEntryView>, id: Seq<char>)
    requires
        forall|j: int| 0 <= j < v.len() ==> v[j].id != id,
    ensures
        position(v, id) == -1,
{
    lemma_position(v, id);
}

pub proof fn lemma_updated_unique(v: Seq<IndexEntryView>, id: Seq<char>, title: Seq<char>, log: Seq<LogEntry>, now: Timestamp)
    requires
        ids_unique(v),
    ensures
        ids_unique(updated(v, id, title, log, now)),
{
    lemma_position(v, id);
    let p = position(v, id);
    let r = updated(v, id, title, log, now);
    if log.len() == 0 && p >= 0 {
        assert forall|i: int, j: int| 0 <= i < j < r.len() implies r[i].id != r[j].id by {
            let i0 = if i < p { i } else { i + 1 };
            let j0 = if j < p { j } else { j + 1 };
            assert(r[i] == v[i0]);
            assert(r[j] == v[j0]);
        }
    }
}

proof fn lemma_updated_all_unique(v: Seq<IndexEntryView>, tasks: Seq<Task>, now: Timestamp)
    requires
        ids_unique(v),
    ensures
        ids_unique(updated_all(v, tasks, now)),
    decreases tasks.len(),
{
    if tasks.len() > 0 {
        lemma_updated_all_unique(v, tasks.drop_last(), now);
        let t = tasks.last();
        lemma_updated_unique(updated_all(v, tasks.drop_last(), now), t.id@, t.data.title@, t.data.log@, now);
    }
}

/// The index: one entry per task whose log is non-empty.
pub struct Index {
    entries: Vec<IndexEntry>,
}

impl Index {
    pub closed spec fn view(&self) -> Seq<IndexEntryView> {
        self.entries@.map_values(|e: IndexEntry| e.view())
    }

    /// No two entries belong to the same task.
    pub open spec fn wf(&self) -> bool {
        ids_unique(self@)
    }

    /// An empty index.
    pub fn new() -> (r: Index)
        ensures
            r.wf(),
            r@ == Seq::<IndexEntryView>::empty(),
    {
        let r = Index { entries: Vec::new() };
        assert(r@ =~= Seq::<IndexEntryView>::empty());
        r
    }

    /// An index holding `entries` in their order; fails when two of them
    /// belong to the same task.
    pub fn from_entries(entries: Vec<IndexEntry>) -> (r: Result<Index, RepoError>)
        ensures
            r is Ok <==> ids_unique(entries@.map_values(|e: IndexEntry| e.view())),
            r matches Ok(x) ==> x@ == entries@.map_values(|e: IndexEntry| e.view()) && x.wf(),
            r matches Err(e) ==> e is Corrupt,
    {
        let ghost v = entries@.map_values(|e: IndexEntry| e.view());
        let n = entries.len();
        let mut i: usize = 0;
        while i < n
            invariant
                n == entries@.len(),
                v == entries@.map_values(|e: IndexEntry| e.view()),
                i <= n,
                forall|a: int, b: int| 0 <= a < b < n && a < i ==> v[a].id != v[b].id,
            decreases n - i,
        {
            let mut j: usize = i + 1;
            while j < n
                invariant
                    n == entries@.len(),
                    v == entries@.map_values(|e: IndexEntry| e.view()),
                    i < n,
                    i < j <= n,
                    forall|a: int, b: int| 0 <= a < b < n && a < i ==> v[a].id != v[b].id,
                    forall|b: int| i < b < j ==> v[i as int].id != v[b].id,
                decreases n - j,
            {
                if entries[i].id == entries[j].id {
                    assert(v[i as int].id == v[j as int].id);
                    return Err(RepoError::Corrupt(entries[i].id.clone()));
                }
                j = j + 1;
            }
            i = i + 1;
        }
        Ok(Index { entries })
    }

    /// The entries, in the index's order.
    pub fn entries(&self) -> (r: &Vec<IndexEntry>)
        ensures
            r@.map_values(|e: IndexEntry| e.view()) == self@,
    {
        &self.entries
    }

    /// Where the entry for `id` stands.
    pub fn position_of(&self, id: &String) -> (r: Option<usize>)
        ensures
            match r {
                Some(k) => k as int == position(self@, id@),
                None => position(self@, id@) == -1,
            },
    {
        let mut i: usize = 0;
        while i < self.entries.len()
            invariant
                i <= self@.len(),
                self@.len() == self.entries@.len(),
                forall|j: int| 0 <= j < i ==> self@[j].id != id@,
            decreases self@.len() - i,
        {
            if self.entries[i].id == *id {
                proof {
                    lemma_position_first(self@, id@, i as int);
                }
                return Some(i);
            }
            i = i + 1;
        }
        proof {
            lemma_position_none(self@, id@);
        }
        None
    }

    /// Brings the entry for `task` up to date with its log: a fresh entry
    /// from its last log entry and its whole log's effort, or none when the
    /// log is empty.
    pub fn update(&mut self, task: &Task, now: Timestamp)
        requires
            old(self).wf(),
            task.wf(),
            now.wf(),
        ensures
            final(self).wf(),
            final(self)@ == updated(old(self)@, task.id@, task.data.title@, task.data.log@, now),
    {
        proof {
            lemma_updated_unique(self@, task.id@, task.data.title@, task.data.log@, now);
            lemma_position(self@, task.id@);
        }
        let p = self.position_of(&task.id);
        let n = task.data.log.len();
        if n > 0 {
            let e = IndexEntry::new(task, &task.data.log[n - 1], now);
            assert(e.view() == entry_for(task.id@, task.data.title@, task.data.log@, now));
            match p {
                Some(k) => {
                    self.entries[k] = e;
                    assert(self@ =~= updated(old(self)@, task.id@, task.data.title@, task.data.log@, now));
                }
                None => {
                    self.entries.push(e);
                    assert(self@ =~= updated(old(self)@, task.id@, task.data.title@, task.data.log@, now));
                }
            }
        } else {
            match p {
                Some(k) => {
                    self.entries.remove(k);
                    assert(self@ =~= updated(old(self)@, task.id@, task.data.title@, task.data.log@, now));
                }
                None => {}
            }
        }
    }

    /// Replaces the whole index by the one that saving each of `tasks` in
    /// turn makes from an empty index.
    pub fn rebuild(&mut self, tasks: &Vec<Task>, now: Timestamp)
        requires
            forall|i: int| 0 <= i < tasks@.len() ==> (#[trigger] tasks@[i]).wf(),
            now.wf(),
        ensures
            final(self).wf(),
            final(self)@ == rebuilt(tasks@, now),
    {
        self.entries.clear();
        assert(self@ =~= Seq::<IndexEntryView>::empty());
        let mut i: usize = 0;
        while i < tasks.len()
            invariant
                i <= tasks@.len(),
                forall|k: int| 0 <= k < tasks@.len() ==> (#[trigger] tasks@[k]).wf(),
                now.wf(),
                self.wf(),
                self@ == updated_all(Seq::empty(), tasks@.subrange(0, i as int), now),
            decreases tasks@.len() - i,
        {
            self.update(&tasks[i], now);
            assert(tasks@.subrange(0, i as int + 1).drop_last() =~= tasks@.subrange(0, i as int));
            i = i + 1;
        }
        assert(tasks@.subrange(0, i as int) =~= tasks@);
    }

    /// Succeeds when at most one task is being worked on.
    pub fn check_consistency(&self) -> (r: Result<(), RepoError>)
        ensures
            r is Ok <==> active_count(self@) <= 1,
            r matches Err(e) ==> e is IndexInconsistent,
    {
        let mut c: usize = 0;
        let mut i: usize = 0;
        while i < self.entries.len()
            invariant
                i <= self@.len(),
                self@.len() == self.entries@.len(),
                c == active_count(self@.subrange(0, i as int)),
                c <= i,
            decreases self@.len() - i,
        {
            assert(self@.subrange(0, i as int + 1).drop_last() =~= self@.subrange(0, i as int));
            if self.entries[i].log_entry.is_open() {
                c = c + 1;
            }
            i = i + 1;
        }
        assert(self@.subrange(0, i as int) =~= self@);
        if c > 1 {
            Err(RepoError::IndexInconsistent)
        } else {
            Ok(())
        }
    }

    /// The task being worked on, if any.
    pub fn is_clocked_in(&self) -> (r: Option<String>)
        ensures
            r is None <==> !any_active(self@),
            r matches Some(id) ==> exists|i: int| 0 <= i < self@.len() && #[trigger] self@[i].id == id@ && is_active(self@[i]),
    {
        let mut i: usize = 0;
        while i < self.entries.len()
            invariant
                i <= self@.len(),
                self@.len() == self.entries@.len(),
                forall|j: int| 0 <= j < i ==> !is_active(#[trigger] self@[j]),
            decreases self@.len() - i,
        {
            if self.entries[i].log_entry.is_open() {
                assert(self@[i as int].id == self.entries[i as int].id@);
                return Some(self.entries[i].id.clone());
            }
            i = i + 1;
        }
        None
    }
}

} // verus!
