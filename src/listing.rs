//! Listings: every log entry in a time range, most recent first, and the
//! grouping of such a listing by calendar day.

use vstd::prelude::*;
use crate::models::{ListItem, LogEntry, Task, MAX_EFFORT};
use crate::order::{key_of, sort_by_key, sorted_desc, stable_order};
use crate::time::{Duration, Timestamp, MAX_DURATION, SECS_PER_DAY};
use vstd::arithmetic::div_mod::lemma_div_is_ordered;

verus! {

/// `t` lies within `[after, before]`; an absent bound does not limit.
pub open spec fn in_range(after: Option<Timestamp>, before: Option<Timestamp>, t: Timestamp) -> bool {
    &&& (after matches Some(a) ==> t.secs >= a.secs)
    &&& (before matches Some(b) ==> t.secs <= b.secs)
}

/// The rows of `task` for those entries of `log` that start within range.
pub open spec fn entry_rows(task: Task, log: Seq<LogEntry>, after: Option<Timestamp>, before: Option<Timestamp>) -> Seq<ListItem>
    decreases log.len(),
{
    if log.len() == 0 {
        Seq::empty()
    } else {
        let rows = entry_rows(task, log.drop_last(), after, before);
        if in_range(after, before, log.last().start) {
            rows.push(ListItem { id: task.id, title: task.data.title, log_entry: log.last() })
        } else {
            rows
        }
    }
}

/// The rows of all of `tasks` whose entries start within range.
pub open spec fn all_rows(tasks: Seq<Task>, after: Option<Timestamp>, before: Option<Timestamp>) -> Seq<ListItem>
    decreases tasks.len(),
{
    if tasks.len() == 0 {
        Seq::empty()
    } else {
        all_rows(tasks.drop_last(), after, before) + entry_rows(tasks.last(), tasks.last().data.log@, after, before)
    }
}

fn in_range_exec(after: Option<Timestamp>, before: Option<Timestamp>, t: Timestamp) -> (r: bool)
    ensures
        r == in_range(after, before, t),
{
    let lo = match after {
        Some(a) => t.secs >= a.secs,
        None => true,
    };
    let hi = match before {
        Some(b) => t.secs <= b.secs,
        None => true,
    };
    lo && hi
}

/// One row for each entry of `tasks` that starts within `[after, before]`,
/// most recent first; rows with equal starts in the order of `tasks` and of
/// their logs.
pub fn listing_rows(tasks: &Vec<Task>, after: Option<Timestamp>, before: Option<Timestamp>) -> (r: Vec<ListItem>)
    ensures
        r@.to_multiset() == all_rows(tasks@, after, before).to_multiset(),
        sorted_desc(r@),
        stable_order(r@, all_rows(tasks@, after, before), key_of::<ListItem>(), true),
{
    let mut rows: Vec<ListItem> = Vec::new();
    let mut i: usize = 0;
    while i < tasks.len()
        invariant
            i <= tasks@.len(),
            rows@ == all_rows(tasks@.subrange(0, i as int), after, before),
        decreases tasks@.len() - i,
    {
        let t = &tasks[i];
        let ghost base = rows@;
        let mut j: usize = 0;
        while j < t.data.log.len()
            invariant
                j <= t.data.log@.len(),
                rows@ == base + entry_rows(*t, t.data.log@.subrange(0, j as int), after, before),
            decreases t.data.log@.len() - j,
        {
            let e = t.data.log[j];
            assert(t.data.log@.subrange(0, j as int + 1).drop_last() =~= t.data.log@.subrange(0, j as int));
            if in_range_exec(after, before, e.start) {
                rows.push(ListItem::new(t, &e));
                assert(rows@ =~= base + entry_rows(*t, t.data.log@.subrange(0, j as int + 1), after, before));
            }
            j = j + 1;
        }
        assert(t.data.log@.subrange(0, j as int) =~= t.data.log@);
        assert(tasks@.subrange(0, i as int + 1).drop_last() =~= tasks@.subrange(0, i as int));
        i = i + 1;
    }
    assert(tasks@.subrange(0, i as int) =~= tasks@);
    sort_by_key(rows, true)
}

/// The sum of the efforts of `items`.
pub open spec fn items_effort(items: Seq<ListItem>, now: Timestamp) -> int
    decreases items.len(),
{
    if items.len() == 0 {
        0
    } else {
        items_effort(items.drop_last(), now) + items.last().log_entry.effort_spec(now)
    }
}

/// The effort of rows put together is the sum of their efforts: a day
/// group's total is the sum of the efforts of its rows.
pub proof fn lemma_items_effort_sum(a: Seq<ListItem>, b: Seq<ListItem>, now: Timestamp)
    ensures
        items_effort(a + b, now) == items_effort(a, now) + items_effort(b, now),
    decreases b.len(),
{
    if b.len() == 0 {
        assert(a + b =~= a);
    } else {
        assert((a + b).drop_last() =~= a + b.drop_last());
        lemma_items_effort_sum(a, b.drop_last(), now);
    }
}

/// The sum of the efforts of `items`, open entries counting up to `now`.
pub fn total_effort(items: &[ListItem], now: Timestamp) -> (r: Duration)
    requires
        forall|i: int| 0 <= i < items@.len() ==> (#[trigger] items@[i]).log_entry.wf(),
        now.wf(),
    ensures
        r.wf(),
        r.secs == items_effort(items@, now),
{
    let mut acc: i128 = 0;
    let mut i: usize = 0;
    while i < items.len()
        invariant
            i <= items@.len(),
            forall|k: int| 0 <= k < items@.len() ==> (#[trigger] items@[k]).log_entry.wf(),
            now.wf(),
            acc == items_effort(items@.subrange(0, i as int), now),
            -(i as int) * (MAX_EFFORT as int) <= acc <= (i as int) * (MAX_EFFORT as int),
        decreases items@.len() - i,
    {
        let e = items[i].effort(now);
        assert(items@.subrange(0, i as int + 1).drop_last() =~= items@.subrange(0, i as int));
        acc = acc + e.secs;
        i = i + 1;
    }
    assert(items@.subrange(0, i as int) =~= items@);
    assert((i as int) * (MAX_EFFORT as int) <= MAX_DURATION);
    Duration { secs: acc }
}

/// A run of consecutive rows, `start` to `end` exclusive, that fall on one
/// calendar day.
#[derive(Clone, Copy, Debug, PartialEq, Eq, Structural)]
pub struct DayGroup {
    pub day: i64,
    pub start: usize,
    pub end: usize,
}

pub open spec fn day_of(item: ListItem) -> int {
    item.log_entry.start.local_day_spec()
}

/// `g` cuts `items` into maximal runs of rows on one local calendar day, in
/// order.
pub open spec fn groups_ok(items: Seq<ListItem>, g: Seq<DayGroup>) -> bool {
    &&& (items.len() == 0 <==> g.len() == 0)
    &&& (g.len() > 0 ==> g[0].start == 0 && g.last().end == items.len())
    &&& forall|k: int| 0 <= k < g.len() - 1 ==> (#[trigger] g[k]).end == g[k + 1].start
    &&& forall|k: int| 0 <= k < g.len() ==> (#[trigger] g[k]).start < g[k].end
    &&& forall|k: int, i: int| 0 <= k < g.len() && g[k].start <= i < g[k].end ==> day_of(#[trigger] items[i]) == (#[trigger] g[k]).day
    &&& forall|k: int| 0 <= k < g.len() - 1 ==> (#[trigger] g[k]).day != g[k + 1].day
}

/// Groups the rows of a listing by the local calendar day of their start.
pub fn group_by_day(items: &Vec<ListItem>) -> (r: Vec<DayGroup>)
    requires
        forall|i: int| 0 <= i < items@.len() ==> (#[trigger] items@[i]).log_entry.start.wf(),
    ensures
        groups_ok(items@, r@),
{
    let n = items.len();
    let mut groups: Vec<DayGroup> = Vec::new();
    if n == 0 {
        return groups;
    }
    let mut gs: usize = 0;
    let mut day: i64 = items[0].log_entry.start.local_day();
    let mut i: usize = 1;
    while i < n
        invariant
            n == items@.len(),
            forall|k: int| 0 <= k < items@.len() ==> (#[trigger] items@[k]).log_entry.start.wf(),
            gs < i <= n,
            forall|m: int| gs <= m < i ==> day_of(#[trigger] items@[m]) == day,
            groups@.len() == 0 ==> gs == 0,
            groups@.len() > 0 ==> groups@[0].start == 0 && groups@.last().end == gs && groups@.last().day != day,
            forall|k: int| 0 <= k < groups@.len() - 1 ==> (#[trigger] groups@[k]).end == groups@[k + 1].start,
            forall|k: int| 0 <= k < groups@.len() ==> (#[trigger] groups@[k]).start < groups@[k].end,
            forall|k: int, m: int| 0 <= k < groups@.len() && groups@[k].start <= m < groups@[k].end ==> day_of(#[trigger] items@[m]) == (#[trigger] groups@[k]).day,
            forall|k: int| 0 <= k < groups@.len() - 1 ==> (#[trigger] groups@[k]).day != groups@[k + 1].day,
        decreases n - i,
    {
        let d = items[i].log_entry.start.local_day();
        if d != day {
            groups.push(DayGroup { day, start: gs, end: i });
            gs = i;
            day = d;
        }
        i = i + 1;
    }
    groups.push(DayGroup { day, start: gs, end: n });
    groups
}

proof fn lemma_groups_ordered(items: Seq<ListItem>, g: Seq<DayGroup>, a: int, b: int)
    requires
        groups_ok(items, g),
        0 <= a < b < g.len(),
    ensures
        g[a].end <= g[b].start,
    decreases b - a,
{
    if b > a + 1 {
        lemma_groups_ordered(items, g, a, b - 1);
        assert(g[b - 1].start < g[b - 1].end);
        assert(g[b - 1].end == g[b].start);
    } else {
        assert(g[a].end == g[a + 1].start);
    }
}

proof fn lemma_groups_cover(items: Seq<ListItem>, g: Seq<DayGroup>, k: int, i: int)
    requires
        groups_ok(items, g),
        0 <= k < g.len(),
        0 <= i < g[k].end,
    ensures
        exists|m: int| 0 <= m <= k && (#[trigger] g[m]).start <= i < g[m].end,
    decreases k,
{
    if i >= g[k].start {
        assert(g[k].start <= i < g[k].end);
    } else {
        assert(g[k - 1].end == g[k].start);
        lemma_groups_cover(items, g, k - 1, i);
        let m = choose|m: int| 0 <= m <= k - 1 && (#[trigger] g[m]).start <= i < g[m].end;
        assert(g[m].start <= i < g[m].end);
    }
}

/// Days never increase along `items`.
pub open spec fn days_descend(items: Seq<ListItem>) -> bool {
    forall|a: int, b: int| 0 <= a <= b < items.len() ==> day_of(#[trigger] items[a]) >= day_of(#[trigger] items[b])
}

/// A listing sorted most recent first whose rows share one UTC offset has
/// its days in descending order.
pub proof fn lemma_listing_days_descend(items: Seq<ListItem>)
    requires
        sorted_desc(items),
        forall|a: int, b: int| 0 <= a < items.len() && 0 <= b < items.len() ==>
            (#[trigger] items[a]).log_entry.start.offset == (#[trigger] items[b]).log_entry.start.offset,
    ensures
        days_descend(items),
{
    assert forall|a: int, b: int| 0 <= a <= b < items.len() implies day_of(#[trigger] items[a]) >= day_of(#[trigger] items[b]) by {
        if a < b {
            let o = items[a].log_entry.start.offset as int;
            assert(items[b].log_entry.start.offset as int == o);
            lemma_div_is_ordered(items[b].log_entry.start.secs + o, items[a].log_entry.start.secs + o, SECS_PER_DAY as int);
        }
    }
}

/// In a listing whose days descend, as in one sorted most recent first
/// with a single UTC offset, two rows on the same calendar day fall into the
/// same group.
pub proof fn lemma_same_day_same_group(items: Seq<ListItem>, g: Seq<DayGroup>, i: int, j: int)
    requires
        groups_ok(items, g),
        days_descend(items),
        0 <= i <= j < items.len(),
        day_of(items[i]) == day_of(items[j]),
    ensures
        exists|k: int| 0 <= k < g.len() && (#[trigger] g[k]).start <= i && j < g[k].end,
{
    assert(g.len() > 0);
    lemma_groups_cover(items, g, g.len() - 1, i);
    lemma_groups_cover(items, g, g.len() - 1, j);
    let k = choose|m: int| 0 <= m <= g.len() - 1 && (#[trigger] g[m]).start <= i < g[m].end;
    let k2 = choose|m: int| 0 <= m <= g.len() - 1 && (#[trigger] g[m]).start <= j < g[m].end;
    if k2 < k {
        lemma_groups_ordered(items, g, k2, k);
    } else if k2 > k {
        lemma_groups_ordered(items, g, k, k + 1);
        if k + 1 < k2 {
            lemma_groups_ordered(items, g, k + 1, k2);
        }
        let m = g[k].end as int;
        assert(g[k].end == g[k + 1].start);
        assert(g[k + 1].start < g[k + 1].end);
        assert(day_of(items[m - 1]) == g[k].day);
        assert(day_of(items[m]) == g[k + 1].day);
        assert(day_of(items[i]) >= day_of(items[m - 1]));
        assert(day_of(items[m]) >= day_of(items[j]));
        assert(day_of(items[m - 1]) >= day_of(items[m]));
    }
    assert(g[k].start <= i && j < g[k].end);
}

} // verus!
