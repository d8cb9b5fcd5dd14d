use dit::index::{Index, IndexEntry, RepoError, StateError};
use dit::listing::{group_by_day, listing_rows, total_effort};
use dit::models::{log_total_effort, LogEntry, Task, TaskData};
use dit::store::{record_file, record_id};
use dit::time::{Duration, Nice, Timestamp};

fn ts(secs: i64) -> Timestamp {
    Timestamp { secs, offset: 0 }
}

fn closed(start: i64, end: i64) -> LogEntry {
    LogEntry { start: ts(start), end: Some(ts(end)) }
}

fn task(id: &str, title: &str, log: Vec<LogEntry>) -> Task {
    Task::from_data(id.to_string(), TaskData { title: title.to_string(), log })
}

fn entry(id: &str, e: LogEntry, effort: i128) -> IndexEntry {
    IndexEntry { id: id.to_string(), title: id.to_uppercase(), log_entry: e, total_effort: Duration { secs: effort } }
}

const T0: i64 = 1577872800; // 2020-01-01 10:00:00 UTC
const DAY: i64 = 86400;

#[test]
fn load_sorts_log() {
    let data = TaskData {
        title: "t".to_string(),
        log: vec![closed(T0 + 200, T0 + 300), closed(T0, T0 + 10), LogEntry::new(ts(T0 + 500)), closed(T0 + 100, T0 + 150)],
    };
    let t = Task::from_record("a".to_string(), data);
    assert_eq!(t.data.title, "t");
    let starts: Vec<i64> = t.data.log.iter().map(|e| e.start.secs).collect();
    assert_eq!(starts, vec![T0, T0 + 100, T0 + 200, T0 + 500]);
    assert!(t.data.log[3].is_open());
}

#[test]
fn effort_of_entries() {
    let e = closed(T0, T0 + 90 * 60);
    assert_eq!(e.effort(ts(T0 + 99999)).nice(), "1h30min");
    let open = LogEntry::new(ts(T0));
    assert_eq!(open.effort(ts(T0 + 60)).secs, 60);
    assert!(open.effort(ts(T0 + 120)).secs > open.effort(ts(T0 + 60)).secs);
    assert!(open.is_open() && !open.is_closed());
    let t = task("a", "A", vec![e, open]);
    assert_eq!(t.total_effort(ts(T0 + 100)).secs, 5400 + 100);
    assert_eq!(log_total_effort(&vec![], ts(T0)).secs, 0);
}

#[test]
fn clock_in_and_undo() {
    let index = Index::new();
    let mut t = task("a", "A", vec![closed(T0, T0 + 60)]);
    let before = t.data.log.clone();
    assert!(index.clock_in(&mut t, ts(T0 + 100)).is_ok());
    assert_eq!(t.data.log.len(), 2);
    assert_eq!(t.data.log[1], LogEntry::new(ts(T0 + 100)));
    assert!(index.un_clock_in(&mut t).is_ok());
    assert_eq!(t.data.log, before);
}

#[test]
fn clock_out_and_undo() {
    let index = Index::new();
    let mut t = task("a", "A", vec![LogEntry::new(ts(T0))]);
    let before = t.data.log.clone();
    assert!(index.clock_out(&mut t, ts(T0 + 60)).is_ok());
    assert_eq!(t.data.log, vec![closed(T0, T0 + 60)]);
    assert!(index.un_clock_out(&mut t).is_ok());
    assert_eq!(t.data.log, before);
}

#[test]
fn clock_errors() {
    let mut index = Index::new();
    let mut empty = task("e", "E", vec![]);
    assert!(matches!(index.clock_out(&mut empty, ts(T0)), Err(RepoError::InvalidState(StateError::EmptyLog))));
    assert!(matches!(index.un_clock_in(&mut empty), Err(RepoError::InvalidState(StateError::EmptyLog))));
    assert!(matches!(index.un_clock_out(&mut empty), Err(RepoError::InvalidState(StateError::EmptyLog))));

    let mut done = task("d", "D", vec![closed(T0, T0 + 5)]);
    assert!(matches!(index.clock_out(&mut done, ts(T0 + 9)), Err(RepoError::InvalidState(StateError::AlreadyClosed))));
    assert!(matches!(index.un_clock_in(&mut done), Err(RepoError::InvalidState(StateError::AlreadyClosed))));

    let mut open = task("o", "O", vec![LogEntry::new(ts(T0))]);
    assert!(matches!(index.un_clock_out(&mut open), Err(RepoError::InvalidState(StateError::AlreadyOpen))));
    assert!(matches!(index.clock_in(&mut open, ts(T0 + 1)), Err(RepoError::InvalidState(StateError::AlreadyOpen))));
    assert!(matches!(index.clock_out(&mut open, ts(T0 - 1)), Err(RepoError::InvalidState(StateError::EndBeforeStart))));
    assert_eq!(open.data.log, vec![LogEntry::new(ts(T0))]);

    index.update(&open, ts(T0 + 10));
    let mut other = task("x", "X", vec![]);
    assert!(matches!(index.clock_in(&mut other, ts(T0 + 20)), Err(RepoError::InvalidState(StateError::AlreadyActive))));
    assert!(other.data.log.is_empty());
}

#[test]
fn single_active_through_a_session() {
    let mut index = Index::new();
    let mut a = task("a", "A", vec![]);
    let mut b = task("b", "B", vec![]);
    index.clock_in(&mut a, ts(T0)).unwrap();
    index.update(&a, ts(T0));
    assert_eq!(index.is_clocked_in(), Some("a".to_string()));
    assert!(index.clock_in(&mut b, ts(T0 + 10)).is_err());
    index.clock_out(&mut a, ts(T0 + 20)).unwrap();
    index.update(&a, ts(T0 + 20));
    assert_eq!(index.is_clocked_in(), None);
    index.clock_in(&mut b, ts(T0 + 30)).unwrap();
    index.update(&b, ts(T0 + 30));
    assert!(index.check_consistency().is_ok());
    assert_eq!(index.active_target().unwrap(), "b");
    index.un_clock_in(&mut b).unwrap();
    index.update(&b, ts(T0 + 40));
    assert!(matches!(index.active_target(), Err(RepoError::InvalidState(StateError::NoneActive))));
    assert_eq!(index.entries().len(), 1);
}

#[test]
fn index_update_and_effort() {
    let mut index = Index::new();
    let t = task("a", "A", vec![closed(T0, T0 + 5400), closed(T0 + 6000, T0 + 6600)]);
    index.update(&t, ts(T0 + 7000));
    let e = &index.entries()[0];
    assert_eq!(e.id, "a");
    assert_eq!(e.title, "A");
    assert_eq!(e.log_entry, closed(T0 + 6000, T0 + 6600));
    assert_eq!(e.total_effort.nice(), "1h40min");
    index.update(&task("a", "A", vec![]), ts(T0));
    assert!(index.entries().is_empty());
}

#[test]
fn consistency_check() {
    let two_open = vec![entry("a", LogEntry::new(ts(T0)), 0), entry("b", LogEntry::new(ts(T0 + 1)), 0)];
    let index = Index::from_entries(two_open).unwrap();
    assert!(matches!(index.check_consistency(), Err(RepoError::IndexInconsistent)));
    let one_open = vec![entry("a", LogEntry::new(ts(T0)), 0), entry("b", closed(T0, T0 + 1), 1)];
    assert!(Index::from_entries(one_open).unwrap().check_consistency().is_ok());
    let dup = vec![entry("a", closed(T0, T0 + 1), 1), entry("a", closed(T0, T0 + 2), 2)];
    assert!(matches!(Index::from_entries(dup), Err(RepoError::Corrupt(_))));
}

#[test]
fn rebuild_is_idempotent() {
    let tasks = vec![
        task("a", "A", vec![closed(T0, T0 + 60)]),
        task("b", "B", vec![]),
        task("c", "C", vec![closed(T0 + 100, T0 + 200), LogEntry::new(ts(T0 + 300))]),
    ];
    let mut index = Index::from_entries(vec![entry("z", closed(T0, T0 + 1), 1)]).unwrap();
    index.rebuild(&tasks, ts(T0 + 400));
    let first: Vec<(String, String, LogEntry, Duration)> =
        index.entries().iter().map(|e| (e.id.clone(), e.title.clone(), e.log_entry, e.total_effort)).collect();
    index.rebuild(&tasks, ts(T0 + 400));
    let second: Vec<(String, String, LogEntry, Duration)> =
        index.entries().iter().map(|e| (e.id.clone(), e.title.clone(), e.log_entry, e.total_effort)).collect();
    assert_eq!(first, second);
    let ids: Vec<&str> = first.iter().map(|e| e.0.as_str()).collect();
    assert_eq!(ids, vec!["a", "c"]);
    assert_eq!(first[1].3.secs, 100 + 100);
}

#[test]
fn status_and_previous() {
    let index = Index::from_entries(vec![
        entry("a", closed(T0, T0 + 1), 1),
        entry("b", closed(T0 + 200, T0 + 201), 1),
        entry("c", LogEntry::new(ts(T0 + 100)), 0),
    ])
    .unwrap();
    let all: Vec<String> = index.get_status(0).iter().map(|s| s.id.clone()).collect();
    assert_eq!(all, vec!["b", "c", "a"]);
    let two: Vec<String> = index.get_status(2).iter().map(|s| s.id.clone()).collect();
    assert_eq!(two, vec!["b", "c"]);
    assert_eq!(index.get_status(9).len(), 3);
    assert_eq!(index.previous_task(1), Some(("c".to_string(), LogEntry::new(ts(T0 + 100)))));
    assert_eq!(index.previous_task(3), None);
    assert_eq!(index.idle_previous(0).unwrap(), "b");
    assert!(matches!(index.idle_previous(1), Err(RepoError::InvalidState(StateError::AlreadyActive))));
    assert!(matches!(index.idle_previous(3), Err(RepoError::InvalidState(StateError::NoPrevious))));
    let s = &index.get_status(1)[0];
    assert_eq!((s.start(), s.end(), s.total_effort.secs), (ts(T0 + 200), Some(ts(T0 + 201)), 1));
    assert_eq!(s.effort(ts(T0)).secs, 1);
}

#[test]
fn listing_filter() {
    let t = task("a", "A", vec![closed(T0, T0 + 60), closed(T0 + DAY, T0 + DAY + 60), closed(T0 + 2 * DAY, T0 + 2 * DAY + 60)]);
    let mut index = Index::new();
    index.update(&t, ts(T0));
    let after = ts(T0 - 10 * 3600 + DAY); // 2020-01-02 00:00 UTC
    assert_eq!(index.listing_candidates(Some(after)), vec!["a".to_string()]);
    assert!(index.listing_candidates(Some(ts(T0 + 3 * DAY))).is_empty());
    let rows = listing_rows(&vec![t], Some(after), None);
    let starts: Vec<i64> = rows.iter().map(|r| r.start().secs).collect();
    assert_eq!(starts, vec![T0 + 2 * DAY, T0 + DAY]);
    assert_eq!(rows[0].id, "a");
    assert_eq!(rows[0].title, "A");
    assert_eq!(rows[0].end(), Some(ts(T0 + 2 * DAY + 60)));
}

#[test]
fn listing_bounds_inclusive() {
    let a = task("a", "A", vec![closed(T0, T0 + 1), closed(T0 + 50, T0 + 51)]);
    let b = task("b", "B", vec![closed(T0 + 20, T0 + 21), closed(T0 + 100, T0 + 101)]);
    let rows = listing_rows(&vec![a, b], Some(ts(T0)), Some(ts(T0 + 50)));
    let got: Vec<(String, i64)> = rows.iter().map(|r| (r.id.clone(), r.start().secs)).collect();
    assert_eq!(got, vec![("a".to_string(), T0 + 50), ("b".to_string(), T0 + 20), ("a".to_string(), T0)]);
    assert!(listing_rows(&vec![], None, None).is_empty());
}

#[test]
fn day_grouping() {
    let a = task("a", "A", vec![closed(T0, T0 + 1800), closed(T0 + 3600, T0 + 3600 + 2700), closed(T0 + DAY, T0 + DAY + 600)]);
    let rows = listing_rows(&vec![a], None, None);
    let groups = group_by_day(&rows);
    assert_eq!(groups.len(), 2);
    assert_eq!((groups[0].start, groups[0].end), (0, 1));
    assert_eq!((groups[1].start, groups[1].end), (1, 3));
    assert_eq!(groups[1].day + 1, groups[0].day);
    let now = ts(T0 + 2 * DAY);
    assert_eq!(total_effort(&rows[groups[1].start..groups[1].end], now).nice(), "1h15min");
    assert_eq!(total_effort(&rows[groups[0].start..groups[0].end], now).secs, 600);
    assert!(group_by_day(&vec![]).is_empty());
}

#[test]
fn load_ignores_append_order() {
    let e = [closed(T0 + 200, T0 + 300), closed(T0, T0 + 10), closed(T0 + 100, T0 + 150)];
    let a = Task::from_record("a".to_string(), TaskData { title: "t".to_string(), log: vec![e[0], e[1], e[2]] });
    let b = Task::from_record("a".to_string(), TaskData { title: "t".to_string(), log: vec![e[2], e[0], e[1]] });
    assert_eq!(a.data.log, b.data.log);
    assert_eq!(a.data.log, vec![e[1], e[2], e[0]]);
    assert_eq!(a.data.title, b.data.title);
}

#[test]
fn index_entry_of_task() {
    let t = task("a", "A", vec![closed(T0, T0 + 60), LogEntry::new(ts(T0 + 100))]);
    let e = IndexEntry::new(&t, &t.data.log[1], ts(T0 + 160));
    assert_eq!((e.id.as_str(), e.title.as_str()), ("a", "A"));
    assert_eq!(e.total_effort.secs, 120);
    let s = e.to_status();
    assert_eq!((s.id, s.title, s.log_entry, s.total_effort), (e.id.clone(), e.title.clone(), e.log_entry, e.total_effort));
}

#[test]
fn record_paths() {
    assert_eq!(record_file("foo/bar"), "foo/bar.toml");
    assert_eq!(record_file("/foo"), "foo.toml");
    assert_eq!(record_id("foo/bar.toml"), Some("foo/bar".to_string()));
    assert_eq!(record_id(".toml"), None);
    assert_eq!(record_id("foo.txt"), None);
    assert_eq!(record_id("toml"), None);
}

#[test]
fn load_keeps_equal_starts_in_order() {
    let data = TaskData {
        title: "t".to_string(),
        log: vec![closed(T0 + 5, T0 + 9), closed(T0, T0), LogEntry::new(ts(T0))],
    };
    let t = Task::from_record("a".to_string(), data);
    assert_eq!(t.data.log, vec![closed(T0, T0), LogEntry::new(ts(T0)), closed(T0 + 5, T0 + 9)]);

    let mut index = Index::new();
    let mut u = task("u", "U", vec![closed(T0, T0)]);
    index.clock_in(&mut u, ts(T0)).unwrap();
    index.update(&u, ts(T0));
    let reloaded = Task::from_record("u".to_string(), TaskData { title: "U".to_string(), log: u.data.log.clone() });
    assert!(reloaded.data.log[1].is_open());
    let mut r = reloaded;
    assert!(index.clock_out(&mut r, ts(T0 + 1)).is_ok());
}

#[test]
fn reopening_refused_while_another_is_active() {
    let mut index = Index::new();
    let mut a = task("a", "A", vec![]);
    index.clock_in(&mut a, ts(T0)).unwrap();
    index.update(&a, ts(T0));
    let mut b = task("b", "B", vec![closed(T0 + 100, T0 + 200)]);
    index.update(&b, ts(T0 + 300));
    assert!(matches!(index.un_clock_out(&mut b), Err(RepoError::InvalidState(StateError::AlreadyActive))));
    assert_eq!(b.data.log, vec![closed(T0 + 100, T0 + 200)]);
    assert!(index.un_clock_out(&mut a).is_err());
    index.clock_out(&mut a, ts(T0 + 50)).unwrap();
    index.update(&a, ts(T0 + 50));
    assert!(index.un_clock_out(&mut b).is_ok());
    assert!(b.data.log[0].is_open());
}

#[test]
fn status_ties_follow_index_order() {
    let index = Index::from_entries(vec![
        entry("x", closed(T0, T0 + 1), 1),
        entry("y", closed(T0 + 5, T0 + 6), 1),
        entry("z", closed(T0, T0 + 2), 2),
        entry("w", closed(T0, T0 + 3), 3),
    ])
    .unwrap();
    let ids: Vec<String> = index.get_status(0).iter().map(|s| s.id.clone()).collect();
    assert_eq!(ids, vec!["y", "x", "z", "w"]);
    for i in 0..4 {
        assert_eq!(index.previous_task(i).unwrap().0, ids[i]);
        assert_eq!(index.idle_previous(i).unwrap(), ids[i]);
    }
}
