//! Reports read from the index: the status of the most recent tasks, the
//! n-th previous task, and which tasks a listing must load.

use vstd::prelude::*;
use crate::index::{Index, IndexEntry, IndexEntryView};
use crate::models::{LogEntry, StatusItem};
use crate::order::{
    in_order, key_of, lemma_map_multiset, lemma_stable_order_unique, lemma_with_key_map, ordered, sort_by_key,
    sorted_desc, stable_order, with_key, Timed,
};
use crate::time::Timestamp;

verus! {

broadcast use vstd::seq_lib::group_to_multiset_ensures;

/// The start of an entry's latest log entry.
pub open spec fn start_key() -> spec_fn(IndexEntryView) -> int {
    |e: IndexEntryView| e.log_entry.start.secs as int
}

/// `s` holds the entries of `v`, most recent first, entries with equal
/// starts in their order in the index: the order of the status report and
/// of previous-task navigation.
pub open spec fn status_order(s: Seq<IndexEntryView>, v: Seq<IndexEntryView>) -> bool {
    s.to_multiset() == v.to_multiset() && stable_order(s, v, start_key(), true)
}

/// The status order of an index is fixed: there is one only.
pub proof fn lemma_status_order_unique(a: Seq<IndexEntryView>, b: Seq<IndexEntryView>, v: Seq<IndexEntryView>)
    requires
        status_order(a, v),
        status_order(b, v),
    ensures
        a == b,
{
    assert forall|k: int| #[trigger] with_key(a, start_key(), k) == with_key(b, start_key(), k) by {
        assert(with_key(a, start_key(), k) == with_key(v, start_key(), k));
        assert(with_key(b, start_key(), k) == with_key(v, start_key(), k));
    }
    lemma_stable_order_unique(a, b, start_key(), true);
}

pub open spec fn status_view(s: StatusItem) -> IndexEntryView {
    IndexEntryView {
        id: s.id@,
        title: s.title@,
        log_entry: s.log_entry,
        total_effort: s.total_effort.secs as int,
    }
}

/// How many rows a status report with this limit shows; zero means all.
pub open spec fn status_len(limit: nat, n: nat) -> nat {
    if limit == 0 || limit >= n { n } else { limit }
}

/// Some entry of `v` for `id` passes the lower bound `after`.
pub open spec fn candidate(v: Seq<IndexEntryView>, after: Option<Timestamp>, id: Seq<char>) -> bool {
    exists|j: int| 0 <= j < v.len() && v[j].id == id && starts_after(after, #[trigger] v[j].log_entry)
}

pub open spec fn listed(r: Seq<String>, id: Seq<char>) -> bool {
    exists|k: int| 0 <= k < r.len() && (#[trigger] r[k])@ == id
}

/// The entry passes a listing's lower bound.
pub open spec fn starts_after(after: Option<Timestamp>, e: LogEntry) -> bool {
    after matches Some(a) ==> e.start.secs >= a.secs
}

impl Index {
    /// Copies of the entries, most recent first, entries with equal starts
    /// in index order.
    pub fn sorted_entries(&self) -> (r: Vec<IndexEntry>)
        ensures
            status_order(r@.map_values(|e: IndexEntry| e.view()), self@),
    {
        let src = self.entries();
        let mut copies: Vec<IndexEntry> = Vec::new();
        let mut i: usize = 0;
        while i < src.len()
            invariant
                i <= src@.len(),
                copies@ == src@.subrange(0, i as int),
            decreases src@.len() - i,
        {
            copies.push(src[i].copy());
            assert(src@.subrange(0, i as int + 1) =~= src@.subrange(0, i as int).push(src@[i as int]));
            i = i + 1;
        }
        assert(copies@ =~= src@);
        let sorted = sort_by_key(copies, true);
        proof {
            lemma_map_multiset(sorted@, src@, |e: IndexEntry| e.view());
            let s = sorted@.map_values(|e: IndexEntry| e.view());
            assert forall|x: IndexEntry| start_key()(x.view()) == #[trigger] key_of::<IndexEntry>()(x) by {}
            assert forall|k: int| #[trigger] with_key(s, start_key(), k) == with_key(self@, start_key(), k) by {
                lemma_with_key_map(sorted@, |e: IndexEntry| e.view(), start_key(), key_of::<IndexEntry>(), k);
                lemma_with_key_map(src@, |e: IndexEntry| e.view(), start_key(), key_of::<IndexEntry>(), k);
                assert(with_key(sorted@, key_of::<IndexEntry>(), k) == with_key(src@, key_of::<IndexEntry>(), k));
            }
            assert(sorted_desc(sorted@));
            assert forall|i: int, j: int| 0 <= i < j < s.len() implies in_order(true, start_key()(#[trigger] s[i]), start_key()(#[trigger] s[j])) by {
                assert(sorted@[i].key() >= sorted@[j].key());
            }
        }
        sorted
    }

    /// The task `i` places back in recency: `0` is the one with the latest
    /// last entry.
    pub fn previous_task(&self, i: usize) -> (r: Option<(String, LogEntry)>)
        ensures
            r is Some <==> i < self@.len(),
            exists|s: Seq<IndexEntryView>| #[trigger] status_order(s, self@),
            r matches Some((id, e)) ==> forall|s: Seq<IndexEntryView>| #[trigger] status_order(s, self@) ==>
                s.len() == self@.len() && s[i as int].id == id@ && s[i as int].log_entry == e,
    {
        let sorted = self.sorted_entries();
        let ghost s = sorted@.map_values(|e: IndexEntry| e.view());
        proof {
            assert(s.len() == self@.len()) by {
                assert(s.to_multiset().len() == self@.to_multiset().len());
            }
            assert forall|t: Seq<IndexEntryView>| #[trigger] status_order(t, self@) implies t == s by {
                lemma_status_order_unique(t, s, self@);
            }
        }
        if i < sorted.len() {
            let id = sorted[i].id.clone();
            let e = sorted[i].log_entry;
            assert(s[i as int].id == id@);
            Some((id, e))
        } else {
            None
        }
    }

    /// The status of each task, most recent first, cut to `limit` rows
    /// unless `limit` is zero.
    pub fn get_status(&self, limit: usize) -> (r: Vec<StatusItem>)
        ensures
            r@.len() == status_len(limit as nat, self@.len()),
            exists|s: Seq<IndexEntryView>| #[trigger] status_order(s, self@),
            forall|s: Seq<IndexEntryView>| #[trigger] status_order(s, self@) ==> s.len() == self@.len()
                && forall|k: int| 0 <= k < r@.len() ==> status_view(#[trigger] r@[k]) == s[k],
    {
        let sorted = self.sorted_entries();
        let ghost s = sorted@.map_values(|e: IndexEntry| e.view());
        proof {
            assert(s.to_multiset().len() == self@.to_multiset().len());
            assert forall|t: Seq<IndexEntryView>| #[trigger] status_order(t, self@) implies t == s by {
                lemma_status_order_unique(t, s, self@);
            }
        }
        let n = sorted.len();
        let k: usize = if limit == 0 || limit >= n { n } else { limit };
        let mut out: Vec<StatusItem> = Vec::new();
        let mut i: usize = 0;
        while i < k
            invariant
                k <= n,
                n == sorted@.len(),
                s == sorted@.map_values(|e: IndexEntry| e.view()),
                i <= k,
                out@.len() == i,
                forall|j: int| 0 <= j < i ==> status_view(#[trigger] out@[j]) == s[j],
            decreases k - i,
        {
            out.push(sorted[i].to_status());
            i = i + 1;
        }
        assert(status_order(s, self@));
        out
    }

    /// The tasks whose latest entry starts no earlier than `after`: those
    /// that a listing from `after` must load.
    pub fn listing_candidates(&self, after: Option<Timestamp>) -> (r: Vec<String>)
        ensures
            forall|k: int| 0 <= k < r@.len() ==> candidate(self@, after, (#[trigger] r@[k])@),
            forall|i: int| 0 <= i < self@.len() && starts_after(after, #[trigger] self@[i].log_entry) ==>
                listed(r@, self@[i].id),
    {
        let src = self.entries();
        let ghost v = self@;
        let mut out: Vec<String> = Vec::new();
        let mut i: usize = 0;
        while i < src.len()
            invariant
                i <= src@.len(),
                v == self@,
                v == src@.map_values(|e: IndexEntry| e.view()),
                forall|k: int| 0 <= k < out@.len() ==> candidate(v, after, (#[trigger] out@[k])@),
                forall|j: int| 0 <= j < i && starts_after(after, #[trigger] v[j].log_entry) ==> listed(out@, v[j].id),
            decreases src@.len() - i,
        {
            let e = &src[i];
            let keep = match after {
                Some(a) => e.log_entry.start.secs >= a.secs,
                None => true,
            };
            if keep {
                let ghost before = out@;
                out.push(e.id.clone());
                assert(out@[before.len() as int]@ == v[i as int].id);
                assert(v[i as int] == src@[i as int].view());
                assert(starts_after(after, v[i as int].log_entry));
                assert(candidate(v, after, v[i as int].id));
                assert forall|k: int| 0 <= k < out@.len() implies candidate(v, after, (#[trigger] out@[k])@) by {
                    if k < before.len() {
                        assert(out@[k] == before[k]);
                    }
                }
                assert forall|j: int| 0 <= j < i + 1 && starts_after(after, #[trigger] v[j].log_entry) implies
                    listed(out@, v[j].id) by {
                    if j < i {
                        assert(listed(before, v[j].id));
                        let k0 = choose|k: int| 0 <= k < before.len() && (#[trigger] before[k])@ == v[j].id;
                        assert(out@[k0] == before[k0]);
                    } else {
                        assert(out@[before.len() as int]@ == v[j].id);
                    }
                }
            }
            i = i + 1;
        }
        out
    }
}

} // verus!
