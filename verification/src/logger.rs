//! Progress log: one record per transfer, updated in place as bytes land,
//! and a rolling persistence window of the four most-recently-updated
//! records, most recent first.

use vstd::prelude::*;
use vstd::seq_lib::lemma_multiset_commutative;
use crate::text::str_eq;

verus! {

broadcast use vstd::seq_lib::group_to_multiset_ensures;

/// Mathematical value of a [`LogEntry`].
pub ghost struct LogEntryView {
    pub file_path: Seq<char>,
    pub destination_service: Seq<char>,
    pub destination_bucket: Seq<char>,
    pub completed_bytes: u64,
    pub total_bytes: u64,
    pub completed: bool,
    pub updated_at: u64,
}

/// Progress record for one file transfer: where it comes from, where it
/// goes, and how far it has got.
pub struct LogEntry {
    pub file_path: String,
    pub destination_service: String,
    pub destination_bucket: String,
    pub completed_bytes: u64,
    pub total_bytes: u64,
    pub completed: bool,
    pub updated_at: u64,
}

impl View for LogEntry {
    type V = LogEntryView;

    open spec fn view(&self) -> LogEntryView {
        LogEntryView {
            file_path: self.file_path@,
            destination_service: self.destination_service@,
            destination_bucket: self.destination_bucket@,
            completed_bytes: self.completed_bytes,
            total_bytes: self.total_bytes,
            completed: self.completed,
            updated_at: self.updated_at,
        }
    }
}

/// The views of a sequence of entries.
pub open spec fn views(s: Seq<LogEntry>) -> Seq<LogEntryView> {
    s.map_values(|e: LogEntry| e@)
}

/// Entries ordered by last-updated timestamp, most recent first.
pub open spec fn sorted_by_recency(s: Seq<LogEntryView>) -> bool {
    forall|i: int, j: int| 0 <= i <= j < s.len() ==> s[i].updated_at >= s[j].updated_at
}

/// `i` is the index of the first entry of `s` recording `path`.
pub open spec fn is_first_match(s: Seq<LogEntryView>, path: Seq<char>, i: int) -> bool {
    &&& 0 <= i < s.len()
    &&& s[i].file_path == path
    &&& forall|j: int| 0 <= j < i ==> s[j].file_path != path
}

/// Relies on std::time::SystemTime::now for seconds since the Unix epoch;
/// the machine's clock decides the value, so nothing is promised of it.
#[verifier::external_body]
fn now_secs() -> u64 {
    match std::time::SystemTime::now().duration_since(std::time::UNIX_EPOCH) {
        Ok(d) => d.as_secs(),
        Err(_) => 0,
    }
}

impl LogEntry {
    /// A fresh record for a transfer about to start: no bytes landed yet,
    /// not completed, stamped with the current time.
    pub fn new(
        file_path: String,
        destination_service: String,
        destination_bucket: String,
        total_bytes: u64,
    ) -> (e: LogEntry)
        ensures
            e@.file_path == file_path@,
            e@.destination_service == destination_service@,
            e@.destination_bucket == destination_bucket@,
            e@.completed_bytes == 0,
            e@.total_bytes == total_bytes,
            e@.completed == false,
    {
        LogEntry {
            file_path,
            destination_service,
            destination_bucket,
            completed_bytes: 0,
            total_bytes,
            completed: false,
            updated_at: now_secs(),
        }
    }

    /// A field-for-field copy of this record.
    pub fn duplicate(&self) -> (r: LogEntry)
        ensures
            r@ == self@,
    {
        LogEntry {
            file_path: self.file_path.clone(),
            destination_service: self.destination_service.clone(),
            destination_bucket: self.destination_bucket.clone(),
            completed_bytes: self.completed_bytes,
            total_bytes: self.total_bytes,
            completed: self.completed,
            updated_at: self.updated_at,
        }
    }
}

/// In-memory transfer log. The persisted form is not the whole history:
/// [`Log::rolling_window`] yields the bounded, ordered window that goes to
/// disk.
pub struct Log {
    pub entries: Vec<LogEntry>,
}

impl Log {
    /// An empty log.
    pub fn new() -> (log: Log)
        ensures
            log.entries@.len() == 0,
    {
        Log { entries: Vec::new() }
    }

    /// Append a record for a transfer that just started.
    pub fn add_entry(&mut self, entry: LogEntry)
        ensures
            final(self).entries@ == old(self).entries@.push(entry),
    {
        self.entries.push(entry);
    }

    /// Set the byte count of the first record for `file_path` and mark it
    /// completed, stamping it with the current time. A log without a record
    /// for `file_path` is left unchanged.
    pub fn update_entry(&mut self, file_path: &str, completed_bytes: u64)
        ensures
            final(self).entries@.len() == old(self).entries@.len(),
            (forall|i: int|
                0 <= i < old(self).entries@.len() ==> views(old(self).entries@)[i].file_path
                    != file_path@) ==> final(self).entries@ == old(self).entries@,
            forall|i: int, j: int|
                is_first_match(views(old(self).entries@), file_path@, i) && 0 <= j < old(self).entries@.len() && j != i ==> final(self).entries@[j] == old(self).entries@[j],
            forall|i: int|
                #[trigger] is_first_match(views(old(self).entries@), file_path@, i) ==> {
                    &&& final(self).entries@[i]@.file_path == old(self).entries@[i]@.file_path
                    &&& final(self).entries@[i]@.destination_service == old(self).entries@[i]@.destination_service
                    &&& final(self).entries@[i]@.destination_bucket == old(self).entries@[i]@.destination_bucket
                    &&& final(self).entries@[i]@.total_bytes == old(self).entries@[i]@.total_bytes
                    &&& final(self).entries@[i]@.completed_bytes == completed_bytes
                    &&& final(self).entries@[i]@.completed == true
                },
    {
        let n = self.entries.len();
        let mut i: usize = 0;
        while i < n
            invariant
                self.entries@ == old(self).entries@,
                n == self.entries@.len(),
                0 <= i <= n,
                forall|j: int| 0 <= j < i ==> views(self.entries@)[j].file_path != file_path@,
            decreases n - i,
        {
            if str_eq(self.entries[i].file_path.as_str(), file_path) {
                let e = &self.entries[i];
                let updated = LogEntry {
                    file_path: e.file_path.clone(),
                    destination_service: e.destination_service.clone(),
                    destination_bucket: e.destination_bucket.clone(),
                    completed_bytes,
                    total_bytes: e.total_bytes,
                    completed: true,
                    updated_at: now_secs(),
                };
                self.entries[i] = updated;
                proof {
                    assert(views(old(self).entries@)[i as int].file_path == file_path@);
                    assert(is_first_match(views(old(self).entries@), file_path@, i as int));
                    assert(forall|k: int|
                        is_first_match(views(old(self).entries@), file_path@, k) ==> k == i);
                }
                return ;
            }
            i = i + 1;
        }
    }

    /// Add `bytes` to the byte count of the first record for `file_path`,
    /// leaving every other field alone. A log without a record for
    /// `file_path` is left unchanged.
    pub fn increment_progress(&mut self, file_path: &str, bytes: u64)
        requires
            forall|i: int|
                0 <= i < old(self).entries@.len() ==> #[trigger] old(self).entries@[i].completed_bytes + bytes <= u64::MAX,
        ensures
            final(self).entries@.len() == old(self).entries@.len(),
            (forall|i: int|
                0 <= i < old(self).entries@.len() ==> views(old(self).entries@)[i].file_path
                    != file_path@) ==> final(self).entries@ == old(self).entries@,
            forall|i: int, j: int|
                is_first_match(views(old(self).entries@), file_path@, i) && 0 <= j < old(self).entries@.len() && j != i ==> final(self).entries@[j] == old(self).entries@[j],
            forall|i: int|
                #[trigger] is_first_match(views(old(self).entries@), file_path@, i) ==> final(self).entries@[i]@ == (LogEntryView {
                    completed_bytes: (old(self).entries@[i]@.completed_bytes + bytes) as u64,
                    ..old(self).entries@[i]@
                }),
    {
        let n = self.entries.len();
        let mut i: usize = 0;
        while i < n
            invariant
                self.entries@ == old(self).entries@,
                n == self.entries@.len(),
                0 <= i <= n,
                forall|j: int| 0 <= j < i ==> views(self.entries@)[j].file_path != file_path@,
                forall|j: int|
                    0 <= j < n ==> #[trigger] self.entries@[j].completed_bytes + bytes <= u64::MAX,
            decreases n - i,
        {
            if str_eq(self.entries[i].file_path.as_str(), file_path) {
                let e = &self.entries[i];
                let updated = LogEntry {
                    file_path: e.file_path.clone(),
                    destination_service: e.destination_service.clone(),
                    destination_bucket: e.destination_bucket.clone(),
                    completed_bytes: e.completed_bytes + bytes,
                    total_bytes: e.total_bytes,
                    completed: e.completed,
                    updated_at: e.updated_at,
                };
                self.entries[i] = updated;
                proof {
                    assert(views(old(self).entries@)[i as int].file_path == file_path@);
                    assert(is_first_match(views(old(self).entries@), file_path@, i as int));
                    assert(forall|k: int|
                        is_first_match(views(old(self).entries@), file_path@, k) ==> k == i);
                }
                return ;
            }
            i = i + 1;
        }
    }

    /// The window that is persisted: at most the four most-recently-updated
    /// records, most recent first. Records beyond the window are exactly
    /// those whose timestamp does not beat the window's last place.
    pub fn rolling_window(&self) -> (w: Vec<LogEntry>)
        ensures
            w@.len() == if self.entries@.len() < 4 {
                self.entries@.len() as int
            } else {
                4
            },
            sorted_by_recency(views(w@)),
            forall|v: LogEntryView| #[trigger]
                views(w@).to_multiset().count(v) <= views(self.entries@).to_multiset().count(v),
            forall|j: int|
                0 <= j < self.entries@.len() && views(w@).to_multiset().count(
                    #[trigger] views(self.entries@)[j],
                ) < views(self.entries@).to_multiset().count(views(self.entries@)[j])
                    ==> w@.len() == 4 && views(self.entries@)[j].updated_at
                    <= views(w@)[3].updated_at,
    {
        let sorted = self.sorted_by_recency_desc();
        let mut w = sorted;
        let ghost pre_truncate = w@;
        w.truncate(4);
        proof {
            let sv = views(pre_truncate);
            let ev = views(self.entries@);
            if pre_truncate.len() <= 4 {
                assert(w@ == pre_truncate);
            } else {
                assert(w@ == pre_truncate.subrange(0, 4));
                let wv = views(w@);
                assert(wv =~= sv.take(4));
                assert(sv =~= sv.take(4) + sv.skip(4));
                lemma_multiset_commutative(sv.take(4), sv.skip(4));
                assert(sv.to_multiset() =~= sv.take(4).to_multiset().add(
                    sv.skip(4).to_multiset(),
                ));
                assert forall|j: int|
                    0 <= j < ev.len() && wv.to_multiset().count(#[trigger] ev[j])
                        < ev.to_multiset().count(ev[j]) implies wv.len() == 4 && ev[j].updated_at
                    <= wv[3].updated_at by {
                    let excess = sv.skip(4);
                    assert(excess.to_multiset().count(ev[j]) > 0);
                    assert(excess.contains(ev[j]));
                    let k = choose|k: int| 0 <= k < excess.len() && excess[k] == ev[j];
                    assert(sv[k + 4] == ev[j]);
                    assert(sv[k + 4].updated_at <= sv[3].updated_at);
                }
            }
        }
        w
    }

    /// The whole log, ordered by last-updated timestamp, most recent first.
    pub fn sorted_by_recency_desc(&self) -> (sorted: Vec<LogEntry>)
        ensures
            sorted@.len() == self.entries@.len(),
            sorted_by_recency(views(sorted@)),
            views(sorted@).to_multiset() == views(self.entries@).to_multiset(),
    {
        let n = self.entries.len();
        let mut sorted: Vec<LogEntry> = Vec::new();
        let mut idx: usize = 0;
        while idx < n
            invariant
                n == self.entries@.len(),
                0 <= idx <= n,
                sorted@.len() == idx,
                sorted_by_recency(views(sorted@)),
                views(sorted@).to_multiset() == views(self.entries@.take(idx as int)).to_multiset(),
            decreases n - idx,
        {
            let e = self.entries[idx].duplicate();
            let ua = e.updated_at;
            let mut j: usize = 0;
            while j < sorted.len() && sorted[j].updated_at >= ua
                invariant
                    0 <= j <= sorted@.len(),
                    forall|k: int| 0 <= k < j ==> views(sorted@)[k].updated_at >= ua,
                decreases sorted@.len() - j,
            {
                j = j + 1;
            }
            let ghost old_views = views(sorted@);
            let ghost ev = e@;
            sorted.insert(j, e);
            proof {
                assert(views(sorted@) =~= old_views.insert(j as int, ev));
                old_views.insert_ensures(j as int, ev);
                lemma_to_multiset_insert(old_views, j as int, ev);
                assert(sorted_by_recency(views(sorted@))) by {
                    let nv = old_views.insert(j as int, ev);
                    assert forall|x: int, y: int| 0 <= x <= y < nv.len() implies nv[x].updated_at
                        >= nv[y].updated_at by {
                        if y < j {
                        } else if x > j {
                            assert(nv[x] == old_views[x - 1]);
                            assert(nv[y] == old_views[y - 1]);
                        } else if x == j && y == j {
                        } else if x < j && y == j {
                            assert(nv[x] == old_views[x]);
                        } else if x < j && y > j {
                            assert(nv[x] == old_views[x]);
                            assert(nv[y] == old_views[y - 1]);
                        } else {
                            assert(x == j && y > j);
                            assert(nv[y] == old_views[y - 1]);
                            assert(old_views[j as int].updated_at < ua);
                            assert(old_views[y - 1].updated_at <= old_views[j as int].updated_at);
                        }
                    }
                }
                assert(views(self.entries@.take(idx + 1 as int)) =~= views(
                    self.entries@.take(idx as int),
                ).push(self.entries@[idx as int]@));
                assert(views(self.entries@.take(idx as int)).push(
                    self.entries@[idx as int]@,
                ).to_multiset() =~= views(self.entries@.take(idx as int)).to_multiset().insert(
                    self.entries@[idx as int]@,
                ));
            }
            idx = idx + 1;
        }
        proof {
            assert(self.entries@.take(n as int) =~= self.entries@);
        }
        sorted
    }
}

/// Inserting an element anywhere in a sequence adds it, and nothing else,
/// to the sequence's multiset.
proof fn lemma_to_multiset_insert<A>(s: Seq<A>, j: int, e: A)
    requires
        0 <= j <= s.len(),
    ensures
        s.insert(j, e).to_multiset() =~= s.to_multiset().insert(e),
{
    broadcast use vstd::multiset::group_multiset_axioms;

    let pre = s.take(j);
    let post = s.skip(j);
    assert(s.insert(j, e) =~= pre.push(e) + post);
    assert(s =~= pre + post);
    lemma_multiset_commutative(pre.push(e), post);
    lemma_multiset_commutative(pre, post);
    assert(pre.push(e).to_multiset() =~= pre.to_multiset().insert(e));
}

} // verus!
