//! Change detection: a per-directory manifest of last-observed modification
//! times, held against a snapshot of the directory's current regular files
//! to produce the delta of paths to upload and paths that vanished.

use vstd::prelude::*;

verus! {

/// Mathematical value of a [`FileObservation`].
pub ghost struct FileObservationView {
    pub path: Seq<char>,
    pub mtime: u64,
}

/// One regular file as a directory listing snapshot reports it: its path
/// and its modification time.
pub struct FileObservation {
    pub path: String,
    pub mtime: u64,
}

impl View for FileObservation {
    type V = FileObservationView;

    open spec fn view(&self) -> FileObservationView {
        FileObservationView { path: self.path@, mtime: self.mtime }
    }
}

/// The views of a listing snapshot.
pub open spec fn obs_views(s: Seq<FileObservation>) -> Seq<FileObservationView> {
    s.map_values(|o: FileObservation| o@)
}

/// The views of a sequence of paths.
pub open spec fn path_views(s: Seq<String>) -> Seq<Seq<char>> {
    s.map_values(|p: String| p@)
}

/// Whether the listing reports a file at `p`.
pub open spec fn listing_contains(l: Seq<FileObservationView>, p: Seq<char>) -> bool {
    exists|j: int| 0 <= j < l.len() && l[j].path == p
}

/// The modification time the listing reports for `p`.
pub open spec fn listing_mtime(l: Seq<FileObservationView>, p: Seq<char>) -> u64 {
    l[choose|j: int| 0 <= j < l.len() && l[j].path == p].mtime
}

/// A directory listing reports each path at most once.
pub open spec fn unique_paths(l: Seq<FileObservationView>) -> bool {
    forall|i: int, j: int| 0 <= i < j < l.len() ==> l[i].path != l[j].path
}

/// A file requires upload when the manifest has never seen its path, or has
/// seen it with a strictly older modification time.
pub open spec fn needs_sync(o: FileObservationView, m: Map<Seq<char>, u64>) -> bool {
    !m.contains_key(o.path) || o.mtime > m[o.path]
}

/// The paths a scan of listing `l` against manifest `m` classifies as "to
/// sync", in listing order.
pub open spec fn to_sync_spec(l: Seq<FileObservationView>, m: Map<Seq<char>, u64>) -> Seq<
    Seq<char>,
>
    decreases l.len(),
{
    if l.len() == 0 {
        Seq::empty()
    } else if needs_sync(l.last(), m) {
        to_sync_spec(l.drop_last(), m).push(l.last().path)
    } else {
        to_sync_spec(l.drop_last(), m)
    }
}

/// The manifest a scan of listing `l` leaves behind, whatever it held
/// before: exactly the listed paths, each at its reported time.
pub open spec fn scan_result_map(l: Seq<FileObservationView>) -> Map<Seq<char>, u64> {
    Map::new(|p: Seq<char>| listing_contains(l, p), |p: Seq<char>| listing_mtime(l, p))
}

/// Whether a scan of listing `l` against manifest `m` reports the path `p`
/// as deleted: the manifest knew it and the listing no longer shows it.
pub open spec fn deleted_in_scan(
    m: Map<Seq<char>, u64>,
    l: Seq<FileObservationView>,
    p: Seq<char>,
) -> bool {
    m.dom().contains(p) && !listing_contains(l, p)
}

/// Whether one of the first `i` listing entries reports the path `p`.
pub open spec fn in_prefix(l: Seq<FileObservationView>, i: int, p: Seq<char>) -> bool {
    exists|j: int| 0 <= j < i && l[j].path == p
}

/// Result of one scan: the paths that require upload and the paths that
/// vanished since the previous scan, each reported once.
pub struct SyncDelta {
    pub to_sync: Vec<String>,
    pub deleted: Vec<String>,
}

/// Whether the listing snapshot reports a file at `path`.
fn listing_has(listing: &Vec<FileObservation>, path: &String) -> (r: bool)
    ensures
        r == listing_contains(obs_views(listing@), path@),
{
    let n = listing.len();
    let mut j: usize = 0;
    while j < n
        invariant
            n == listing@.len(),
            0 <= j <= n,
            forall|k: int| 0 <= k < j ==> obs_views(listing@)[k].path != path@,
        decreases n - j,
    {
        if listing[j].path == *path {
            proof {
                assert(obs_views(listing@)[j as int].path == path@);
            }
            return true;
        }
        j = j + 1;
    }
    false
}

/// One manifest entry: a path and the modification time last observed at it.
struct ManifestEntry {
    path: String,
    mtime: u64,
}

/// Whether some entry of `s` records the path `p`.
spec fn has_path(s: Seq<ManifestEntry>, p: Seq<char>) -> bool {
    exists|k: int| 0 <= k < s.len() && s[k].path@ == p
}

/// The modification time `s` records for `p`.
spec fn mtime_at(s: Seq<ManifestEntry>, p: Seq<char>) -> u64 {
    s[choose|k: int| 0 <= k < s.len() && s[k].path@ == p].mtime
}

/// Entries record pairwise-distinct paths.
spec fn entries_unique(s: Seq<ManifestEntry>) -> bool {
    forall|i: int, j: int| 0 <= i < j < s.len() ==> s[i].path@ != s[j].path@
}

/// Appending an entry with a fresh path keeps entries unique, adds exactly
/// that path, and moves no recorded time.
proof fn lemma_push_entry(pre: Seq<ManifestEntry>, e: ManifestEntry)
    requires
        entries_unique(pre),
        !has_path(pre, e.path@),
    ensures
        entries_unique(pre.push(e)),
        forall|p: Seq<char>| #[trigger]
            has_path(pre.push(e), p) <==> (has_path(pre, p) || e.path@ == p),
        forall|p: Seq<char>|
            has_path(pre, p) ==> #[trigger] mtime_at(pre.push(e), p) == mtime_at(pre, p),
        mtime_at(pre.push(e), e.path@) == e.mtime,
{
    let post = pre.push(e);
    assert forall|p: Seq<char>| #[trigger] has_path(post, p) implies (has_path(pre, p) || e.path@
        == p) by {
        let k = choose|k: int| 0 <= k < post.len() && post[k].path@ == p;
        if k < pre.len() {
            assert(pre[k].path@ == p);
        }
    }
    assert forall|p: Seq<char>| (has_path(pre, p) || e.path@ == p) implies #[trigger] has_path(
        post,
        p,
    ) by {
        if has_path(pre, p) {
            let k = choose|k: int| 0 <= k < pre.len() && pre[k].path@ == p;
            assert(post[k].path@ == p);
        } else {
            assert(post[pre.len() as int].path@ == p);
        }
    }
    assert forall|p: Seq<char>| has_path(pre, p) implies #[trigger] mtime_at(post, p) == mtime_at(
        pre,
        p,
    ) by {
        let k1 = choose|k: int| 0 <= k < post.len() && post[k].path@ == p;
        let k2 = choose|k: int| 0 <= k < pre.len() && pre[k].path@ == p;
        assert(pre[k2].path@ == p);
        assert(post[k2].path@ == p);
        assert(k1 != pre.len() as int);
        assert(post[k1] == pre[k1]);
        assert(k1 == k2);
    }
    assert(mtime_at(post, e.path@) == e.mtime) by {
        let k1 = choose|k: int| 0 <= k < post.len() && post[k].path@ == e.path@;
        assert(post[pre.len() as int].path@ == e.path@);
        if k1 < pre.len() {
            assert(pre[k1].path@ == e.path@);
        }
    }
}

/// Rewriting the time of one entry keeps entries unique, keeps the recorded
/// paths, retimes that path, and moves no other recorded time.
proof fn lemma_update_entry(pre: Seq<ManifestEntry>, k: int, e: ManifestEntry)
    requires
        entries_unique(pre),
        0 <= k < pre.len(),
        e.path@ == pre[k].path@,
    ensures
        entries_unique(pre.update(k, e)),
        forall|p: Seq<char>| #[trigger] has_path(pre.update(k, e), p) <==> has_path(pre, p),
        forall|p: Seq<char>|
            has_path(pre, p) && p != e.path@ ==> #[trigger] mtime_at(pre.update(k, e), p)
                == mtime_at(pre, p),
        mtime_at(pre.update(k, e), e.path@) == e.mtime,
{
    let post = pre.update(k, e);
    assert forall|p: Seq<char>| #[trigger] has_path(post, p) implies has_path(pre, p) by {
        let k1 = choose|j: int| 0 <= j < post.len() && post[j].path@ == p;
        if k1 == k {
            assert(pre[k].path@ == p);
        } else {
            assert(pre[k1].path@ == p);
        }
    }
    assert forall|p: Seq<char>| has_path(pre, p) implies #[trigger] has_path(post, p) by {
        let k1 = choose|j: int| 0 <= j < pre.len() && pre[j].path@ == p;
        if k1 == k {
            assert(post[k].path@ == p);
        } else {
            assert(post[k1].path@ == p);
        }
    }
    assert forall|p: Seq<char>| has_path(pre, p) && p != e.path@ implies #[trigger] mtime_at(
        post,
        p,
    ) == mtime_at(pre, p) by {
        let k1 = choose|j: int| 0 <= j < post.len() && post[j].path@ == p;
        let k2 = choose|j: int| 0 <= j < pre.len() && pre[j].path@ == p;
        assert(pre[k2].path@ == p);
        assert(k2 != k);
        assert(post[k2].path@ == p);
        assert(k1 != k);
        assert(pre[k1].path@ == p);
        assert(k1 == k2);
    }
    assert(mtime_at(post, e.path@) == e.mtime) by {
        let k1 = choose|j: int| 0 <= j < post.len() && post[j].path@ == e.path@;
        assert(post[k].path@ == e.path@);
        if k1 != k {
            assert(pre[k1].path@ == pre[k].path@);
        }
    }
}

/// Per-directory manifest: each path under the directory mapped to the
/// modification time last observed for it. Mutated only by [`Self::scan`].
pub struct FileManifest {
    entries: Vec<ManifestEntry>,
}

impl View for FileManifest {
    type V = Map<Seq<char>, u64>;

    closed spec fn view(&self) -> Map<Seq<char>, u64> {
        Map::new(
            |p: Seq<char>| has_path(self.entries@, p),
            |p: Seq<char>| mtime_at(self.entries@, p),
        )
    }
}

impl FileManifest {
    /// Manifest invariant: one entry per path.
    pub closed spec fn wf(&self) -> bool {
        entries_unique(self.entries@)
    }

    /// An empty manifest: the state before the first scan of a directory.
    pub fn new() -> (m: FileManifest)
        ensures
            m.wf(),
            m@ == Map::<Seq<char>, u64>::empty(),
    {
        let m = FileManifest { entries: Vec::new() };
        proof {
            assert(m@ =~= Map::<Seq<char>, u64>::empty());
        }
        m
    }

    /// Whether the manifest has an entry for `path`.
    pub fn contains_path(&self, path: &String) -> (r: bool)
        ensures
            r == self@.dom().contains(path@),
    {
        match self.find_index(path) {
            Option::Some(_) => true,
            Option::None => false,
        }
    }

    /// The modification time recorded for `path`, if any.
    pub fn mtime_of(&self, path: &String) -> (r: Option<u64>)
        requires
            self.wf(),
        ensures
            r is Some <==> self@.dom().contains(path@),
            r is Some ==> r->Some_0 == self@[path@],
    {
        match self.find_index(path) {
            Option::Some(k) => {
                proof {
                    let k2 = choose|j: int|
                        0 <= j < self.entries@.len() && self.entries@[j].path@ == path@;
                    assert(k2 == k);
                }
                Option::Some(self.entries[k].mtime)
            },
            Option::None => Option::None,
        }
    }

    /// One polling pass over a directory. `listing` is the snapshot of the
    /// directory's current regular files; the manifest is brought up to
    /// date, and the delta says which paths need upload and which vanished.
    pub fn scan(&mut self, listing: &Vec<FileObservation>) -> (delta: SyncDelta)
        requires
            old(self).wf(),
            unique_paths(obs_views(listing@)),
        ensures
            final(self).wf(),
            final(self)@ == scan_result_map(obs_views(listing@)),
            path_views(delta.to_sync@) == to_sync_spec(obs_views(listing@), old(self)@),
            forall|p: Seq<char>| #[trigger]
                path_views(delta.deleted@).contains(p) <==> deleted_in_scan(
                    old(self)@,
                    obs_views(listing@),
                    p,
                ),
            forall|x: int, y: int|
                0 <= x < y < delta.deleted@.len() ==> delta.deleted@[x]@ != delta.deleted@[y]@,
    {
        let ghost m0 = old(self)@;
        let ghost lv = obs_views(listing@);
        let n = listing.len();
        let mut to_sync: Vec<String> = Vec::new();
        let mut i: usize = 0;
        while i < n
            invariant
                self.wf(),
                n == listing@.len(),
                lv == obs_views(listing@),
                m0 == old(self)@,
                unique_paths(lv),
                0 <= i <= n,
                forall|j: int|
                    0 <= j < i ==> has_path(self.entries@, #[trigger] lv[j].path) && mtime_at(
                        self.entries@,
                        lv[j].path,
                    ) == lv[j].mtime,
                forall|p: Seq<char>| #[trigger]
                    has_path(self.entries@, p) <==> (m0.dom().contains(p) || in_prefix(
                        lv,
                        i as int,
                        p,
                    )),
                forall|p: Seq<char>|
                    m0.dom().contains(p) && !in_prefix(lv, i as int, p) ==> #[trigger] mtime_at(
                        self.entries@,
                        p,
                    ) == m0[p],
                path_views(to_sync@) == to_sync_spec(lv.take(i as int), m0),
            decreases n - i,
        {
            let obs = &listing[i];
            let ghost pre = self.entries@;
            let ghost tspre = to_sync@;
            proof {
                assert(obs@ == lv[i as int]);
                assert(!in_prefix(lv, i as int, lv[i as int].path)) by {
                    if in_prefix(lv, i as int, lv[i as int].path) {
                        let j = choose|j: int| 0 <= j < i && lv[j].path == lv[i as int].path;
                    }
                }
            }
            match self.find_index(&obs.path) {
                Option::None => {
                    to_sync.push(obs.path.clone());
                    let e = ManifestEntry { path: obs.path.clone(), mtime: obs.mtime };
                    self.entries.push(e);
                    proof {
                        assert(!m0.dom().contains(lv[i as int].path));
                        assert(needs_sync(lv[i as int], m0));
                        lemma_push_entry(pre, self.entries@[pre.len() as int]);
                    }
                },
                Option::Some(k) => {
                    proof {
                        assert(has_path(pre, lv[i as int].path));
                        assert(m0.dom().contains(lv[i as int].path));
                        let k2 = choose|j: int| 0 <= j < pre.len() && pre[j].path@ == lv[i as int].path;
                        assert(k2 == k);
                        assert(mtime_at(pre, lv[i as int].path) == pre[k as int].mtime);
                        assert(m0[lv[i as int].path] == pre[k as int].mtime);
                    }
                    if obs.mtime > self.entries[k].mtime {
                        to_sync.push(obs.path.clone());
                        proof {
                            assert(needs_sync(lv[i as int], m0));
                        }
                    } else {
                        proof {
                            assert(!needs_sync(lv[i as int], m0));
                        }
                    }
                    let newe = ManifestEntry { path: self.entries[k].path.clone(), mtime: obs.mtime };
                    self.entries[k] = newe;
                    proof {
                        lemma_update_entry(pre, k as int, self.entries@[k as int]);
                    }
                },
            }
            proof {
                assert(lv.take(i + 1 as int).drop_last() =~= lv.take(i as int));
                assert(lv.take(i + 1 as int).last() == lv[i as int]);
                if needs_sync(lv[i as int], m0) {
                    assert(path_views(to_sync@) =~= path_views(tspre).push(lv[i as int].path));
                } else {
                    assert(to_sync@ == tspre);
                }
                assert forall|p: Seq<char>| #[trigger] in_prefix(lv, i + 1 as int, p) implies (
                in_prefix(lv, i as int, p) || lv[i as int].path == p) by {
                    let j = choose|j: int| 0 <= j < i + 1 && lv[j].path == p;
                    if j < i {
                        assert(in_prefix(lv, i as int, p));
                    }
                }
                assert forall|p: Seq<char>| (in_prefix(lv, i as int, p) || lv[i as int].path
                    == p) implies #[trigger] in_prefix(lv, i + 1 as int, p) by {
                    if in_prefix(lv, i as int, p) {
                        let j = choose|j: int| 0 <= j < i && lv[j].path == p;
                        assert(0 <= j < i + 1 && lv[j].path == p);
                    } else {
                        assert(0 <= i < i + 1 && lv[i as int].path == p);
                    }
                }
            }
            i = i + 1;
        }
        proof {
            assert(lv.take(n as int) =~= lv);
        }
        let ghost entries1 = self.entries@;
        let m = self.entries.len();
        let mut kept: Vec<ManifestEntry> = Vec::new();
        let mut deleted: Vec<String> = Vec::new();
        let mut t: usize = 0;
        while t < m
            invariant
                entries1 == self.entries@,
                entries_unique(entries1),
                m == entries1.len(),
                lv == obs_views(listing@),
                0 <= t <= m,
                entries_unique(kept@),
                forall|p: Seq<char>| #[trigger]
                    has_path(kept@, p) <==> (exists|j: int|
                        0 <= j < t && entries1[j].path@ == p && listing_contains(lv, p)),
                forall|j: int|
                    0 <= j < t && listing_contains(lv, #[trigger] entries1[j].path@) ==> mtime_at(
                        kept@,
                        entries1[j].path@,
                    ) == entries1[j].mtime,
                forall|p: Seq<char>| #[trigger]
                    path_views(deleted@).contains(p) <==> (exists|j: int|
                        0 <= j < t && entries1[j].path@ == p && !listing_contains(lv, p)),
                forall|x: int, y: int|
                    0 <= x < y < deleted@.len() ==> deleted@[x]@ != deleted@[y]@,
            decreases m - t,
        {
            let e = &self.entries[t];
            proof {
                assert(!has_path(kept@, entries1[t as int].path@)) by {
                    if has_path(kept@, entries1[t as int].path@) {
                        let j = choose|j: int|
                            0 <= j < t && entries1[j].path@ == entries1[t as int].path@
                                && listing_contains(lv, entries1[t as int].path@);
                    }
                }
                assert(!path_views(deleted@).contains(entries1[t as int].path@)) by {
                    if path_views(deleted@).contains(entries1[t as int].path@) {
                        let j = choose|j: int|
                            0 <= j < t && entries1[j].path@ == entries1[t as int].path@
                                && !listing_contains(lv, entries1[t as int].path@);
                    }
                }
            }
            if listing_has(listing, &e.path) {
                let ghost kpre = kept@;
                kept.push(ManifestEntry { path: e.path.clone(), mtime: e.mtime });
                proof {
                    lemma_push_entry(kpre, kept@[kpre.len() as int]);
                    assert forall|p: Seq<char>| #[trigger]
                        has_path(kept@, p) implies (exists|j: int|
                        0 <= j < t + 1 && entries1[j].path@ == p && listing_contains(lv, p)) by {
                        if has_path(kpre, p) {
                            let j = choose|j: int|
                                0 <= j < t && entries1[j].path@ == p && listing_contains(lv, p);
                            assert(0 <= j < t + 1 && entries1[j].path@ == p);
                        } else {
                            assert(entries1[t as int].path@ == p);
                        }
                    }
                    assert forall|p: Seq<char>| (exists|j: int|
                        0 <= j < t + 1 && entries1[j].path@ == p && listing_contains(
                            lv,
                            p,
                        )) implies #[trigger] has_path(kept@, p) by {
                        let j = choose|j: int|
                            0 <= j < t + 1 && entries1[j].path@ == p && listing_contains(lv, p);
                        if j < t {
                            assert(has_path(kpre, p));
                        }
                    }
                }
            } else {
                let ghost dpre = deleted@;
                deleted.push(e.path.clone());
                proof {
                    assert forall|x: int| 0 <= x < dpre.len() implies deleted@[x]@
                        != entries1[t as int].path@ by {
                        assert(path_views(dpre)[x] == dpre[x]@);
                        if dpre[x]@ == entries1[t as int].path@ {
                            assert(path_views(dpre).contains(entries1[t as int].path@));
                        }
                    }
                    assert forall|p: Seq<char>| #[trigger]
                        path_views(deleted@).contains(p) implies (exists|j: int|
                        0 <= j < t + 1 && entries1[j].path@ == p && !listing_contains(lv, p)) by {
                        let x = choose|x: int|
                            0 <= x < path_views(deleted@).len() && path_views(deleted@)[x] == p;
                        if x < dpre.len() {
                            assert(path_views(dpre)[x] == p);
                            assert(path_views(dpre).contains(p));
                            let j = choose|j: int|
                                0 <= j < t && entries1[j].path@ == p && !listing_contains(lv, p);
                            assert(0 <= j < t + 1 && entries1[j].path@ == p);
                        } else {
                            assert(entries1[t as int].path@ == p);
                        }
                    }
                    assert forall|p: Seq<char>| (exists|j: int|
                        0 <= j < t + 1 && entries1[j].path@ == p && !listing_contains(
                            lv,
                            p,
                        )) implies #[trigger] path_views(deleted@).contains(p) by {
                        let j = choose|j: int|
                            0 <= j < t + 1 && entries1[j].path@ == p && !listing_contains(lv, p);
                        if j < t {
                            assert(path_views(dpre).contains(p));
                            let x = choose|x: int|
                                0 <= x < path_views(dpre).len() && path_views(dpre)[x] == p;
                            assert(path_views(deleted@)[x] == p);
                        } else {
                            assert(path_views(deleted@)[dpre.len() as int] == p);
                        }
                    }
                }
            }
            t = t + 1;
        }
        self.entries = kept;
        proof {
            assert forall|p: Seq<char>| #[trigger]
                has_path(self.entries@, p) implies listing_contains(lv, p) by {
                let j = choose|j: int|
                    0 <= j < m && entries1[j].path@ == p && listing_contains(lv, p);
            }
            assert forall|p: Seq<char>|
                listing_contains(lv, p) implies #[trigger] has_path(self.entries@, p) by {
                let j0 = choose|j: int| 0 <= j < lv.len() && lv[j].path == p;
                assert(in_prefix(lv, n as int, p));
                assert(has_path(entries1, p));
                let j1 = choose|j: int| 0 <= j < entries1.len() && entries1[j].path@ == p;
                assert(0 <= j1 < m && entries1[j1].path@ == p && listing_contains(lv, p));
            }
            assert forall|p: Seq<char>|
                listing_contains(lv, p) implies #[trigger] mtime_at(self.entries@, p)
                == listing_mtime(lv, p) by {
                let j0 = choose|j: int| 0 <= j < lv.len() && lv[j].path == p;
                assert(mtime_at(entries1, lv[j0].path) == lv[j0].mtime);
                assert(has_path(entries1, p));
                let j1 = choose|j: int| 0 <= j < entries1.len() && entries1[j].path@ == p;
                assert(mtime_at(kept@, entries1[j1].path@) == entries1[j1].mtime);
                assert(mtime_at(entries1, p) == entries1[choose|j: int|
                    0 <= j < entries1.len() && entries1[j].path@ == p].mtime);
            }
            assert(final(self)@ =~= scan_result_map(lv));
            assert forall|p: Seq<char>| #[trigger]
                path_views(deleted@).contains(p) implies deleted_in_scan(m0, lv, p) by {
                let j = choose|j: int|
                    0 <= j < m && entries1[j].path@ == p && !listing_contains(lv, p);
                assert(has_path(entries1, p));
                assert(!in_prefix(lv, n as int, p));
            }
            assert forall|p: Seq<char>| deleted_in_scan(m0, lv, p) implies #[trigger] path_views(
                deleted@,
            ).contains(p) by {
                assert(has_path(entries1, p));
                let j1 = choose|j: int| 0 <= j < entries1.len() && entries1[j].path@ == p;
            }
        }
        SyncDelta { to_sync, deleted }
    }

    /// Index of the entry recording `path`, if any.
    fn find_index(&self, path: &String) -> (r: Option<usize>)
        ensures
            match r {
                Option::Some(k) => 0 <= k < self.entries@.len() && self.entries@[k as int].path@
                    == path@,
                Option::None => !has_path(self.entries@, path@),
            },
    {
        let n = self.entries.len();
        let mut j: usize = 0;
        while j < n
            invariant
                n == self.entries@.len(),
                0 <= j <= n,
                forall|k: int| 0 <= k < j ==> self.entries@[k].path@ != path@,
            decreases n - j,
        {
            if self.entries[j].path == *path {
                return Option::Some(j);
            }
            j = j + 1;
        }
        Option::None
    }
}

/// A scan of a listing whose every path the manifest already records at a
/// time no older than observed classifies nothing as "to sync".
proof fn lemma_to_sync_empty_when_fresh(l: Seq<FileObservationView>, m: Map<Seq<char>, u64>)
    requires
        forall|j: int|
            0 <= j < l.len() ==> m.contains_key(#[trigger] l[j].path) && m[l[j].path] >= l[j].mtime,
    ensures
        to_sync_spec(l, m) == Seq::<Seq<char>>::empty(),
    decreases l.len(),
{
    if l.len() == 0 {
    } else {
        assert(forall|j: int| 0 <= j < l.drop_last().len() ==> #[trigger] l.drop_last()[j] == l[j]);
        lemma_to_sync_empty_when_fresh(l.drop_last(), m);
        assert(!needs_sync(l.last(), m));
    }
}

/// Scanning twice in a row with no filesystem change leaves nothing to
/// sync: the manifest the first scan leaves behind records every listed
/// path at its listed time, so the second scan's "to sync" set is empty.
pub proof fn lemma_rescan_unchanged_empty(l: Seq<FileObservationView>)
    requires
        unique_paths(l),
    ensures
        to_sync_spec(l, scan_result_map(l)) == Seq::<Seq<char>>::empty(),
{
    let m = scan_result_map(l);
    assert forall|j: int| 0 <= j < l.len() implies m.contains_key(#[trigger] l[j].path)
        && m[l[j].path] >= l[j].mtime by {
        assert(listing_contains(l, l[j].path));
        let k = choose|k: int| 0 <= k < l.len() && l[k].path == l[j].path;
        assert(k == j) by {
            if k < j {
                assert(l[k].path != l[j].path);
            } else if j < k {
                assert(l[j].path != l[k].path);
            }
        }
    }
    lemma_to_sync_empty_when_fresh(l, m);
}

/// A file the scan classifies as "to sync" appears in the "to sync" paths.
proof fn lemma_needs_sync_in_to_sync(l: Seq<FileObservationView>, m: Map<Seq<char>, u64>, i: int)
    requires
        0 <= i < l.len(),
        needs_sync(l[i], m),
    ensures
        to_sync_spec(l, m).contains(l[i].path),
    decreases l.len(),
{
    if i == l.len() - 1 {
        let tos = to_sync_spec(l, m);
        assert(tos.last() == l[i].path);
        assert(tos[tos.len() - 1] == l[i].path);
    } else {
        assert(l.drop_last()[i] == l[i]);
        lemma_needs_sync_in_to_sync(l.drop_last(), m, i);
        let rest = to_sync_spec(l.drop_last(), m);
        let w = choose|w: int| 0 <= w < rest.len() && rest[w] == l[i].path;
        if needs_sync(l.last(), m) {
            assert(to_sync_spec(l, m)[w] == l[i].path);
        } else {
            assert(to_sync_spec(l, m)[w] == l[i].path);
        }
    }
}

/// Every "to sync" path is a listed path.
proof fn lemma_to_sync_elements(l: Seq<FileObservationView>, m: Map<Seq<char>, u64>)
    ensures
        forall|x: int|
            0 <= x < to_sync_spec(l, m).len() ==> listing_contains(
                l,
                #[trigger] to_sync_spec(l, m)[x],
            ),
    decreases l.len(),
{
    if l.len() == 0 {
    } else {
        lemma_to_sync_elements(l.drop_last(), m);
        let rest = to_sync_spec(l.drop_last(), m);
        let tos = to_sync_spec(l, m);
        assert forall|x: int| 0 <= x < tos.len() implies listing_contains(
            l,
            #[trigger] tos[x],
        ) by {
            if x < rest.len() {
                assert(tos[x] == rest[x]);
                let j = choose|j: int|
                    0 <= j < l.drop_last().len() && l.drop_last()[j].path == rest[x];
                assert(l[j].path == rest[x]);
            } else {
                assert(tos[x] == l.last().path);
                assert(l[l.len() - 1].path == tos[x]);
            }
        }
    }
}

/// With a listing that reports each path once, no path is classified as
/// "to sync" twice in one scan.
pub proof fn lemma_to_sync_no_duplicates(l: Seq<FileObservationView>, m: Map<Seq<char>, u64>)
    requires
        unique_paths(l),
    ensures
        forall|x: int, y: int|
            0 <= x < y < to_sync_spec(l, m).len() ==> to_sync_spec(l, m)[x] != to_sync_spec(
                l,
                m,
            )[y],
    decreases l.len(),
{
    if l.len() == 0 {
    } else {
        assert(forall|j: int| 0 <= j < l.drop_last().len() ==> #[trigger] l.drop_last()[j] == l[j]);
        lemma_to_sync_no_duplicates(l.drop_last(), m);
        lemma_to_sync_elements(l.drop_last(), m);
        let rest = to_sync_spec(l.drop_last(), m);
        let tos = to_sync_spec(l, m);
        if needs_sync(l.last(), m) {
            assert forall|x: int, y: int| 0 <= x < y < tos.len() implies tos[x] != tos[y] by {
                if y == tos.len() - 1 {
                    assert(tos[y] == l.last().path);
                    assert(tos[x] == rest[x]);
                    assert(listing_contains(l.drop_last(), rest[x]));
                    let j = choose|j: int|
                        0 <= j < l.drop_last().len() && l.drop_last()[j].path == rest[x];
                    assert(l[j].path == rest[x]);
                    assert(l[j].path != l[l.len() - 1].path);
                } else {
                    assert(tos[x] == rest[x] && tos[y] == rest[y]);
                }
            }
        }
    }
}

/// A file created between two scans is classified as "to sync" by the
/// first scan after its creation, exactly once in that scan's paths, and
/// not by the following scan of an unchanged listing.
pub proof fn lemma_new_file_synced_once(
    l: Seq<FileObservationView>,
    m0: Map<Seq<char>, u64>,
    i: int,
)
    requires
        unique_paths(l),
        0 <= i < l.len(),
        !m0.contains_key(l[i].path),
    ensures
        to_sync_spec(l, m0).contains(l[i].path),
        forall|x: int, y: int|
            0 <= x < y < to_sync_spec(l, m0).len() ==> to_sync_spec(l, m0)[x] != to_sync_spec(
                l,
                m0,
            )[y],
        !to_sync_spec(l, scan_result_map(l)).contains(l[i].path),
{
    lemma_needs_sync_in_to_sync(l, m0, i);
    lemma_to_sync_no_duplicates(l, m0);
    lemma_rescan_unchanged_empty(l);
}

/// A file removed between two scans is reported as deleted by the first
/// scan after its removal, is absent from the manifest that scan leaves
/// behind, and is not reported again by the following scan of an unchanged
/// listing.
pub proof fn lemma_removed_file_reported_once(
    m0: Map<Seq<char>, u64>,
    l: Seq<FileObservationView>,
    p: Seq<char>,
)
    requires
        m0.dom().contains(p),
        !listing_contains(l, p),
    ensures
        deleted_in_scan(m0, l, p),
        !scan_result_map(l).dom().contains(p),
        !deleted_in_scan(scan_result_map(l), l, p),
{
}

} // verus!
