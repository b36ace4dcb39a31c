//! Synchronization cycle planning: derive each file's remote object key
//! from its path, and route every upload candidate that is absent remotely
//! to the single-shot or the chunked uploader by size.

use vstd::prelude::*;
use vstd::string::{StrSliceExecFns, StringExecFns};
use crate::upload::PART_SIZE;

verus! {

/// Mathematical value of an [`UploadCandidate`].
pub ghost struct UploadCandidateView {
    pub path: Seq<char>,
    pub size: u64,
    pub exists_remote: bool,
}

/// A path the scanner classified as "to sync", with its size and whether
/// the backend already stores its object.
pub struct UploadCandidate {
    pub path: String,
    pub size: u64,
    pub exists_remote: bool,
}

impl View for UploadCandidate {
    type V = UploadCandidateView;

    open spec fn view(&self) -> UploadCandidateView {
        UploadCandidateView { path: self.path@, size: self.size, exists_remote: self.exists_remote }
    }
}

/// How one file is transferred.
#[derive(PartialEq, Eq, Structural, Clone, Copy, Debug)]
pub enum UploadMethod {
    /// The whole file as one request.
    Single,
    /// The file split into ordered parts.
    Chunked,
}

/// Mathematical value of an [`UploadAction`].
pub ghost struct UploadActionView {
    pub path: Seq<char>,
    pub size: u64,
    pub method: UploadMethod,
}

/// One upload the cycle decided to perform.
pub struct UploadAction {
    pub path: String,
    pub size: u64,
    pub method: UploadMethod,
}

impl View for UploadAction {
    type V = UploadActionView;

    open spec fn view(&self) -> UploadActionView {
        UploadActionView { path: self.path@, size: self.size, method: self.method }
    }
}

/// The views of a sequence of candidates.
pub open spec fn candidate_views(s: Seq<UploadCandidate>) -> Seq<UploadCandidateView> {
    s.map_values(|c: UploadCandidate| c@)
}

/// The views of a sequence of actions.
pub open spec fn action_views(s: Seq<UploadAction>) -> Seq<UploadActionView> {
    s.map_values(|a: UploadAction| a@)
}

/// Files strictly larger than one part are transferred chunked; everything
/// else goes as a single object.
pub open spec fn method_for(size: u64) -> UploadMethod {
    if size > PART_SIZE {
        UploadMethod::Chunked
    } else {
        UploadMethod::Single
    }
}

/// The uploads a cycle performs for the given candidates: one action per
/// candidate absent remotely, in candidate order, routed by size.
pub open spec fn plan_spec(cs: Seq<UploadCandidateView>) -> Seq<UploadActionView>
    decreases cs.len(),
{
    if cs.len() == 0 {
        Seq::empty()
    } else if cs.last().exists_remote {
        plan_spec(cs.drop_last())
    } else {
        plan_spec(cs.drop_last()).push(
            (UploadActionView {
                path: cs.last().path,
                size: cs.last().size,
                method: method_for(cs.last().size),
            }),
        )
    }
}

/// Pick the transfer method for a file of `size` bytes.
pub fn choose_method(size: u64) -> (m: UploadMethod)
    ensures
        m == method_for(size),
{
    if size > PART_SIZE {
        UploadMethod::Chunked
    } else {
        UploadMethod::Single
    }
}

/// Decide the cycle's uploads: skip every candidate whose object already
/// exists remotely, and route the rest by size.
pub fn plan_uploads(candidates: &Vec<UploadCandidate>) -> (actions: Vec<UploadAction>)
    ensures
        action_views(actions@) == plan_spec(candidate_views(candidates@)),
{
    let ghost cv = candidate_views(candidates@);
    let n = candidates.len();
    let mut actions: Vec<UploadAction> = Vec::new();
    let mut i: usize = 0;
    while i < n
        invariant
            n == candidates@.len(),
            cv == candidate_views(candidates@),
            0 <= i <= n,
            action_views(actions@) == plan_spec(cv.take(i as int)),
        decreases n - i,
    {
        let ghost apre = actions@;
        let c = &candidates[i];
        if !c.exists_remote {
            let action = UploadAction {
                path: c.path.clone(),
                size: c.size,
                method: choose_method(c.size),
            };
            actions.push(action);
        }
        proof {
            assert(cv.take(i + 1 as int).drop_last() =~= cv.take(i as int));
            assert(cv.take(i + 1 as int).last() == cv[i as int]);
            if !cv[i as int].exists_remote {
                assert(action_views(actions@) =~= action_views(apre).push(
                    (UploadActionView {
                        path: cv[i as int].path,
                        size: cv[i as int].size,
                        method: method_for(cv[i as int].size),
                    }),
                ));
            }
        }
        i = i + 1;
    }
    proof {
        assert(cv.take(n as int) =~= cv);
    }
    actions
}

/// A cycle over candidates whose objects all exist remotely issues no
/// upload at all.
pub proof fn lemma_plan_skips_existing(cs: Seq<UploadCandidateView>)
    requires
        forall|i: int| 0 <= i < cs.len() ==> (#[trigger] cs[i]).exists_remote,
    ensures
        plan_spec(cs) == Seq::<UploadActionView>::empty(),
    decreases cs.len(),
{
    if cs.len() == 0 {
    } else {
        assert(forall|i: int|
            0 <= i < cs.drop_last().len() ==> #[trigger] cs.drop_last()[i] == cs[i]);
        lemma_plan_skips_existing(cs.drop_last());
    }
}

/// Re-running a cycle against an unchanged directory issues zero uploads:
/// the rescan classifies nothing as "to sync", so the cycle has no
/// candidates at all and its plan is empty. (Candidates whose objects all
/// already exist remotely are covered by [`lemma_plan_skips_existing`].)
pub proof fn lemma_unchanged_cycle_plans_nothing(
    l: Seq<crate::scan::FileObservationView>,
    cs: Seq<UploadCandidateView>,
)
    requires
        crate::scan::unique_paths(l),
        cs.len() <= crate::scan::to_sync_spec(l, crate::scan::scan_result_map(l)).len(),
    ensures
        cs.len() == 0,
        plan_spec(cs) == Seq::<UploadActionView>::empty(),
{
    crate::scan::lemma_rescan_unchanged_empty(l);
}

/// A path separator as the backend wants it: backslashes become slashes.
pub open spec fn normalize_separators(s: Seq<char>) -> Seq<char> {
    s.map_values(
        |c: char|
            if c == '\\' {
                '/'
            } else {
                c
            },
    )
}

/// `s` without its leading slashes.
pub open spec fn drop_leading_slashes(s: Seq<char>) -> Seq<char>
    decreases s.len(),
{
    if s.len() > 0 && s[0] == '/' {
        drop_leading_slashes(s.drop_first())
    } else {
        s
    }
}

/// Whether `dir` is a character-for-character prefix of `path`.
pub open spec fn is_path_prefix(dir: Seq<char>, path: Seq<char>) -> bool {
    dir.len() <= path.len() && path.subrange(0, dir.len() as int) == dir
}

/// The object key for a file at `path` under the watched directory `dir`:
/// the path relative to the directory, separators normalized, leading
/// slashes dropped.
pub open spec fn remote_key_spec(path: Seq<char>, dir: Seq<char>) -> Seq<char> {
    drop_leading_slashes(normalize_separators(path.skip(dir.len() as int)))
}

/// Derive the remote object key for a file at `path` inside the watched
/// directory `dir`; a path outside the directory has no key.
pub fn remote_key_for(path: &str, dir: &str) -> (r: Option<String>)
    ensures
        r is Some <==> is_path_prefix(dir@, path@),
        r is Some ==> r->Some_0@ == remote_key_spec(path@, dir@),
{
    let plen = path.unicode_len();
    let dlen = dir.unicode_len();
    if dlen > plen {
        return Option::None;
    }
    let mut i: usize = 0;
    while i < dlen
        invariant
            plen == path@.len(),
            dlen == dir@.len(),
            dlen <= plen,
            0 <= i <= dlen,
            forall|k: int| 0 <= k < i ==> path@[k] == dir@[k],
        decreases dlen - i,
    {
        if path.get_char(i) != dir.get_char(i) {
            proof {
                assert(path@.subrange(0, dlen as int)[i as int] != dir@[i as int]);
            }
            return Option::None;
        }
        i = i + 1;
    }
    proof {
        assert(path@.subrange(0, dlen as int) =~= dir@);
    }
    let suffix = path.substring_char(dlen, plen);
    let slen = suffix.unicode_len();
    let mut norm = String::new();
    let mut j: usize = 0;
    while j < slen
        invariant
            slen == suffix@.len(),
            0 <= j <= slen,
            norm@ == normalize_separators(suffix@.take(j as int)),
        decreases slen - j,
    {
        let c = suffix.get_char(j);
        if c == '\\' {
            norm.append("/");
            proof {
                reveal_strlit("/");
                assert(norm@ =~= normalize_separators(suffix@.take(j + 1 as int)));
            }
        } else {
            let piece = suffix.substring_char(j, j + 1);
            norm.append(piece);
            proof {
                assert(norm@ =~= normalize_separators(suffix@.take(j + 1 as int)));
            }
        }
        j = j + 1;
    }
    proof {
        assert(suffix@.take(slen as int) =~= suffix@);
        assert(suffix@ =~= path@.skip(dlen as int));
    }
    let nlen = norm.as_str().unicode_len();
    proof {
        assert(norm@.skip(0) =~= norm@);
    }
    let mut k: usize = 0;
    while k < nlen && norm.as_str().get_char(k) == '/'
        invariant
            nlen == norm@.len(),
            0 <= k <= nlen,
            drop_leading_slashes(norm@) == drop_leading_slashes(norm@.skip(k as int)),
        decreases nlen - k,
    {
        proof {
            assert(norm@.skip(k as int)[0] == norm@[k as int]);
            assert(norm@.skip(k as int).drop_first() =~= norm@.skip(k + 1 as int));
        }
        k = k + 1;
    }
    proof {
        if k == nlen {
            assert(norm@.skip(k as int) =~= Seq::<char>::empty());
            assert(drop_leading_slashes(norm@.skip(k as int)) =~= norm@.skip(k as int));
        } else {
            assert(norm@.skip(k as int)[0] == norm@[k as int]);
            assert(drop_leading_slashes(norm@.skip(k as int)) == norm@.skip(k as int));
        }
        assert(norm@.skip(k as int) =~= norm@.subrange(k as int, nlen as int));
    }
    let key = norm.as_str().substring_char(k, nlen);
    Option::Some(key.to_owned())
}

} // verus!
