//! Settings values: the global scan settings and a directory's sync
//! configuration, with the defaults written when a settings file is missing
//! or unreadable, and the edits the settings editor performs.

use vstd::prelude::*;
use crate::scan::path_views;

verus! {

/// Whether `c` has the Unicode white-space property: trimming removes
/// exactly these characters.
pub open spec fn is_space_char(c: char) -> bool {
    ||| (9 <= c as u32 <= 13)
    ||| c == ' '
    ||| c as u32 == 133
    ||| c as u32 == 160
    ||| c as u32 == 5760
    ||| (8192 <= c as u32 <= 8202)
    ||| c as u32 == 8232
    ||| c as u32 == 8233
    ||| c as u32 == 8239
    ||| c as u32 == 8287
    ||| c as u32 == 12288
}

/// A string is blank when trimming leaves nothing of it.
pub open spec fn is_blank(s: Seq<char>) -> bool {
    forall|i: int| 0 <= i < s.len() ==> is_space_char(#[trigger] s[i])
}

fn char_is_space(c: char) -> (r: bool)
    ensures
        r == is_space_char(c),
{
    let x = c as u32;
    (9 <= x && x <= 13) || x == 32 || x == 133 || x == 160 || x == 5760 || (8192 <= x && x <= 8202)
        || x == 8232 || x == 8233 || x == 8239 || x == 8287 || x == 12288
}

/// Whether trimming white space off both ends of `s` leaves nothing.
pub fn str_is_blank(s: &str) -> (r: bool)
    ensures
        r == is_blank(s@),
{
    let n = s.unicode_len();
    let mut i: usize = 0;
    while i < n
        invariant
            n == s@.len(),
            0 <= i <= n,
            forall|k: int| 0 <= k < i ==> is_space_char(#[trigger] s@[k]),
        decreases n - i,
    {
        if !char_is_space(s.get_char(i)) {
            return false;
        }
        i = i + 1;
    }
    true
}

/// Global scan settings: which directories to watch and how long to pause
/// between polling cycles.
pub struct Settings {
    pub directories_to_scan: Vec<String>,
    pub seconds_between_scans: u64,
}

impl Default for Settings {
    /// The settings written when no settings file can be read: watch the
    /// working directory, scan once a minute.
    fn default() -> (s: Settings)
        ensures
            s.directories_to_scan@.len() == 1,
            s.directories_to_scan@[0]@ == "./"@,
            s.seconds_between_scans == 60,
    {
        let mut directories_to_scan: Vec<String> = Vec::new();
        directories_to_scan.push("./".to_owned());
        Settings { directories_to_scan, seconds_between_scans: 60 }
    }
}

impl Settings {
    /// Add a directory to the watch list, unless its path is blank.
    pub fn add_directory(&mut self, dir: String)
        ensures
            !is_blank(dir@) ==> final(self).directories_to_scan@ == old(
                self,
            ).directories_to_scan@.push(dir),
            is_blank(dir@) ==> *final(self) == *old(self),
            final(self).seconds_between_scans == old(self).seconds_between_scans,
    {
        if !str_is_blank(dir.as_str()) {
            self.directories_to_scan.push(dir);
        }
    }

    /// Remove every watch-list entry for `dir`, keeping the rest in order.
    pub fn remove_directory(&mut self, dir: &String)
        ensures
            path_views(final(self).directories_to_scan@) == keep_non_matching(
                path_views(old(self).directories_to_scan@),
                dir@,
            ),
            final(self).seconds_between_scans == old(self).seconds_between_scans,
    {
        let ghost pv = path_views(self.directories_to_scan@);
        let n = self.directories_to_scan.len();
        let mut kept: Vec<String> = Vec::new();
        let mut i: usize = 0;
        while i < n
            invariant
                n == self.directories_to_scan@.len(),
                pv == path_views(self.directories_to_scan@),
                0 <= i <= n,
                path_views(kept@) == keep_non_matching(pv.take(i as int), dir@),
            decreases n - i,
        {
            let ghost kpre = kept@;
            if !(self.directories_to_scan[i] == *dir) {
                kept.push(self.directories_to_scan[i].clone());
            }
            proof {
                assert(pv.take(i + 1 as int).drop_last() =~= pv.take(i as int));
                assert(pv.take(i + 1 as int).last() == pv[i as int]);
                if pv[i as int] != dir@ {
                    assert(path_views(kept@) =~= path_views(kpre).push(pv[i as int]));
                }
            }
            i = i + 1;
        }
        proof {
            assert(pv.take(n as int) =~= pv);
        }
        self.directories_to_scan = kept;
    }
}

/// The paths of `s` that differ from `p`, in order.
pub open spec fn keep_non_matching(s: Seq<Seq<char>>, p: Seq<char>) -> Seq<Seq<char>>
    decreases s.len(),
{
    if s.len() == 0 {
        Seq::empty()
    } else if s.last() == p {
        keep_non_matching(s.drop_last(), p)
    } else {
        keep_non_matching(s.drop_last(), p).push(s.last())
    }
}

/// A directory's sync configuration as its `sync.json` holds it. The
/// endpoint and the conflict policy are advisory: the transfer logic does
/// not read them yet.
pub struct SyncSettings {
    pub service: String,
    pub access_key: String,
    pub secret_key: String,
    pub region: String,
    pub bucket: String,
    pub endpoint: String,
    pub sync_type: String,
    pub conflicts: String,
    pub public: bool,
}

impl Default for SyncSettings {
    /// The configuration written when a directory's `sync.json` is missing
    /// or unreadable: placeholder credentials, upload-only, keep-local.
    fn default() -> (s: SyncSettings)
        ensures
            s.service@ == "s3"@,
            s.access_key@ == "YOUR_ACCESS_KEY"@,
            s.secret_key@ == "YOUR_SECRET_KEY"@,
            s.region@ == "us-east-1"@,
            s.bucket@ == "your-bucket-name"@,
            s.endpoint@ == ""@,
            s.sync_type@ == "upload-only"@,
            s.conflicts@ == "keep-local"@,
            s.public == false,
    {
        SyncSettings {
            service: "s3".to_owned(),
            access_key: "YOUR_ACCESS_KEY".to_owned(),
            secret_key: "YOUR_SECRET_KEY".to_owned(),
            region: "us-east-1".to_owned(),
            bucket: "your-bucket-name".to_owned(),
            endpoint: "".to_owned(),
            sync_type: "upload-only".to_owned(),
            conflicts: "keep-local".to_owned(),
            public: false,
        }
    }
}

impl SyncSettings {
    /// Whether this directory syncs to an S3-compatible backend, the one
    /// service kind the transfer logic understands.
    pub fn is_s3(&self) -> (r: bool)
        ensures
            r == (self.service@ == "s3"@),
    {
        crate::text::str_eq(self.service.as_str(), "s3")
    }
}

} // verus!
