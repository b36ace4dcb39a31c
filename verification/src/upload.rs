//! Chunked ("multipart") upload: part arithmetic and the session state
//! machine with ordered part assembly and finalize/abort semantics.

use vstd::prelude::*;
use crate::logger::{is_first_match, views, Log};
use vstd::arithmetic::div_mod::{
    lemma_div_decreases, lemma_fundamental_div_mod, lemma_fundamental_div_mod_converse_div,
    lemma_mod_division_less_than_divisor, lemma_small_mod,
};

verus! {

/// Fixed size of every part except possibly the last, in bytes (5 MiB).
/// Files strictly larger than this are routed to chunked upload.
pub const PART_SIZE: u64 = 5 * 1024 * 1024;

/// Number of parts needed to carry `total` bytes: ceil(total / PART_SIZE).
pub open spec fn num_parts(total: u64) -> int {
    if total as int % (PART_SIZE as int) == 0 {
        total as int / (PART_SIZE as int)
    } else {
        total as int / (PART_SIZE as int) + 1
    }
}

/// Length of part `pn` (numbered from 1) of a `total`-byte file: every part
/// before the last is exactly PART_SIZE; the last carries the remainder.
pub open spec fn part_len(total: u64, pn: int) -> int {
    if pn < num_parts(total) {
        PART_SIZE as int
    } else {
        total as int - (num_parts(total) - 1) * (PART_SIZE as int)
    }
}

/// Bytes carried by the first `k` parts of a `total`-byte file.
pub open spec fn bytes_after_parts(k: int, total: u64) -> int {
    if k * (PART_SIZE as int) <= total as int {
        k * (PART_SIZE as int)
    } else {
        total as int
    }
}

/// Sum of the lengths of parts 1 through `k` of a `total`-byte file.
pub open spec fn sum_part_lens(total: u64, k: int) -> int
    decreases k,
{
    if k <= 0 {
        0
    } else {
        sum_part_lens(total, k - 1) + part_len(total, k)
    }
}

/// The part count brackets the file size: the first `num_parts - 1` full
/// parts fall short of `total`, and `num_parts` full parts reach it.
pub proof fn lemma_parts_bounds(total: u64)
    requires
        total > 0,
    ensures
        1 <= num_parts(total),
        (num_parts(total) - 1) * (PART_SIZE as int) < total as int,
        total as int <= num_parts(total) * (PART_SIZE as int),
{
    let p = PART_SIZE as int;
    let t = total as int;
    lemma_fundamental_div_mod(t, p);
    lemma_mod_division_less_than_divisor(t, p);
    let q = t / p;
    let r = t % p;
    if r == 0 {
        assert(num_parts(total) == q);
        assert(t == p * q);
        assert(q >= 1) by {
            if q <= 0 {
                assert(p * q <= 0) by (nonlinear_arith)
                    requires p > 0 && q <= 0;
            }
        }
        assert((q - 1) * p == p * q - p) by (nonlinear_arith);
        assert(q * p == p * q) by (nonlinear_arith);
    } else {
        assert(num_parts(total) == q + 1);
        assert(t == p * q + r);
        assert(q >= 0) by {
            if q < 0 {
                assert(p * q <= -p) by (nonlinear_arith)
                    requires p > 0 && q < 0;
            }
        }
        assert(((q + 1) - 1) * p == p * q) by (nonlinear_arith);
        assert((q + 1) * p == p * q + p) by (nonlinear_arith);
    }
}

/// Number of parts a chunked upload of `total` bytes issues.
pub fn part_count(total: u64) -> (n: u64)
    ensures
        n == num_parts(total),
{
    let full: u64 = total / PART_SIZE;
    if total % PART_SIZE == 0 {
        full
    } else {
        proof {
            lemma_small_mod(0, PART_SIZE as nat);
            assert(total != 0);
            lemma_div_decreases(total as int, PART_SIZE as int);
        }
        full + 1
    }
}

/// The running byte total equals the sum of the part lengths issued so far.
pub proof fn lemma_bytes_after_parts_is_sum(total: u64, k: int)
    requires
        total > 0,
        0 <= k <= num_parts(total),
    ensures
        bytes_after_parts(k, total) == sum_part_lens(total, k),
    decreases k,
{
    lemma_parts_bounds(total);
    let p = PART_SIZE as int;
    let n = num_parts(total);
    if k == 0 {
    } else {
        lemma_bytes_after_parts_is_sum(total, k - 1);
        assert((k - 1) * p == k * p - p) by (nonlinear_arith);
        if k < n {
            assert(k * p <= (n - 1) * p) by (nonlinear_arith)
                requires k <= n - 1 && p > 0;
        } else {
            assert((k - 1) * p == (n - 1) * p);
        }
    }
}

/// Part arithmetic of a chunked upload of a `total`-byte file: the part
/// count is ceil(total / PART_SIZE); every part before the last is exactly
/// PART_SIZE bytes; the last is total % PART_SIZE bytes (or PART_SIZE when
/// the size is an exact multiple); and the part lengths sum to `total`.
pub proof fn lemma_part_arithmetic(total: u64)
    requires
        total > 0,
    ensures
        num_parts(total) == (total as int + PART_SIZE as int - 1) / (PART_SIZE as int),
        forall|pn: int| 1 <= pn < num_parts(total) ==> part_len(total, pn) == PART_SIZE as int,
        part_len(total, num_parts(total)) == if total as int % (PART_SIZE as int) == 0 {
            PART_SIZE as int
        } else {
            total as int % (PART_SIZE as int)
        },
        sum_part_lens(total, num_parts(total)) == total as int,
{
    let p = PART_SIZE as int;
    let t = total as int;
    lemma_parts_bounds(total);
    lemma_fundamental_div_mod(t, p);
    lemma_mod_division_less_than_divisor(t, p);
    let q = t / p;
    let r = t % p;
    if r == 0 {
        lemma_fundamental_div_mod_converse_div(t + p - 1, p, q, p - 1);
        assert((q - 1) * p == p * q - p) by (nonlinear_arith);
    } else {
        assert(t + p - 1 == (q + 1) * p + (r - 1)) by (nonlinear_arith)
            requires t == p * q + r;
        lemma_fundamental_div_mod_converse_div(t + p - 1, p, q + 1, r - 1);
        assert(q * p == p * q) by (nonlinear_arith);
    }
    lemma_bytes_after_parts_is_sum(total, num_parts(total));
}

/// Rejection raised by the session state machine.
#[derive(PartialEq, Eq, Structural, Clone, Copy, Debug)]
pub enum UploadError {
    /// A part other than the final one came up short (or a part came up
    /// long): a fatal inconsistency that aborts the session.
    PartSizeMismatch,
}

/// Phase of one chunked-upload session.
#[derive(PartialEq, Eq, Structural, Clone, Copy, Debug)]
pub enum UploadPhase {
    /// Parts remain to be uploaded.
    Uploading,
    /// Every part is recorded; the ordered part list awaits the backend's
    /// finalize call.
    Finalizing,
    /// The backend confirmed assembly of all parts.
    Completed,
    /// The session failed; the transfer must not be reported complete.
    Aborted,
}

/// One completed part: its 1-based number and the integrity tag the backend
/// returned for it.
pub struct PartRecord {
    pub part_number: u64,
    pub etag: String,
}

/// State of one chunked transfer, alive from session creation to finalize
/// or abort. Parts are numbered from 1 and recorded in ascending order.
pub struct ChunkedUpload {
    /// Session identifier the backend assigned.
    pub upload_id: String,
    /// Size of the file being transferred.
    pub total_bytes: u64,
    /// Completed parts, in ascending part-number order.
    pub parts: Vec<PartRecord>,
    /// Bytes uploaded so far; increments by each part's exact length.
    pub completed_bytes: u64,
    pub phase: UploadPhase,
}

impl ChunkedUpload {
    /// Session invariant: parts are numbered 1..=len in order, the byte
    /// counter matches the parts recorded, and the phase agrees with how
    /// many parts remain.
    pub open spec fn wf(&self) -> bool {
        &&& self.total_bytes > 0
        &&& self.parts@.len() <= num_parts(self.total_bytes)
        &&& (forall|i: int|
            0 <= i < self.parts@.len() ==> #[trigger] self.parts@[i].part_number == i + 1)
        &&& self.completed_bytes == bytes_after_parts(self.parts@.len() as int, self.total_bytes)
        &&& (self.phase is Uploading ==> self.parts@.len() < num_parts(self.total_bytes))
        &&& ((self.phase is Finalizing || self.phase is Completed) ==> self.parts@.len()
            == num_parts(self.total_bytes))
    }

    /// Open a session for a file of `total_bytes` bytes under the
    /// backend-assigned `upload_id`.
    pub fn new(upload_id: String, total_bytes: u64) -> (s: Self)
        requires
            total_bytes > 0,
        ensures
            s.wf(),
            s.upload_id@ == upload_id@,
            s.total_bytes == total_bytes,
            s.parts@.len() == 0,
            s.completed_bytes == 0,
            s.phase is Uploading,
    {
        proof {
            lemma_parts_bounds(total_bytes);
        }
        ChunkedUpload {
            upload_id,
            total_bytes,
            parts: Vec::new(),
            completed_bytes: 0,
            phase: UploadPhase::Uploading,
        }
    }

    /// Number of the next part to upload: one past the last recorded part.
    pub fn next_part_number(&self) -> (pn: u64)
        requires
            self.wf(),
            self.phase is Uploading,
        ensures
            pn == self.parts@.len() + 1,
            1 <= pn <= num_parts(self.total_bytes),
    {
        proof {
            lemma_parts_bounds(self.total_bytes);
            let n = num_parts(self.total_bytes);
            assert((n - 1) * (PART_SIZE as int) >= n - 1) by (nonlinear_arith)
                requires n >= 1 && PART_SIZE as int >= 1;
        }
        self.parts.len() as u64 + 1
    }

    /// Exact number of bytes the next part must carry: PART_SIZE, except
    /// that the final part carries what remains of the file.
    pub fn next_part_len(&self) -> (len: u64)
        requires
            self.wf(),
            self.phase is Uploading,
        ensures
            len == part_len(self.total_bytes, self.parts@.len() as int + 1),
            1 <= len <= PART_SIZE,
    {
        proof {
            lemma_parts_bounds(self.total_bytes);
            let p = PART_SIZE as int;
            let n = num_parts(self.total_bytes);
            let k = self.parts@.len() as int;
            assert(k * p <= (n - 1) * p) by (nonlinear_arith)
                requires k <= n - 1 && p > 0;
            if k + 1 < n {
                assert((k + 1) * p <= (n - 1) * p) by (nonlinear_arith)
                    requires k + 1 <= n - 1 && p > 0;
            }
            assert((k + 1) * p == k * p + p) by (nonlinear_arith);
        }
        let remaining = self.total_bytes - self.completed_bytes;
        if remaining > PART_SIZE {
            PART_SIZE
        } else {
            remaining
        }
    }

    /// Record one uploaded part. `bytes_len` must be the exact length the
    /// part was required to carry; any other length is a fatal
    /// inconsistency that aborts the session, leaving the parts and the
    /// byte counter as they were.
    pub fn record_part(&mut self, etag: String, bytes_len: u64) -> (r: Result<(), UploadError>)
        requires
            old(self).wf(),
            old(self).phase is Uploading,
        ensures
            final(self).wf(),
            final(self).upload_id@ == old(self).upload_id@,
            final(self).total_bytes == old(self).total_bytes,
            bytes_len == part_len(old(self).total_bytes, old(self).parts@.len() as int + 1) ==> {
                &&& r is Ok
                &&& final(self).parts@ == old(self).parts@.push(
                    (PartRecord {
                        part_number: (old(self).parts@.len() + 1) as u64,
                        etag: etag,
                    }),
                )
                &&& final(self).completed_bytes == old(self).completed_bytes + bytes_len
                &&& (final(self).phase is Finalizing <==> final(self).parts@.len()
                    == num_parts(old(self).total_bytes))
                &&& (final(self).phase is Uploading <==> final(self).parts@.len()
                    < num_parts(old(self).total_bytes))
            },
            bytes_len != part_len(old(self).total_bytes, old(self).parts@.len() as int + 1) ==> {
                &&& r == Result::<(), UploadError>::Err(UploadError::PartSizeMismatch)
                &&& final(self).phase is Aborted
                &&& final(self).parts@ == old(self).parts@
                &&& final(self).completed_bytes == old(self).completed_bytes
            },
    {
        let expected = self.next_part_len();
        if bytes_len != expected {
            self.phase = UploadPhase::Aborted;
            return Err(UploadError::PartSizeMismatch);
        }
        let pn = self.next_part_number();
        proof {
            lemma_parts_bounds(self.total_bytes);
            let p = PART_SIZE as int;
            let n = num_parts(self.total_bytes);
            let k = self.parts@.len() as int;
            assert(k * p <= (n - 1) * p) by (nonlinear_arith)
                requires k <= n - 1 && p > 0;
            if k + 1 < n {
                assert((k + 1) * p <= (n - 1) * p) by (nonlinear_arith)
                    requires k + 1 <= n - 1 && p > 0;
            }
            assert((k + 1) * p == k * p + p) by (nonlinear_arith);
        }
        self.parts.push(PartRecord { part_number: pn, etag });
        self.completed_bytes = self.completed_bytes + bytes_len;
        if self.parts.len() as u64 == part_count(self.total_bytes) {
            self.phase = UploadPhase::Finalizing;
        }
        Ok(())
    }

    /// The backend confirmed the finalize call: the transfer is complete,
    /// and the byte counter has reached the file size exactly.
    pub fn mark_completed(&mut self)
        requires
            old(self).wf(),
            old(self).phase is Finalizing,
        ensures
            final(self).wf(),
            final(self).phase is Completed,
            final(self).upload_id@ == old(self).upload_id@,
            final(self).total_bytes == old(self).total_bytes,
            final(self).parts@ == old(self).parts@,
            final(self).completed_bytes == final(self).total_bytes,
    {
        proof {
            lemma_parts_bounds(self.total_bytes);
        }
        self.phase = UploadPhase::Completed;
    }

    /// Abandon the session on an unrecoverable error. Reachable from any
    /// phase but Completed; the transfer is never reported complete.
    pub fn mark_aborted(&mut self)
        requires
            old(self).wf(),
            !(old(self).phase is Completed),
        ensures
            final(self).wf(),
            final(self).phase is Aborted,
            final(self).upload_id@ == old(self).upload_id@,
            final(self).total_bytes == old(self).total_bytes,
            final(self).parts@ == old(self).parts@,
            final(self).completed_bytes == old(self).completed_bytes,
    {
        self.phase = UploadPhase::Aborted;
    }
}

/// Mark the transfer record of a finalized chunked session completed: the
/// record's byte count becomes exactly the file size. Only a session the
/// backend confirmed complete can reach the record; an aborted session
/// never marks its record completed.
pub fn record_session_completed(log: &mut Log, session: &ChunkedUpload, file_path: &str)
    requires
        session.wf(),
        session.phase is Completed,
    ensures
        final(log).entries@.len() == old(log).entries@.len(),
        (forall|i: int|
            0 <= i < old(log).entries@.len() ==> views(old(log).entries@)[i].file_path
                != file_path@) ==> final(log).entries@ == old(log).entries@,
        forall|i: int|
            #[trigger] is_first_match(views(old(log).entries@), file_path@, i) ==> {
                &&& final(log).entries@[i]@.completed_bytes == session.total_bytes
                &&& final(log).entries@[i]@.completed == true
                &&& final(log).entries@[i]@.file_path == old(log).entries@[i]@.file_path
            },
{
    log.update_entry(file_path, session.total_bytes);
}

} // verus!
