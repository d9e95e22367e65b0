//! File translation jobs: their states, progress, results and retries.
//! Sharing the jobs between threads and writing files is the application's
//! part.
use vstd::prelude::*;

use crate::files::{
    copy_bytes, output_media_type, translated_filename, translated_name, guessed_media_type,
    FileRetryContext, FileTranslationResult,
};
use crate::models::{
    copy_opt_string, FileBatchFailure, FileJobState, FileJobStatus, FileOutputMode, FileProgress,
};
use crate::store::{first_key_index, lemma_first_key_index, lemma_first_key_index_unique};
use crate::text::{chars_equal, chars_of};

verus! {

/// A job and what it produced.
#[derive(Debug)]
pub struct JobRecord {
    pub status: FileJobStatus,
    pub content: Option<Vec<u8>>,
    pub retry_context: Option<FileRetryContext>,
}

/// The file translation jobs.
#[derive(Debug)]
pub struct FileJobManager {
    records: Vec<JobRecord>,
}

/// Why a translated file cannot be saved.
#[derive(Debug, Clone, Copy, PartialEq, Eq, Structural)]
pub enum SaveErrorKind {
    InvalidInput,
    NotFound,
}

/// A refused save, with its message.
#[derive(Debug)]
pub struct SaveError {
    pub kind: SaveErrorKind,
    pub message: String,
}

/// The ids of the records.
pub open spec fn record_ids(rs: Seq<JobRecord>) -> Seq<Seq<char>> {
    rs.map_values(|r: JobRecord| r.status.id@)
}

/// The index of the job with the given id, or -1.
pub open spec fn job_index(rs: Seq<JobRecord>, id: Seq<char>) -> int {
    first_key_index(record_ids(rs), id)
}

/// No two jobs have the same id.
pub open spec fn ids_unique(rs: Seq<JobRecord>) -> bool {
    forall|i: int, j: int| 0 <= i < j < rs.len() ==> rs[i].status.id@ != rs[j].status.id@
}

/// Two statuses hold the same values.
pub open spec fn same_status(a: FileJobStatus, b: FileJobStatus) -> bool {
    &&& a.id == b.id
    &&& a.filename == b.filename
    &&& a.output_mode == b.output_mode
    &&& a.state == b.state
    &&& a.stage == b.stage
    &&& a.total_segments == b.total_segments
    &&& a.translated_segments == b.translated_segments
    &&& a.failed_segments == b.failed_segments
    &&& a.skipped_segments == b.skipped_segments
    &&& a.total_batches == b.total_batches
    &&& a.completed_batches == b.completed_batches
    &&& a.failed_batches@ == b.failed_batches@
    &&& a.streaming_batch == b.streaming_batch
    &&& a.streaming_segments == b.streaming_segments
    &&& a.streaming_batch_segments == b.streaming_batch_segments
    &&& a.streaming_text == b.streaming_text
    &&& a.result_filename == b.result_filename
    &&& a.media_type == b.media_type
    &&& a.error == b.error
    &&& a.created_at == b.created_at
    &&& a.source_path == b.source_path
    &&& a.downloaded_path == b.downloaded_path
}

/// Only the job at index `i` may have changed.
pub open spec fn others_unchanged(before: Seq<JobRecord>, after: Seq<JobRecord>, i: int) -> bool {
    &&& after.len() == before.len()
    &&& forall|j: int| 0 <= j < before.len() && j != i ==> after[j] == before[j]
}

/// A status that was just created.
pub open spec fn queued_status(
    s: FileJobStatus,
    id: Seq<char>,
    filename: Seq<char>,
    output_mode: FileOutputMode,
    source_path: Option<String>,
    created_at: Seq<char>,
) -> bool {
    &&& s.id@ == id
    &&& s.filename@ == filename
    &&& s.output_mode == output_mode
    &&& s.state == FileJobState::Queued
    &&& s.stage@ == "queued"@
    &&& s.total_segments == 0 && s.translated_segments == 0 && s.failed_segments == 0
    &&& s.skipped_segments == 0 && s.total_batches == 0 && s.completed_batches == 0
    &&& s.failed_batches@.len() == 0
    &&& s.streaming_batch.is_none() && s.streaming_segments == 0
    &&& s.streaming_batch_segments == 0 && s.streaming_text.is_none()
    &&& s.result_filename@ == translated_name(filename)
    &&& s.media_type@ == guessed_media_type(filename)
    &&& s.error.is_none()
    &&& s.created_at@ == created_at
    &&& s.source_path == source_path
    &&& s.downloaded_path.is_none()
}

/// Strict lexicographic order of character sequences (the order of `String`).
pub open spec fn seq_less(a: Seq<char>, b: Seq<char>) -> bool
    decreases a.len(),
{
    if a.len() == 0 {
        b.len() > 0
    } else if b.len() == 0 {
        false
    } else if a[0] != b[0] {
        (a[0] as int) < (b[0] as int)
    } else {
        seq_less(a.drop_first(), b.drop_first())
    }
}

fn less_chars(a: &[char], b: &[char]) -> (r: bool)
    ensures
        r == seq_less(a@, b@),
{
    let mut i: usize = 0;
    proof {
        assert(a@.skip(0) =~= a@);
        assert(b@.skip(0) =~= b@);
    }
    while i < a.len() && i < b.len() && a[i] == b[i]
        invariant
            i <= a@.len(),
            i <= b@.len(),
            seq_less(a@, b@) == seq_less(a@.skip(i as int), b@.skip(i as int)),
        decreases a@.len() - i,
    {
        proof {
            assert(a@.skip(i as int).drop_first() =~= a@.skip(i + 1));
            assert(b@.skip(i as int).drop_first() =~= b@.skip(i + 1));
        }
        i = i + 1;
    }
    proof {
        if i < a.len() {
            assert(a@.skip(i as int)[0] == a@[i as int]);
        }
        if i < b.len() {
            assert(b@.skip(i as int)[0] == b@[i as int]);
        }
    }
    if i == a.len() {
        i < b.len()
    } else if i == b.len() {
        false
    } else {
        a[i] < b[i]
    }
}

/// Statuses ordered by id, largest first.
pub open spec fn sorted_by_id_desc(s: Seq<FileJobStatus>) -> bool {
    forall|i: int, j: int| 0 <= i < j < s.len() ==> seq_less(#[trigger] s[j].id@, #[trigger] s[i].id@)
}

/// Inserts `s` into a list ordered by id, largest first; returns where it went.
fn insert_by_id_desc(out: &mut Vec<FileJobStatus>, s: FileJobStatus) -> (pos: usize)
    requires
        sorted_by_id_desc(old(out)@),
        forall|i: int| 0 <= i < old(out)@.len() ==> (#[trigger] old(out)@[i]).id@ != s.id@,
    ensures
        pos <= old(out)@.len(),
        final(out)@ == old(out)@.insert(pos as int, s),
        sorted_by_id_desc(final(out)@),
{
    let ghost before = out@;
    let sid = chars_of(s.id.as_str());
    let mut pos: usize = 0;
    while pos < out.len() && !less_chars(chars_of(out[pos].id.as_str()).as_slice(), sid.as_slice())
        invariant
            pos <= out@.len(),
            out@ == before,
            sid@ == s.id@,
            forall|i: int| 0 <= i < pos ==> !seq_less(#[trigger] out@[i].id@, s.id@),
        decreases out@.len() - pos,
    {
        pos = pos + 1;
    }
    let ghost at_pos_less = pos < before.len() && seq_less(before[pos as int].id@, s.id@);
    assert(pos < before.len() ==> at_pos_less);
    out.insert(pos, s);
    proof {
        let after = out@;
        assert(after == before.insert(pos as int, s));
        assert forall|i: int, j: int| 0 <= i < j < after.len() implies seq_less(
            #[trigger] after[j].id@,
            #[trigger] after[i].id@,
        ) by {
            if j < pos {
                assert(after[i] == before[i] && after[j] == before[j]);
            } else if j == pos {
                assert(after[i] == before[i]);
                lemma_seq_less_total(before[i].id@, s.id@);
            } else if i == pos {
                assert(after[j] == before[j - 1]);
                if pos + 1 <= j - 1 {
                    assert(seq_less(before[j - 1].id@, before[pos as int].id@));
                    lemma_seq_less_trans(before[j - 1].id@, before[pos as int].id@, s.id@);
                }
            } else if i < pos {
                assert(after[i] == before[i] && after[j] == before[j - 1]);
            } else {
                assert(after[i] == before[i - 1] && after[j] == before[j - 1]);
            }
        }
    }
    pos
}

/// Each listed status is that of one of the first `k` records.
#[verifier::opaque]
pub open spec fn listed_from(out: Seq<FileJobStatus>, recs: Seq<JobRecord>, k: int) -> bool {
    forall|i: int|
        0 <= i < out.len() ==> exists|j: int| 0 <= j < k && same_status(#[trigger] out[i], recs[j].status)
}

/// The status of each of the first `k` records is listed.
#[verifier::opaque]
pub open spec fn lists_all(out: Seq<FileJobStatus>, recs: Seq<JobRecord>, k: int) -> bool {
    forall|j: int|
        0 <= j < k ==> exists|i: int| 0 <= i < out.len() && same_status(out[i], #[trigger] recs[j].status)
}

proof fn lemma_new_id_unlisted(before: Seq<FileJobStatus>, recs: Seq<JobRecord>, k: int, s: FileJobStatus)
    requires
        listed_from(before, recs, k),
        ids_unique(recs),
        0 <= k < recs.len(),
        same_status(s, recs[k].status),
    ensures
        forall|i: int| 0 <= i < before.len() ==> (#[trigger] before[i]).id@ != s.id@,
{
    reveal(listed_from);
    assert forall|i: int| 0 <= i < before.len() implies (#[trigger] before[i]).id@ != s.id@ by {
        let j = choose|j: int| 0 <= j < k && same_status(before[i], recs[j].status);
        assert(recs[j].status.id@ != recs[k].status.id@);
    }
}

proof fn lemma_list_step(
    before: Seq<FileJobStatus>,
    out: Seq<FileJobStatus>,
    recs: Seq<JobRecord>,
    k: int,
    pos: int,
    s: FileJobStatus,
)
    requires
        listed_from(before, recs, k),
        lists_all(before, recs, k),
        0 <= k < recs.len(),
        0 <= pos <= before.len(),
        out == before.insert(pos, s),
        same_status(s, recs[k].status),
    ensures
        listed_from(out, recs, k + 1),
        lists_all(out, recs, k + 1),
{
    reveal(listed_from);
    reveal(lists_all);
    assert forall|i: int| 0 <= i < out.len() implies exists|j: int|
        0 <= j < k + 1 && same_status(#[trigger] out[i], recs[j].status) by {
        if i < pos {
            assert(out[i] == before[i]);
        } else if i == pos {
            assert(same_status(out[i], recs[k].status));
        } else {
            assert(out[i] == before[i - 1]);
        }
    }
    assert forall|j: int| 0 <= j < k + 1 implies exists|i: int|
        0 <= i < out.len() && same_status(out[i], #[trigger] recs[j].status) by {
        if j < k {
            let i0 = choose|i0: int| 0 <= i0 < before.len() && same_status(before[i0], recs[j].status);
            if i0 < pos {
                assert(out[i0] == before[i0]);
            } else {
                assert(out[i0 + 1] == before[i0]);
            }
        } else {
            assert(same_status(out[pos], recs[j].status));
        }
    }
}

/// A copy of a job status.
pub fn copy_status(s: &FileJobStatus) -> (r: FileJobStatus)
    ensures
        same_status(r, *s),
{
    let mut failures: Vec<FileBatchFailure> = Vec::new();
    let mut i: usize = 0;
    while i < s.failed_batches.len()
        invariant
            i <= s.failed_batches@.len(),
            failures@ == s.failed_batches@.take(i as int),
        decreases s.failed_batches@.len() - i,
    {
        let f = &s.failed_batches[i];
        failures.push(
            FileBatchFailure {
                id: f.id,
                segment_count: f.segment_count,
                attempts: f.attempts,
                error: f.error.clone(),
            },
        );
        i = i + 1;
        assert(s.failed_batches@.take(i as int) =~= s.failed_batches@.take(i - 1).push(
            s.failed_batches@[i - 1],
        ));
    }
    assert(s.failed_batches@.take(s.failed_batches@.len() as int) =~= s.failed_batches@);
    FileJobStatus {
        id: s.id.clone(),
        filename: s.filename.clone(),
        output_mode: s.output_mode,
        state: s.state,
        stage: s.stage.clone(),
        total_segments: s.total_segments,
        translated_segments: s.translated_segments,
        failed_segments: s.failed_segments,
        skipped_segments: s.skipped_segments,
        total_batches: s.total_batches,
        completed_batches: s.completed_batches,
        failed_batches: failures,
        streaming_batch: s.streaming_batch,
        streaming_segments: s.streaming_segments,
        streaming_batch_segments: s.streaming_batch_segments,
        streaming_text: copy_opt_string(&s.streaming_text),
        result_filename: s.result_filename.clone(),
        media_type: s.media_type.clone(),
        error: copy_opt_string(&s.error),
        created_at: s.created_at.clone(),
        source_path: copy_opt_string(&s.source_path),
        downloaded_path: copy_opt_string(&s.downloaded_path),
    }
}

impl FileJobManager {
    /// The jobs, in the order they were created.
    pub closed spec fn records_spec(&self) -> Seq<JobRecord> {
        self.records@
    }

    /// The jobs are well formed: their ids are distinct.
    pub open spec fn wf(&self) -> bool {
        ids_unique(self.records_spec())
    }

    /// No jobs.
    pub fn new() -> (r: FileJobManager)
        ensures
            r.records_spec().len() == 0,
            r.wf(),
    {
        FileJobManager { records: Vec::new() }
    }

    fn index_of(&self, id: &str) -> (r: Option<usize>)
        ensures
            match r {
                Some(i) => job_index(self.records_spec(), id@) == i && i < self.records_spec().len(),
                None => job_index(self.records_spec(), id@) < 0,
            },
    {
        let ghost ks = record_ids(self.records@);
        let idc = chars_of(id);
        let mut i: usize = 0;
        while i < self.records.len()
            invariant
                i <= self.records@.len(),
                ks == record_ids(self.records@),
                idc@ == id@,
                forall|j: int| 0 <= j < i ==> ks[j] != id@,
            decreases self.records@.len() - i,
        {
            if chars_equal(chars_of(self.records[i].status.id.as_str()).as_slice(), idc.as_slice()) {
                proof {
                    lemma_first_key_index_unique(ks, id@, i as int);
                }
                return Some(i);
            }
            i = i + 1;
        }
        proof {
            lemma_first_key_index_unique(ks, id@, -1);
        }
        None
    }

    /// Creates a queued job with the given id and creation time. A job with
    /// the same id is replaced.
    pub fn create(
        &mut self,
        filename: &str,
        output_mode: FileOutputMode,
        source_path: Option<String>,
        id: String,
        created_at: String,
    ) -> (r: FileJobStatus)
        requires
            old(self).wf(),
        ensures
            final(self).wf(),
            queued_status(r, id@, filename@, output_mode, source_path, created_at@),
            ({
                let i = job_index(old(self).records_spec(), id@);
                let after = final(self).records_spec();
                if i >= 0 {
                    others_unchanged(old(self).records_spec(), after, i) && same_status(
                        after[i].status,
                        r,
                    ) && after[i].content.is_none() && after[i].retry_context.is_none()
                } else {
                    after.len() == old(self).records_spec().len() + 1 && (forall|j: int|
                        0 <= j < old(self).records_spec().len() ==> after[j] == old(
                            self,
                        ).records_spec()[j]) && same_status(after.last().status, r)
                        && after.last().content.is_none() && after.last().retry_context.is_none()
                }
            }),
    {
        let status = FileJobStatus {
            id: id,
            filename: String::from_str(filename),
            output_mode,
            state: FileJobState::Queued,
            stage: String::from_str("queued"),
            total_segments: 0,
            translated_segments: 0,
            failed_segments: 0,
            skipped_segments: 0,
            total_batches: 0,
            completed_batches: 0,
            failed_batches: Vec::new(),
            streaming_batch: None,
            streaming_segments: 0,
            streaming_batch_segments: 0,
            streaming_text: None,
            result_filename: translated_filename(filename),
            media_type: output_media_type(filename),
            error: None,
            created_at,
            source_path,
            downloaded_path: None,
        };
        let record = JobRecord { status: copy_status(&status), content: None, retry_context: None };
        let ghost before = self.records@;
        proof {
            lemma_first_key_index(record_ids(before), status.id@);
        }
        match self.index_of(status.id.as_str()) {
            Some(i) => {
                self.records.set(i, record);
                proof {
                    assert forall|a: int, b: int| 0 <= a < b < self.records@.len() implies self.records@[a].status.id@
                        != self.records@[b].status.id@ by {
                        assert(record_ids(before)[a] == before[a].status.id@);
                        assert(record_ids(before)[b] == before[b].status.id@);
                    }
                }
            },
            None => {
                self.records.push(record);
                proof {
                    assert forall|a: int, b: int| 0 <= a < b < self.records@.len() implies self.records@[a].status.id@
                        != self.records@[b].status.id@ by {
                        if b == before.len() {
                            assert(record_ids(before)[a] == before[a].status.id@);
                        }
                    }
                }
            },
        }
        status
    }

    /// The status of the job with the given id.
    pub fn get(&self, id: &str) -> (r: Option<FileJobStatus>)
        ensures
            ({
                let i = job_index(self.records_spec(), id@);
                match r {
                    Some(s) => i >= 0 && same_status(s, self.records_spec()[i].status),
                    None => i < 0,
                }
            }),
    {
        match self.index_of(id) {
            Some(i) => Some(copy_status(&self.records[i].status)),
            None => None,
        }
    }

    /// The statuses of all jobs, newest id first (ids compare as strings).
    pub fn list(&self) -> (r: Vec<FileJobStatus>)
        requires
            self.wf(),
        ensures
            r@.len() == self.records_spec().len(),
            forall|i: int, j: int| 0 <= i < j < r@.len() ==> seq_less(r@[j].id@, r@[i].id@),
            listed_from(r@, self.records_spec(), self.records_spec().len() as int),
            lists_all(r@, self.records_spec(), self.records_spec().len() as int),
    {
        let mut out: Vec<FileJobStatus> = Vec::new();
        let mut k: usize = 0;
        proof {
            reveal(listed_from);
            reveal(lists_all);
        }
        while k < self.records.len()
            invariant
                k <= self.records@.len(),
                ids_unique(self.records@),
                out@.len() == k,
                sorted_by_id_desc(out@),
                listed_from(out@, self.records@, k as int),
                lists_all(out@, self.records@, k as int),
            decreases self.records@.len() - k,
        {
            let s = copy_status(&self.records[k].status);
            let ghost before = out@;
            proof {
                lemma_new_id_unlisted(before, self.records@, k as int, s);
            }
            let pos = insert_by_id_desc(&mut out, s);
            proof {
                lemma_list_step(before, out@, self.records@, k as int, pos as int, s);
            }
            k = k + 1;
        }
        proof {
            reveal(listed_from);
            reveal(lists_all);
            assert(self.records_spec() == self.records@);
        }
        out
    }

    /// Marks a job as being processed, in the `preparing` stage.
    pub fn mark_processing(&mut self, id: &str)
        ensures
            ({
                let i = job_index(old(self).records_spec(), id@);
                let before = old(self).records_spec();
                let after = final(self).records_spec();
                if i < 0 {
                    after == before
                } else {
                    &&& others_unchanged(before, after, i)
                    &&& after[i].status.stage@ == "preparing"@
                    &&& after[i] == (JobRecord {
                        status: (FileJobStatus {
                            state: FileJobState::Processing,
                            stage: after[i].status.stage,
                            ..before[i].status
                        }),
                        ..before[i]
                    })
                }
            }),
            old(self).wf() ==> final(self).wf(),
    {
        if let Some(i) = self.index_of(id) {
            let mut record = self.records.remove(i);
            record.status.state = FileJobState::Processing;
            record.status.stage = String::from_str("preparing");
            self.records.insert(i, record);
        }
    }

    /// Copies progress into a job, which is then being processed.
    pub fn update_progress(&mut self, id: &str, progress: FileProgress)
        ensures
            ({
                let i = job_index(old(self).records_spec(), id@);
                let before = old(self).records_spec();
                let after = final(self).records_spec();
                if i < 0 {
                    after == before
                } else {
                    &&& others_unchanged(before, after, i)
                    &&& after[i] == (JobRecord {
                        status: (FileJobStatus {
                            state: FileJobState::Processing,
                            stage: progress.stage,
                            total_segments: progress.total_segments,
                            translated_segments: progress.translated_segments,
                            failed_segments: progress.failed_segments,
                            skipped_segments: progress.skipped_segments,
                            total_batches: progress.total_batches,
                            completed_batches: progress.completed_batches,
                            streaming_batch: progress.streaming_batch,
                            streaming_segments: progress.streaming_segments,
                            streaming_batch_segments: progress.streaming_batch_segments,
                            streaming_text: progress.streaming_text,
                            ..before[i].status
                        }),
                        ..before[i]
                    })
                }
            }),
            old(self).wf() ==> final(self).wf(),
    {
        if let Some(i) = self.index_of(id) {
            let mut record = self.records.remove(i);
            record.status.state = FileJobState::Processing;
            record.status.stage = progress.stage;
            record.status.total_segments = progress.total_segments;
            record.status.translated_segments = progress.translated_segments;
            record.status.failed_segments = progress.failed_segments;
            record.status.skipped_segments = progress.skipped_segments;
            record.status.total_batches = progress.total_batches;
            record.status.completed_batches = progress.completed_batches;
            record.status.streaming_batch = progress.streaming_batch;
            record.status.streaming_segments = progress.streaming_segments;
            record.status.streaming_batch_segments = progress.streaming_batch_segments;
            record.status.streaming_text = progress.streaming_text;
            self.records.insert(i, record);
        }
    }

    /// Records the result of a finished translation: the job is completed,
    /// with the result's counts, failures, file name, type and content.
    pub fn complete(&mut self, id: &str, result: FileTranslationResult)
        ensures
            ({
                let i = job_index(old(self).records_spec(), id@);
                let before = old(self).records_spec();
                let after = final(self).records_spec();
                if i < 0 {
                    after == before
                } else {
                    &&& others_unchanged(before, after, i)
                    &&& after[i].status.stage@ == "completed"@
                    &&& after[i] == (JobRecord {
                        status: (FileJobStatus {
                            state: FileJobState::Completed,
                            stage: after[i].status.stage,
                            total_segments: result.total_segments,
                            translated_segments: result.translated_segments,
                            failed_segments: result.failed_segments,
                            skipped_segments: result.skipped_segments,
                            total_batches: result.total_batches,
                            completed_batches: result.total_batches,
                            failed_batches: result.failed_batches,
                            streaming_batch: None,
                            streaming_segments: 0,
                            streaming_batch_segments: 0,
                            streaming_text: None,
                            result_filename: result.filename,
                            media_type: result.media_type,
                            error: None,
                            ..before[i].status
                        }),
                        content: Some(result.content),
                        retry_context: result.retry_context,
                    })
                }
            }),
            old(self).wf() ==> final(self).wf(),
    {
        if let Some(i) = self.index_of(id) {
            let mut record = self.records.remove(i);
            record.status.state = FileJobState::Completed;
            record.status.stage = String::from_str("completed");
            record.status.total_segments = result.total_segments;
            record.status.translated_segments = result.translated_segments;
            record.status.failed_segments = result.failed_segments;
            record.status.skipped_segments = result.skipped_segments;
            record.status.total_batches = result.total_batches;
            record.status.completed_batches = result.total_batches;
            record.status.failed_batches = result.failed_batches;
            record.status.streaming_batch = None;
            record.status.streaming_segments = 0;
            record.status.streaming_batch_segments = 0;
            record.status.streaming_text = None;
            record.status.result_filename = result.filename;
            record.status.media_type = result.media_type;
            record.status.error = None;
            record.content = Some(result.content);
            record.retry_context = result.retry_context;
            self.records.insert(i, record);
        }
    }

    /// Starts a retry of a completed job with failed batches: the job is
    /// processing again, in the `translating` stage, and its retry context is
    /// handed out.
    pub fn begin_retry(&mut self, id: &str) -> (r: Result<(FileJobStatus, FileRetryContext), String>)
        ensures
            ({
                let i = job_index(old(self).records_spec(), id@);
                let before = old(self).records_spec();
                let after = final(self).records_spec();
                match r {
                    Ok((status, context)) => {
                        &&& i >= 0
                        &&& before[i].status.state == FileJobState::Completed
                        &&& before[i].status.failed_batches@.len() > 0
                        &&& before[i].retry_context == Some(context)
                        &&& others_unchanged(before, after, i)
                        &&& after[i].status.stage@ == "translating"@
                        &&& after[i] == (JobRecord {
                            status: (FileJobStatus {
                                state: FileJobState::Processing,
                                stage: after[i].status.stage,
                                error: None,
                                streaming_batch: None,
                                streaming_segments: 0,
                                streaming_batch_segments: 0,
                                streaming_text: None,
                                ..before[i].status
                            }),
                            retry_context: None,
                            ..before[i]
                        })
                        &&& same_status(status, after[i].status)
                    },
                    Err(m) => after == before && {
                        ||| i < 0 && m@ == "File job was not found"@
                        ||| i >= 0 && (before[i].status.state != FileJobState::Completed
                            || before[i].status.failed_batches@.len() == 0) && m@
                            == "This file job has no failed batches to retry"@
                        ||| i >= 0 && before[i].status.state == FileJobState::Completed
                            && before[i].status.failed_batches@.len() > 0
                            && before[i].retry_context.is_none() && m@
                            == "Retry data for this file job is unavailable"@
                    },
                }
            }),
            old(self).wf() ==> final(self).wf(),
    {
        let i = match self.index_of(id) {
            Some(i) => i,
            None => {
                return Err(String::from_str("File job was not found"));
            },
        };
        if self.records[i].status.state != FileJobState::Completed
            || self.records[i].status.failed_batches.len() == 0 {
            return Err(String::from_str("This file job has no failed batches to retry"));
        }
        if self.records[i].retry_context.is_none() {
            return Err(String::from_str("Retry data for this file job is unavailable"));
        }
        let mut record = self.records.remove(i);
        let context = record.retry_context.take().unwrap();
        record.status.state = FileJobState::Processing;
        record.status.stage = String::from_str("translating");
        record.status.error = None;
        record.status.streaming_batch = None;
        record.status.streaming_segments = 0;
        record.status.streaming_batch_segments = 0;
        record.status.streaming_text = None;
        let status = copy_status(&record.status);
        self.records.insert(i, record);
        Ok((status, context))
    }

    /// Puts back the retry context of a retry that failed: the job is
    /// completed again, with the error.
    pub fn restore_retry(&mut self, id: &str, context: FileRetryContext, error: String)
        ensures
            ({
                let i = job_index(old(self).records_spec(), id@);
                let before = old(self).records_spec();
                let after = final(self).records_spec();
                if i < 0 {
                    after == before
                } else {
                    &&& others_unchanged(before, after, i)
                    &&& after[i].status.stage@ == "completed"@
                    &&& after[i] == (JobRecord {
                        status: (FileJobStatus {
                            state: FileJobState::Completed,
                            stage: after[i].status.stage,
                            error: Some(error),
                            ..before[i].status
                        }),
                        retry_context: Some(context),
                        ..before[i]
                    })
                }
            }),
            old(self).wf() ==> final(self).wf(),
    {
        if let Some(i) = self.index_of(id) {
            let mut record = self.records.remove(i);
            record.status.state = FileJobState::Completed;
            record.status.stage = String::from_str("completed");
            record.status.error = Some(error);
            record.retry_context = Some(context);
            self.records.insert(i, record);
        }
    }

    /// Marks a job as failed, with the error.
    pub fn fail(&mut self, id: &str, error: String)
        ensures
            ({
                let i = job_index(old(self).records_spec(), id@);
                let before = old(self).records_spec();
                let after = final(self).records_spec();
                if i < 0 {
                    after == before
                } else {
                    &&& others_unchanged(before, after, i)
                    &&& after[i].status.stage@ == "failed"@
                    &&& after[i] == (JobRecord {
                        status: (FileJobStatus {
                            state: FileJobState::Failed,
                            stage: after[i].status.stage,
                            error: Some(error),
                            ..before[i].status
                        }),
                        ..before[i]
                    })
                }
            }),
            old(self).wf() ==> final(self).wf(),
    {
        if let Some(i) = self.index_of(id) {
            let mut record = self.records.remove(i);
            record.status.state = FileJobState::Failed;
            record.status.stage = String::from_str("failed");
            record.status.error = Some(error);
            self.records.insert(i, record);
        }
    }

    /// The name, media type and content of a completed job's file.
    pub fn download(&self, id: &str) -> (r: Option<(String, String, Vec<u8>)>)
        ensures
            ({
                let i = job_index(self.records_spec(), id@);
                match r {
                    Some((name, media, content)) => {
                        &&& i >= 0
                        &&& self.records_spec()[i].status.state == FileJobState::Completed
                        &&& self.records_spec()[i].content matches Some(c) && c@ == content@
                        &&& name == self.records_spec()[i].status.result_filename
                        &&& media == self.records_spec()[i].status.media_type
                    },
                    None => i < 0 || self.records_spec()[i].status.state != FileJobState::Completed
                        || self.records_spec()[i].content.is_none(),
                }
            }),
    {
        let i = self.index_of(id)?;
        let record = &self.records[i];
        if record.status.state != FileJobState::Completed {
            return None;
        }
        match &record.content {
            Some(content) => Some(
                (record.status.result_filename.clone(), record.status.media_type.clone(), copy_bytes(content)),
            ),
            None => None,
        }
    }

    /// The content to save for a job, or why it cannot be saved: the
    /// destination must be given and the job must be completed with content.
    pub fn content_to_save(&self, id: &str, destination: &str) -> (r: Result<Vec<u8>, SaveError>)
        ensures
            ({
                let i = job_index(self.records_spec(), id@);
                match r {
                    Ok(content) => {
                        &&& destination@.len() > 0
                        &&& i >= 0
                        &&& self.records_spec()[i].status.state == FileJobState::Completed
                        &&& self.records_spec()[i].content matches Some(c) && c@ == content@
                    },
                    Err(e) => {
                        ||| destination@.len() == 0 && e.kind == SaveErrorKind::InvalidInput
                            && e.message@ == "A destination path is required"@
                        ||| destination@.len() > 0 && i < 0 && e.kind == SaveErrorKind::NotFound
                            && e.message@ == "File job was not found"@
                        ||| destination@.len() > 0 && i >= 0
                            && self.records_spec()[i].status.state != FileJobState::Completed
                            && e.kind == SaveErrorKind::InvalidInput && e.message@
                            == "File translation is not complete"@
                        ||| destination@.len() > 0 && i >= 0
                            && self.records_spec()[i].status.state == FileJobState::Completed
                            && self.records_spec()[i].content.is_none() && e.kind
                            == SaveErrorKind::NotFound && e.message@
                            == "File content is unavailable"@
                    },
                }
            }),
    {
        if destination.is_empty() {
            return Err(
                SaveError {
                    kind: SaveErrorKind::InvalidInput,
                    message: String::from_str("A destination path is required"),
                },
            );
        }
        let i = match self.index_of(id) {
            Some(i) => i,
            None => {
                return Err(
                    SaveError {
                        kind: SaveErrorKind::NotFound,
                        message: String::from_str("File job was not found"),
                    },
                );
            },
        };
        let record = &self.records[i];
        if record.status.state != FileJobState::Completed {
            return Err(
                SaveError {
                    kind: SaveErrorKind::InvalidInput,
                    message: String::from_str("File translation is not complete"),
                },
            );
        }
        match &record.content {
            Some(content) => Ok(copy_bytes(content)),
            None => Err(
                SaveError {
                    kind: SaveErrorKind::NotFound,
                    message: String::from_str("File content is unavailable"),
                },
            ),
        }
    }

    /// Records where a job's file was saved.
    pub fn record_saved_path(&mut self, id: &str, path: String) -> (r: Result<FileJobStatus, SaveError>)
        ensures
            ({
                let i = job_index(old(self).records_spec(), id@);
                let before = old(self).records_spec();
                let after = final(self).records_spec();
                match r {
                    Ok(status) => {
                        &&& i >= 0
                        &&& others_unchanged(before, after, i)
                        &&& after[i] == (JobRecord {
                            status: (FileJobStatus { downloaded_path: Some(path), ..before[i].status }),
                            ..before[i]
                        })
                        &&& same_status(status, after[i].status)
                    },
                    Err(e) => i < 0 && after == before && e.kind == SaveErrorKind::NotFound
                        && e.message@ == "File job was not found"@,
                }
            }),
            old(self).wf() ==> final(self).wf(),
    {
        let i = match self.index_of(id) {
            Some(i) => i,
            None => {
                return Err(
                    SaveError {
                        kind: SaveErrorKind::NotFound,
                        message: String::from_str("File job was not found"),
                    },
                );
            },
        };
        let mut record = self.records.remove(i);
        record.status.downloaded_path = Some(path);
        let status = copy_status(&record.status);
        self.records.insert(i, record);
        Ok(status)
    }
}

/// `seq_less` is a strict total order.
pub proof fn lemma_seq_less_total(a: Seq<char>, b: Seq<char>)
    ensures
        a != b ==> seq_less(a, b) || seq_less(b, a),
        !(seq_less(a, b) && seq_less(b, a)),
    decreases a.len(),
{
    if a.len() > 0 && b.len() > 0 && a[0] == b[0] {
        lemma_seq_less_total(a.drop_first(), b.drop_first());
        if a != b {
            assert(a.drop_first() != b.drop_first()) by {
                if a.drop_first() == b.drop_first() {
                    assert(a =~= seq![a[0]] + a.drop_first());
                    assert(b =~= seq![b[0]] + b.drop_first());
                }
            }
        }
    } else if a.len() == 0 && b.len() == 0 {
        assert(a =~= b);
    }
}

/// `seq_less` is transitive.
pub proof fn lemma_seq_less_trans(a: Seq<char>, b: Seq<char>, c: Seq<char>)
    requires
        seq_less(a, b),
        seq_less(b, c),
    ensures
        seq_less(a, c),
    decreases a.len(),
{
    if a.len() > 0 && b.len() > 0 && c.len() > 0 && a[0] == b[0] && b[0] == c[0] {
        lemma_seq_less_trans(a.drop_first(), b.drop_first(), c.drop_first());
    }
}


} // verus!
