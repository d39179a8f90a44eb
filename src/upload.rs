//! Planning a directory upload among workers, and tallying what they report.

use crate::chunks::{chunk_size, chunks_of, split_into_chunks, views_of};
use crate::keys::{object_key, object_key_of, opt_view};
use vstd::prelude::*;
use vstd::string::StringExecFns;

verus! {

/// The most workers a directory upload starts.
pub const MAX_WORKERS: usize = 30;

/// The smallest part size that the storage client takes, in bytes.
pub const PART_SIZE_MIN: u64 = 1024 * 1024;

/// Part sizes that the storage client takes are below this, in bytes.
pub const PART_SIZE_LIMIT: u64 = 1024 * 1024 * 1024;

/// The most threads that the storage client takes for one multipart upload.
pub const THREADS_LIMIT: u64 = 1000;

/// Whether a requested part size is one that the storage client takes; none
/// requested leaves its default.
pub fn part_size_accepted(part_size: Option<u64>) -> (r: bool)
    ensures
        r == match part_size {
            Some(p) => PART_SIZE_MIN <= p < PART_SIZE_LIMIT,
            None => true,
        },
{
    match part_size {
        Some(p) => PART_SIZE_MIN <= p && p < PART_SIZE_LIMIT,
        None => true,
    }
}

/// Whether a requested thread count is one that the storage client takes.
pub fn max_threads_accepted(max_threads: Option<u64>) -> (r: bool)
    ensures
        r == match max_threads {
            Some(t) => t <= THREADS_LIMIT,
            None => true,
        },
{
    match max_threads {
        Some(t) => t <= THREADS_LIMIT,
        None => true,
    }
}

/// Why an upload stops before any file is sent.
#[derive(Clone, Copy, Debug, PartialEq, Eq, Structural)]
pub enum UploadError {
    /// The local path does not exist or cannot be read.
    NotFound,
    /// The local path is a directory that holds no regular file.
    EmptyDirectory,
}

/// Fails with `NotFound` where the local path does not exist.
pub fn check_target(exists: bool) -> (r: Result<(), UploadError>)
    ensures
        exists <==> r is Ok,
        !exists ==> r == Err::<(), UploadError>(UploadError::NotFound),
{
    if exists {
        Ok(())
    } else {
        Err(UploadError::NotFound)
    }
}

/// Splits the files of a walked directory among at most `max_workers`
/// workers; an empty directory is refused before any worker starts.
pub fn plan_directory_upload(files: Vec<String>, max_workers: usize) -> (r: Result<
    Vec<Vec<String>>,
    UploadError,
>)
    requires
        max_workers >= 1,
    ensures
        files@.len() == 0 <==> r == Err::<Vec<Vec<String>>, UploadError>(
            UploadError::EmptyDirectory,
        ),
        files@.len() > 0 <==> r is Ok,
        r is Ok ==> views_of(r->Ok_0@) == chunks_of(
            files@,
            chunk_size(files@.len(), max_workers as nat),
        ),
{
    if files.len() == 0 {
        Err(UploadError::EmptyDirectory)
    } else {
        Ok(split_into_chunks(files, max_workers))
    }
}

/// The media type that `mime_guess` registers first for the extension of a
/// path, if any.
pub uninterp spec fn guessed_mime(path: Seq<char>) -> Option<Seq<char>>;

/// Relies on `mime_guess::from_path` and `MimeGuess::first_raw`: the first
/// media type known for the path's extension; no disk access.
#[verifier::external_body]
fn guess_mime(path: &str) -> (r: Option<String>)
    ensures
        opt_view(r) == guessed_mime(path@),
{
    mime_guess::from_path(path).first_raw().map(String::from)
}

/// The content type sent for a file: the guessed media type, else a generic
/// byte stream.
pub open spec fn content_type_of(guess: Option<Seq<char>>) -> Seq<char> {
    match guess {
        Some(m) => m,
        None => "application/octet-stream"@,
    }
}

/// Picks the content type from the media type guessed for a file.
pub fn content_type_for(guess: Option<String>) -> (r: String)
    ensures
        r@ == content_type_of(opt_view(guess)),
{
    match guess {
        Some(m) => m,
        None => String::from_str("application/octet-stream"),
    }
}

/// The content type sent for the file at `path`.
pub fn content_type(path: &str) -> (r: String)
    ensures
        r@ == content_type_of(guessed_mime(path@)),
{
    content_type_for(guess_mime(path))
}

/// One file to send: where it is, under which key, with which content type.
#[derive(Debug)]
pub struct UploadJob {
    pub path: String,
    pub key: String,
    pub content_type: String,
}

/// The job for the file at `path` of a directory upload rooted at `root`.
pub open spec fn job_matches(
    j: UploadJob,
    path: Seq<char>,
    root: Seq<char>,
    dest: Option<Seq<char>>,
) -> bool {
    &&& j.path@ == path
    &&& j.key@ == object_key_of(path, root, dest)
    &&& j.content_type@ == content_type_of(guessed_mime(path))
}

/// The jobs of one worker: one per file of its chunk, in the chunk's order.
pub fn plan_chunk(chunk: &Vec<String>, root: &str, dest: &Option<String>) -> (r: Vec<UploadJob>)
    ensures
        r@.len() == chunk@.len(),
        forall|i: int|
            0 <= i < chunk@.len() ==> job_matches(
                #[trigger] r@[i],
                chunk@[i]@,
                root@,
                opt_view(*dest),
            ),
{
    let mut jobs: Vec<UploadJob> = Vec::new();
    let mut i: usize = 0;
    while i < chunk.len()
        invariant
            i <= chunk@.len(),
            jobs@.len() == i,
            forall|k: int|
                0 <= k < i ==> job_matches(#[trigger] jobs@[k], chunk@[k]@, root@, opt_view(*dest)),
        decreases chunk@.len() - i,
    {
        let path = chunk[i].as_str();
        let job = UploadJob {
            path: String::from_str(path),
            key: object_key(path, root, dest),
            content_type: content_type(path),
        };
        jobs.push(job);
        i = i + 1;
    }
    jobs
}

/// Successes and failures counted by a worker, or summed over workers.
#[derive(Clone, Copy, Debug, PartialEq, Eq, Structural)]
pub struct UploadTally {
    pub success: u64,
    pub failure: u64,
}

/// The number of `true` among `s`.
pub open spec fn count_true(s: Seq<bool>) -> nat
    decreases s.len(),
{
    if s.len() == 0 {
        0
    } else {
        count_true(s.drop_last()) + if s.last() { 1nat } else { 0nat }
    }
}

/// The number of `false` among `s`.
pub open spec fn count_false(s: Seq<bool>) -> nat
    decreases s.len(),
{
    if s.len() == 0 {
        0
    } else {
        count_false(s.drop_last()) + if s.last() { 0nat } else { 1nat }
    }
}

impl UploadTally {
    /// No file counted yet.
    pub fn new() -> (r: UploadTally)
        ensures
            r == (UploadTally { success: 0, failure: 0 }),
    {
        UploadTally { success: 0, failure: 0 }
    }

    /// Counts the outcome of one file.
    pub fn record(&mut self, ok: bool)
        requires
            ok ==> old(self).success < u64::MAX,
            !ok ==> old(self).failure < u64::MAX,
        ensures
            ok ==> *final(self) == (UploadTally {
                success: (old(self).success + 1) as u64,
                failure: old(self).failure,
            }),
            !ok ==> *final(self) == (UploadTally {
                success: old(self).success,
                failure: (old(self).failure + 1) as u64,
            }),
    {
        if ok {
            self.success = self.success + 1;
        } else {
            self.failure = self.failure + 1;
        }
    }
}

/// Tallies the outcomes of one worker's files, in order; a failure does not
/// stop the count.
pub fn tally_outcomes(outcomes: &Vec<bool>) -> (r: UploadTally)
    ensures
        r.success == count_true(outcomes@),
        r.failure == count_false(outcomes@),
{
    let mut t = UploadTally::new();
    let mut i: usize = 0;
    while i < outcomes.len()
        invariant
            i <= outcomes@.len(),
            t.success == count_true(outcomes@.take(i as int)),
            t.failure == count_false(outcomes@.take(i as int)),
            t.success + t.failure == i,
        decreases outcomes@.len() - i,
    {
        proof {
            assert(outcomes@.take(i + 1).drop_last() =~= outcomes@.take(i as int));
        }
        t.record(outcomes[i]);
        i = i + 1;
    }
    proof {
        assert(outcomes@.take(i as int) =~= outcomes@);
    }
    t
}

/// The successes summed over tallies.
pub open spec fn sum_success(s: Seq<UploadTally>) -> nat
    decreases s.len(),
{
    if s.len() == 0 {
        0
    } else {
        sum_success(s.drop_last()) + s.last().success as nat
    }
}

/// The failures summed over tallies.
pub open spec fn sum_failure(s: Seq<UploadTally>) -> nat
    decreases s.len(),
{
    if s.len() == 0 {
        0
    } else {
        sum_failure(s.drop_last()) + s.last().failure as nat
    }
}

/// The grand total over all workers' tallies, or `None` where a sum does not
/// fit in 64 bits.
pub fn sum_tallies(tallies: &Vec<UploadTally>) -> (r: Option<UploadTally>)
    ensures
        r is Some <==> sum_success(tallies@) <= u64::MAX && sum_failure(tallies@) <= u64::MAX,
        r is Some ==> r->0.success == sum_success(tallies@) && r->0.failure == sum_failure(
            tallies@,
        ),
{
    let mut total = UploadTally::new();
    let mut i: usize = 0;
    while i < tallies.len()
        invariant
            i <= tallies@.len(),
            total.success == sum_success(tallies@.take(i as int)),
            total.failure == sum_failure(tallies@.take(i as int)),
        decreases tallies@.len() - i,
    {
        proof {
            assert(tallies@.take(i + 1).drop_last() =~= tallies@.take(i as int));
            lemma_sums_grow(tallies@, i as int + 1);
        }
        let t = tallies[i];
        match (total.success.checked_add(t.success), total.failure.checked_add(t.failure)) {
            (Some(s), Some(f)) => {
                total = UploadTally { success: s, failure: f };
            },
            _ => {
                return None;
            },
        }
        i = i + 1;
    }
    proof {
        assert(tallies@.take(i as int) =~= tallies@);
    }
    Some(total)
}

/// Counting is additive over a split of the outcomes.
proof fn lemma_counts_append(a: Seq<bool>, b: Seq<bool>)
    ensures
        count_true(a + b) == count_true(a) + count_true(b),
        count_false(a + b) == count_false(a) + count_false(b),
    decreases b.len(),
{
    if b.len() == 0 {
        assert(a + b =~= a);
    } else {
        lemma_counts_append(a, b.drop_last());
        assert((a + b).drop_last() =~= a + b.drop_last());
    }
}

/// Summing the workers' tallies counts every file's outcome exactly once:
/// where each worker's tally counts the outcomes of its own chunk, the grand
/// total is the number of successes and of failures over all the chunks
/// together, wherever the failures fall.
pub proof fn lemma_total_counts_every_outcome(chunks: Seq<Seq<bool>>, tallies: Seq<UploadTally>)
    requires
        tallies.len() == chunks.len(),
        forall|i: int|
            0 <= i < chunks.len() ==> (#[trigger] tallies[i]).success == count_true(chunks[i])
                && tallies[i].failure == count_false(chunks[i]),
    ensures
        sum_success(tallies) == count_true(chunks.flatten()),
        sum_failure(tallies) == count_false(chunks.flatten()),
    decreases chunks.len(),
{
    chunks.lemma_flatten_and_flatten_alt_are_equivalent();
    if chunks.len() > 0 {
        let c0 = chunks.drop_last();
        let t0 = tallies.drop_last();
        assert forall|i: int| 0 <= i < c0.len() implies (#[trigger] t0[i]).success == count_true(
            c0[i],
        ) && t0[i].failure == count_false(c0[i]) by {
            assert(t0[i] == tallies[i]);
            assert(c0[i] == chunks[i]);
        }
        lemma_total_counts_every_outcome(c0, t0);
        c0.lemma_flatten_and_flatten_alt_are_equivalent();
        lemma_counts_append(c0.flatten_alt(), chunks.last());
        assert(tallies.last() == tallies[tallies.len() - 1]);
    } else {
        assert(chunks.flatten() =~= Seq::<bool>::empty());
    }
}

/// Sums over a prefix never exceed the sums over the whole.
proof fn lemma_sums_grow(s: Seq<UploadTally>, n: int)
    requires
        0 <= n <= s.len(),
    ensures
        sum_success(s.take(n)) <= sum_success(s),
        sum_failure(s.take(n)) <= sum_failure(s),
    decreases s.len() - n,
{
    if n < s.len() {
        assert(s.take(n + 1).drop_last() =~= s.take(n));
        lemma_sums_grow(s, n + 1);
    } else {
        assert(s.take(n) =~= s);
    }
}

/// A single operation on the bucket.
#[derive(Clone, Copy, Debug, PartialEq, Eq, Structural)]
pub enum Operation {
    Upload,
    Download,
    Delete,
}

/// The notice shown when an operation on `subject` fails with `message`.
pub open spec fn failure_notice_of(op: Operation, subject: Seq<char>, message: Seq<char>) -> Seq<
    char,
> {
    match op {
        Operation::Upload => subject + " 上传失败, "@ + message,
        Operation::Download => "下载失败, "@ + message,
        Operation::Delete => "删除失败, "@ + message,
    }
}

/// The notice shown for a failed operation; it carries the storage service's
/// error text.
pub fn failure_notice(op: Operation, subject: &str, message: &str) -> (r: String)
    ensures
        r@ == failure_notice_of(op, subject@, message@),
{
    match op {
        Operation::Upload => {
            let mut r = String::from_str(subject);
            r.append(" 上传失败, ");
            r.append(message);
            r
        },
        Operation::Download => {
            let mut r = String::from_str("下载失败, ");
            r.append(message);
            r
        },
        Operation::Delete => {
            let mut r = String::from_str("删除失败, ");
            r.append(message);
            r
        },
    }
}

/// The process's exit status after a single operation.
pub fn exit_status(success: bool) -> (r: i32)
    ensures
        r == (if success { 0i32 } else { 1i32 }),
{
    if success {
        0
    } else {
        1
    }
}

} // verus!
