//! The orchestrator: the resume scan, the batches, the life of each job, and
//! the run that drives an engine against the cache.

use crate::cache::{has_room, put, ContentCache, Entries};
use crate::chunker::Chunk;
use crate::config::ConfigError;
use crate::error::EngineError;
use crate::key::{cache_key, key_of};
use crate::text::texts;
use vstd::prelude::*;
use vstd::utf8::encode_utf8;

verus! {

/// Where the job of one chunk stands.
#[derive(Debug, Clone, Copy, PartialEq, Eq, Structural)]
pub enum JobStatus {
    /// The cache held the translation before the run began.
    Cached,
    /// The translation is missing and not yet sent to the engine.
    Pending,
    /// The chunk is part of a batch that was sent to the engine.
    Submitted,
    /// The translation was written to the cache in this run.
    Completed,
    /// The engine failed for the batch of this chunk.
    EngineFailed,
    /// The engine answered, but the cache refused the write.
    WriteFailed,
}

/// The account of a run: one status per chunk, by chunk index.
#[derive(Debug, Clone, PartialEq, Eq)]
pub struct ProcessingReport {
    pub jobs: Vec<JobStatus>,
}

/// What an engine call gave for a batch: the output texts, one per input,
/// or nothing if the call failed.
pub type Reply = Option<Seq<Seq<char>>>;

/// The cache and the job statuses at one point of a run.
pub struct RunState {
    pub cache: Entries,
    pub jobs: Seq<JobStatus>,
}

/// The texts of the chunks, by index.
pub open spec fn chunk_texts(chunks: Seq<Chunk>) -> Seq<Seq<char>> {
    chunks.map_values(|c: Chunk| c.text@)
}

/// The cache keys of the texts, by index.
pub open spec fn keys_of(ts: Seq<Seq<char>>) -> Seq<Seq<char>> {
    ts.map_values(|t: Seq<char>| key_of(t))
}

/// For each key, whether the cache holds an entry.
pub open spec fn presence(m: Entries, keys: Seq<Seq<char>>) -> Seq<bool> {
    keys.map_values(|k: Seq<char>| m.contains_key(k))
}

/// The statuses at the start of a run: cached where an entry is present,
/// pending elsewhere.
pub open spec fn initial_jobs(present: Seq<bool>) -> Seq<JobStatus> {
    present.map_values(
        |p: bool|
            if p {
                JobStatus::Cached
            } else {
                JobStatus::Pending
            },
    )
}

/// The indices whose status is `a` or `b`, in increasing order.
pub open spec fn select(jobs: Seq<JobStatus>, a: JobStatus, b: JobStatus) -> Seq<usize>
    decreases jobs.len(),
{
    if jobs.len() == 0 {
        Seq::empty()
    } else {
        let head = select(jobs.drop_last(), a, b);
        if jobs.last() == a || jobs.last() == b {
            head.push((jobs.len() - 1) as usize)
        } else {
            head
        }
    }
}

/// The pending set: the indices still waiting for the engine, in order.
pub open spec fn pending_of(jobs: Seq<JobStatus>) -> Seq<usize> {
    select(jobs, JobStatus::Pending, JobStatus::Pending)
}

/// The indices that failed, in order.
pub open spec fn failed_of(jobs: Seq<JobStatus>) -> Seq<usize> {
    select(jobs, JobStatus::EngineFailed, JobStatus::WriteFailed)
}

/// The number of chunks whose translation is in the cache: those found
/// there at the start and those written since.
pub open spec fn count_done(jobs: Seq<JobStatus>) -> nat
    decreases jobs.len(),
{
    if jobs.len() == 0 {
        0
    } else {
        count_done(jobs.drop_last()) + if jobs.last() == JobStatus::Cached || jobs.last()
            == JobStatus::Completed {
            1nat
        } else {
            0nat
        }
    }
}

/// Whether index `i` is one of `batch`.
pub open spec fn holds(batch: Seq<usize>, i: int) -> bool {
    exists|j: int| 0 <= j < batch.len() && #[trigger] batch[j] == i
}

/// The statuses after every job of `batch` that stands at `from` has moved
/// to `to`. All other jobs stay as they are.
pub open spec fn marked(jobs: Seq<JobStatus>, batch: Seq<usize>, from: JobStatus, to: JobStatus) -> Seq<
    JobStatus,
> {
    Seq::new(
        jobs.len(),
        |i: int|
            if jobs[i] == from && holds(batch, i) {
                to
            } else {
                jobs[i]
            },
    )
}

/// The statuses after job `i` has moved from `from` to `to`, if it stood at
/// `from`; unchanged otherwise.
pub open spec fn moved(jobs: Seq<JobStatus>, i: int, from: JobStatus, to: JobStatus) -> Seq<
    JobStatus,
> {
    if 0 <= i < jobs.len() && jobs[i] == from {
        jobs.update(i, to)
    } else {
        jobs
    }
}

/// The pending indices cut into consecutive batches of `size`; the last
/// batch holds what is left.
pub open spec fn batches(p: Seq<usize>, size: int) -> Seq<Seq<usize>>
    decreases p.len(),
{
    if size <= 0 || p.len() == 0 {
        Seq::empty()
    } else if p.len() <= size {
        seq![p]
    } else {
        seq![p.take(size)] + batches(p.skip(size), size)
    }
}

/// The sequences held by a sequence of vectors.
pub open spec fn batch_views(v: Seq<Vec<usize>>) -> Seq<Seq<usize>> {
    v.map_values(|b: Vec<usize>| b@)
}

/// The texts that a batch submits: those of its chunks, in batch order.
pub open spec fn inputs_of(ts: Seq<Seq<char>>, batch: Seq<usize>) -> Seq<Seq<char>> {
    Seq::new(batch.len(), |j: int| ts[batch[j] as int])
}

/// How an engine result counts: as the output texts if the call succeeded
/// with exactly one output per input, as a failure of the whole batch
/// otherwise.
pub open spec fn reply_of(r: Result<Vec<String>, EngineError>, expected: nat) -> Reply {
    match r {
        Ok(v) => if v@.len() == expected {
            Some(texts(v@))
        } else {
            None
        },
        Err(_) => None,
    }
}

/// The state after the output `text` for job `i` was handed to the cache.
/// Only a submitted job is written. It completes if the cache accepts the
/// write and is marked as a write failure if not.
pub open spec fn written(s: RunState, limit: nat, keys: Seq<Seq<char>>, i: int, text: Seq<char>) -> RunState {
    if 0 <= i < s.jobs.len() && i < keys.len() && s.jobs[i] == JobStatus::Submitted {
        if has_room(s.cache, limit, keys[i]) {
            RunState {
                cache: put(s.cache, limit, keys[i], encode_utf8(text)),
                jobs: s.jobs.update(i, JobStatus::Completed),
            }
        } else {
            RunState { cache: s.cache, jobs: s.jobs.update(i, JobStatus::WriteFailed) }
        }
    } else {
        s
    }
}

/// The state after the first `j` outputs of a batch were handed to the
/// cache, in batch order.
pub open spec fn written_all(
    s: RunState,
    limit: nat,
    keys: Seq<Seq<char>>,
    batch: Seq<usize>,
    outs: Seq<Seq<char>>,
    j: int,
) -> RunState
    decreases j,
{
    if j <= 0 {
        s
    } else {
        written(
            written_all(s, limit, keys, batch, outs, j - 1),
            limit,
            keys,
            batch[j - 1] as int,
            outs[j - 1],
        )
    }
}

/// The state after a submitted batch was settled with the engine's reply:
/// a failed call marks every job of the batch and leaves the cache alone;
/// a successful one writes each output under the key of its chunk.
pub open spec fn settled(
    s: RunState,
    limit: nat,
    keys: Seq<Seq<char>>,
    batch: Seq<usize>,
    reply: Reply,
) -> RunState {
    match reply {
        None => RunState {
            cache: s.cache,
            jobs: marked(s.jobs, batch, JobStatus::Submitted, JobStatus::EngineFailed),
        },
        Some(outs) => written_all(s, limit, keys, batch, outs, batch.len() as int),
    }
}

/// One batch from start to end: its pending jobs are submitted, then the
/// reply is settled.
pub open spec fn stepped(
    s: RunState,
    limit: nat,
    keys: Seq<Seq<char>>,
    batch: Seq<usize>,
    reply: Reply,
) -> RunState {
    settled(
        RunState {
            cache: s.cache,
            jobs: marked(s.jobs, batch, JobStatus::Pending, JobStatus::Submitted),
        },
        limit,
        keys,
        batch,
        reply,
    )
}

/// The state after the first `b` batches, each with its reply.
pub open spec fn ran(
    s: RunState,
    limit: nat,
    keys: Seq<Seq<char>>,
    bs: Seq<Seq<usize>>,
    replies: Seq<Reply>,
    b: int,
) -> RunState
    decreases b,
{
    if b <= 0 {
        s
    } else {
        stepped(ran(s, limit, keys, bs, replies, b - 1), limit, keys, bs[b - 1], replies[b - 1])
    }
}

/// The state in which a run over `ts` starts from the cache contents `m`.
pub open spec fn start_of(m: Entries, ts: Seq<Seq<char>>) -> RunState {
    RunState { cache: m, jobs: initial_jobs(presence(m, keys_of(ts))) }
}

/// The batches that a run over `ts` forms when it starts from `m`.
pub open spec fn plan_of(m: Entries, ts: Seq<Seq<char>>, size: int) -> Seq<Seq<usize>> {
    batches(pending_of(start_of(m, ts).jobs), size)
}

/// The state in which a run over the chunk texts `ts` ends, when it starts
/// from the cache contents `m` and the engine gives `replies`, one per
/// batch.
pub open spec fn run_model(
    m: Entries,
    limit: nat,
    ts: Seq<Seq<char>>,
    size: int,
    replies: Seq<Reply>,
) -> RunState {
    let bs = plan_of(m, ts, size);
    ran(start_of(m, ts), limit, keys_of(ts), bs, replies, bs.len() as int)
}

/// Whether `reply` is what `translate` may have given for a batch with the
/// texts `inputs`.
pub open spec fn is_engine_reply<F: Fn(Vec<String>) -> Result<Vec<String>, EngineError>>(
    translate: F,
    inputs: Seq<Seq<char>>,
    reply: Reply,
) -> bool {
    exists|v: Vec<String>, r: Result<Vec<String>, EngineError>|
        texts(v@) == inputs && #[trigger] call_ensures(translate, (v,), r) && reply_of(
            r,
            inputs.len(),
        ) == reply
}

/// Whether `replies` holds, for each batch of the plan, something that
/// `translate` may have given for that batch.
pub open spec fn are_engine_replies<F: Fn(Vec<String>) -> Result<Vec<String>, EngineError>>(
    translate: F,
    ts: Seq<Seq<char>>,
    bs: Seq<Seq<usize>>,
    replies: Seq<Reply>,
) -> bool {
    &&& replies.len() == bs.len()
    &&& forall|b: int|
        0 <= b < bs.len() ==> is_engine_reply(translate, inputs_of(ts, bs[b]), #[trigger] replies[b])
}

/// A run depends on the replies of the batches it has processed, and on no
/// others.
pub proof fn lemma_ran_prefix(
    s: RunState,
    limit: nat,
    keys: Seq<Seq<char>>,
    bs: Seq<Seq<usize>>,
    r1: Seq<Reply>,
    r2: Seq<Reply>,
    b: int,
)
    requires
        forall|k: int| 0 <= k < b ==> r1[k] == r2[k],
    ensures
        ran(s, limit, keys, bs, r1, b) == ran(s, limit, keys, bs, r2, b),
    decreases b,
{
    if b > 0 {
        lemma_ran_prefix(s, limit, keys, bs, r1, r2, b - 1);
    }
}

fn mark_each(jobs: &mut Vec<JobStatus>, batch: &Vec<usize>, from: JobStatus, to: JobStatus)
    ensures
        final(jobs)@ == marked(old(jobs)@, batch@, from, to),
{
    let ghost before = jobs@;
    let mut j: usize = 0;
    assert(jobs@ =~= marked(before, batch@.take(0), from, to));
    while j < batch.len()
        invariant
            j <= batch.len(),
            jobs@ == marked(before, batch@.take(j as int), from, to),
        decreases batch.len() - j,
    {
        let i = batch[j];
        let ghost seen = batch@.take(j as int);
        let ghost next = batch@.take(j + 1);
        assert forall|x: int| holds(next, x) == (holds(seen, x) || x == i) by {
            if holds(seen, x) {
                let w = choose|w: int| 0 <= w < seen.len() && #[trigger] seen[w] == x;
                assert(next[w] == x);
            }
            if x == i {
                assert(next[j as int] == x);
            }
            if holds(next, x) {
                let w = choose|w: int| 0 <= w < next.len() && #[trigger] next[w] == x;
                if w < j {
                    assert(seen[w] == x);
                }
            }
        }
        if i < jobs.len() && jobs[i] == from {
            jobs.set(i, to);
        }
        assert(jobs@ =~= marked(before, next, from, to));
        j += 1;
    }
    assert(batch@.take(j as int) =~= batch@);
}

impl ProcessingReport {
    /// The account at the start of a run, from the resume scan: a chunk
    /// whose entry is present is done, every other is pending.
    pub fn begin(present: &Vec<bool>) -> (r: ProcessingReport)
        ensures
            r.jobs@ == initial_jobs(present@),
    {
        let mut jobs: Vec<JobStatus> = Vec::new();
        let mut i: usize = 0;
        while i < present.len()
            invariant
                i <= present.len(),
                jobs@ == initial_jobs(present@.take(i as int)),
            decreases present.len() - i,
        {
            if present[i] {
                jobs.push(JobStatus::Cached);
            } else {
                jobs.push(JobStatus::Pending);
            }
            assert(jobs@ =~= initial_jobs(present@.take(i + 1)));
            i += 1;
        }
        assert(present@.take(i as int) =~= present@);
        ProcessingReport { jobs }
    }

    /// The number of chunks.
    pub fn total(&self) -> (n: usize)
        ensures
            n == self.jobs@.len(),
    {
        self.jobs.len()
    }

    /// The number of chunks whose translation is in the cache.
    pub fn completed(&self) -> (n: usize)
        ensures
            n == count_done(self.jobs@),
            n <= self.jobs@.len(),
    {
        let mut n: usize = 0;
        let mut i: usize = 0;
        while i < self.jobs.len()
            invariant
                i <= self.jobs.len(),
                n <= i,
                n == count_done(self.jobs@.take(i as int)),
            decreases self.jobs.len() - i,
        {
            assert(self.jobs@.take(i + 1).drop_last() =~= self.jobs@.take(i as int));
            let s = self.jobs[i];
            if s == JobStatus::Cached || s == JobStatus::Completed {
                n += 1;
            }
            i += 1;
        }
        assert(self.jobs@.take(i as int) =~= self.jobs@);
        n
    }

    fn indices_with(&self, a: JobStatus, b: JobStatus) -> (out: Vec<usize>)
        ensures
            out@ == select(self.jobs@, a, b),
    {
        let mut out: Vec<usize> = Vec::new();
        let mut i: usize = 0;
        while i < self.jobs.len()
            invariant
                i <= self.jobs.len(),
                out@ == select(self.jobs@.take(i as int), a, b),
            decreases self.jobs.len() - i,
        {
            assert(self.jobs@.take(i + 1).drop_last() =~= self.jobs@.take(i as int));
            let s = self.jobs[i];
            if s == a || s == b {
                out.push(i);
            }
            i += 1;
        }
        assert(self.jobs@.take(i as int) =~= self.jobs@);
        out
    }

    /// The pending set: the indices not yet sent to the engine, in order.
    pub fn pending(&self) -> (out: Vec<usize>)
        ensures
            out@ == pending_of(self.jobs@),
    {
        self.indices_with(JobStatus::Pending, JobStatus::Pending)
    }

    /// The indices that failed, in order.
    pub fn failed(&self) -> (out: Vec<usize>)
        ensures
            out@ == failed_of(self.jobs@),
    {
        self.indices_with(JobStatus::EngineFailed, JobStatus::WriteFailed)
    }

    /// The status of job `index`, if there is such a job.
    pub fn status(&self, index: usize) -> (s: Option<JobStatus>)
        ensures
            s == if index < self.jobs@.len() {
                Some(self.jobs@[index as int])
            } else {
                None
            },
    {
        if index < self.jobs.len() {
            Some(self.jobs[index])
        } else {
            None
        }
    }

    /// Marks the pending jobs of `batch` as submitted.
    pub fn submit(&mut self, batch: &Vec<usize>)
        ensures
            final(self).jobs@ == marked(
                old(self).jobs@,
                batch@,
                JobStatus::Pending,
                JobStatus::Submitted,
            ),
    {
        mark_each(&mut self.jobs, batch, JobStatus::Pending, JobStatus::Submitted);
    }

    /// Records that the engine failed for `batch`: each of its submitted
    /// jobs has failed.
    pub fn record_engine_failure(&mut self, batch: &Vec<usize>)
        ensures
            final(self).jobs@ == marked(
                old(self).jobs@,
                batch@,
                JobStatus::Submitted,
                JobStatus::EngineFailed,
            ),
    {
        mark_each(&mut self.jobs, batch, JobStatus::Submitted, JobStatus::EngineFailed);
    }

    /// Records that the output of the submitted job `index` is in the
    /// cache.
    pub fn record_written(&mut self, index: usize)
        ensures
            final(self).jobs@ == moved(
                old(self).jobs@,
                index as int,
                JobStatus::Submitted,
                JobStatus::Completed,
            ),
    {
        if index < self.jobs.len() && self.jobs[index] == JobStatus::Submitted {
            self.jobs.set(index, JobStatus::Completed);
        }
    }

    /// Records that the cache refused the output of the submitted job
    /// `index`.
    pub fn record_write_failure(&mut self, index: usize)
        ensures
            final(self).jobs@ == moved(
                old(self).jobs@,
                index as int,
                JobStatus::Submitted,
                JobStatus::WriteFailed,
            ),
    {
        if index < self.jobs.len() && self.jobs[index] == JobStatus::Submitted {
            self.jobs.set(index, JobStatus::WriteFailed);
        }
    }
}

/// The cache keys of the chunks, by index.
pub fn chunk_keys(chunks: &Vec<Chunk>) -> (keys: Vec<String>)
    ensures
        texts(keys@) == keys_of(chunk_texts(chunks@)),
{
    let mut keys: Vec<String> = Vec::new();
    let mut i: usize = 0;
    while i < chunks.len()
        invariant
            i <= chunks.len(),
            texts(keys@) == keys_of(chunk_texts(chunks@.take(i as int))),
        decreases chunks.len() - i,
    {
        let k = cache_key(chunks[i].text.as_str());
        let ghost before = keys@;
        keys.push(k);
        assert(chunks@.take(i + 1) =~= chunks@.take(i as int).push(chunks@[i as int]));
        assert(texts(before.push(k)) =~= texts(before).push(k@));
        assert(keys_of(chunk_texts(chunks@.take(i + 1))) =~= keys_of(
            chunk_texts(chunks@.take(i as int)),
        ).push(key_of(chunks@[i as int].text@)));
        i += 1;
    }
    assert(chunks@.take(i as int) =~= chunks@);
    keys
}

/// The resume scan: for each key, in order, whether the cache holds an
/// entry.
pub fn scan(cache: &ContentCache, keys: &Vec<String>) -> (present: Vec<bool>)
    ensures
        present@ == presence(cache@, texts(keys@)),
{
    let mut present: Vec<bool> = Vec::new();
    let mut i: usize = 0;
    while i < keys.len()
        invariant
            i <= keys.len(),
            present@ == presence(cache@, texts(keys@.take(i as int))),
        decreases keys.len() - i,
    {
        present.push(cache.contains(keys[i].as_str()));
        assert(present@ =~= presence(cache@, texts(keys@.take(i + 1))));
        i += 1;
    }
    assert(keys@.take(i as int) =~= keys@);
    present
}

fn copy_range(p: &Vec<usize>, from: usize, to: usize) -> (out: Vec<usize>)
    requires
        from <= to <= p.len(),
    ensures
        out@ == p@.subrange(from as int, to as int),
{
    let mut out: Vec<usize> = Vec::new();
    let mut i: usize = from;
    while i < to
        invariant
            from <= i <= to <= p.len(),
            out@ == p@.subrange(from as int, i as int),
        decreases to - i,
    {
        out.push(p[i]);
        assert(out@ =~= p@.subrange(from as int, i + 1));
        i += 1;
    }
    out
}

/// Cuts the pending set into batches of at most `batch_size` consecutive
/// pending indices. A batch size of zero is rejected.
pub fn plan_batches(pending: &Vec<usize>, batch_size: usize) -> (r: Result<
    Vec<Vec<usize>>,
    ConfigError,
>)
    ensures
        r is Err <==> batch_size == 0,
        r matches Err(e) ==> e == ConfigError::ZeroBatchSize,
        r matches Ok(bs) ==> batch_views(bs@) == batches(pending@, batch_size as int),
{
    if batch_size == 0 {
        return Err(ConfigError::ZeroBatchSize);
    }
    let n = pending.len();
    let mut out: Vec<Vec<usize>> = Vec::new();
    let mut start: usize = 0;
    assert(pending@.skip(0) =~= pending@);
    assert(batch_views(out@) + batches(pending@.skip(0), batch_size as int) =~= batches(
        pending@,
        batch_size as int,
    ));
    while n - start > batch_size
        invariant
            batch_size > 0,
            n == pending.len(),
            start <= n,
            batches(pending@, batch_size as int) == batch_views(out@) + batches(
                pending@.skip(start as int),
                batch_size as int,
            ),
        decreases n - start,
    {
        let b = copy_range(pending, start, start + batch_size);
        let ghost before = batch_views(out@);
        let ghost rest = pending@.skip(start as int);
        out.push(b);
        proof {
            assert(rest.take(batch_size as int) =~= b@);
            assert(rest.skip(batch_size as int) =~= pending@.skip(start + batch_size));
            assert(batch_views(out@) =~= before.push(b@));
            assert(before + (seq![b@] + batches(
                pending@.skip(start + batch_size),
                batch_size as int,
            )) =~= before.push(b@) + batches(
                pending@.skip(start + batch_size),
                batch_size as int,
            ));
        }
        start += batch_size;
    }
    if start < n {
        let b = copy_range(pending, start, n);
        let ghost before = batch_views(out@);
        out.push(b);
        proof {
            assert(pending@.skip(start as int) =~= b@);
            assert(batch_views(out@) =~= before.push(b@));
            assert(before + seq![b@] =~= before.push(b@));
        }
    } else {
        assert(batch_views(out@) + Seq::<Seq<usize>>::empty() =~= batch_views(out@));
    }
    Ok(out)
}

/// The texts to submit for `batch`: those of its chunks, in batch order.
pub fn batch_inputs(chunks: &Vec<Chunk>, batch: &Vec<usize>) -> (inputs: Vec<String>)
    requires
        forall|j: int| 0 <= j < batch.len() ==> #[trigger] batch[j] < chunks.len(),
    ensures
        texts(inputs@) == inputs_of(chunk_texts(chunks@), batch@),
{
    let mut inputs: Vec<String> = Vec::new();
    let mut j: usize = 0;
    while j < batch.len()
        invariant
            j <= batch.len(),
            forall|k: int| 0 <= k < batch.len() ==> #[trigger] batch[k] < chunks.len(),
            texts(inputs@) == inputs_of(chunk_texts(chunks@), batch@.take(j as int)),
        decreases batch.len() - j,
    {
        let s = chunks[batch[j]].text.clone();
        let ghost before = inputs@;
        inputs.push(s);
        assert(texts(before.push(s)) =~= texts(before).push(s@));
        assert(inputs_of(chunk_texts(chunks@), batch@.take(j + 1)) =~= inputs_of(
            chunk_texts(chunks@),
            batch@.take(j as int),
        ).push(chunks@[batch@[j as int] as int].text@));
        j += 1;
    }
    assert(batch@.take(j as int) =~= batch@);
    inputs
}

/// Decides how an engine result counts for a batch of `expected` chunks:
/// the outputs if there is exactly one per input, a failure otherwise.
pub fn accept_reply(reply: Result<Vec<String>, EngineError>, expected: usize) -> (o: Option<
    Vec<String>,
>)
    ensures
        match o {
            Some(v) => reply_of(reply, expected as nat) == Some(texts(v@)) && v@.len() == expected,
            None => reply_of(reply, expected as nat) is None,
        },
{
    match reply {
        Ok(v) => if v.len() == expected {
            Some(v)
        } else {
            None
        },
        Err(_) => None,
    }
}

/// Settles a submitted batch with the engine's result. If the call failed,
/// or did not give one output per input, every job of the batch has failed
/// and the cache is untouched. Otherwise each output is written under the
/// key of its chunk; a write that the cache refuses fails that job alone.
pub fn settle_batch(
    cache: &mut ContentCache,
    report: &mut ProcessingReport,
    keys: &Vec<String>,
    batch: &Vec<usize>,
    reply: Result<Vec<String>, EngineError>,
)
    ensures
        (RunState { cache: final(cache)@, jobs: final(report).jobs@ }) == settled(
            RunState { cache: old(cache)@, jobs: old(report).jobs@ },
            old(cache).limit(),
            texts(keys@),
            batch@,
            reply_of(reply, batch@.len()),
        ),
        final(cache).limit() == old(cache).limit(),
{
    let ghost start = RunState { cache: cache@, jobs: report.jobs@ };
    let ghost limit = cache.limit();
    match accept_reply(reply, batch.len()) {
        None => {
            report.record_engine_failure(batch);
        },
        Some(outs) => {
            let mut j: usize = 0;
            while j < batch.len()
                invariant
                    j <= batch.len(),
                    outs@.len() == batch@.len(),
                    cache.limit() == limit,
                    (RunState { cache: cache@, jobs: report.jobs@ }) == written_all(
                        start,
                        limit,
                        texts(keys@),
                        batch@,
                        texts(outs@),
                        j as int,
                    ),
                decreases batch.len() - j,
            {
                let i = batch[j];
                if i < keys.len() {
                    match report.status(i) {
                        Some(JobStatus::Submitted) => {
                            match cache.write(keys[i].as_str(), outs[j].as_str()) {
                                Ok(_) => report.record_written(i),
                                Err(_) => report.record_write_failure(i),
                            }
                        },
                        _ => {},
                    }
                }
                j += 1;
            }
        },
    }
}

/// Runs the orchestrator over `chunks`: scans the cache, batches what is
/// missing, sends each batch to `translate` in one call, and writes each
/// result to the cache as it arrives. Chunks already in the cache cost no
/// engine call. A failed batch or a refused write is recorded and does not
/// stop the batches that follow. A batch size of zero is rejected before
/// any work is done.
pub fn run<F: Fn(Vec<String>) -> Result<Vec<String>, EngineError>>(
    chunks: &Vec<Chunk>,
    batch_size: usize,
    cache: &mut ContentCache,
    translate: F,
) -> (r: Result<ProcessingReport, ConfigError>)
    requires
        forall|inputs: Vec<String>| call_requires(translate, (inputs,)),
    ensures
        r is Err <==> batch_size == 0,
        r matches Err(e) ==> e == ConfigError::ZeroBatchSize && final(cache)@ == old(cache)@,
        final(cache).limit() == old(cache).limit(),
        r matches Ok(report) ==> exists|replies: Seq<Reply>|
            {
                &&& are_engine_replies(
                    translate,
                    chunk_texts(chunks@),
                    plan_of(old(cache)@, chunk_texts(chunks@), batch_size as int),
                    replies,
                )
                &&& (RunState { cache: final(cache)@, jobs: report.jobs@ }) == #[trigger] run_model(
                    old(cache)@,
                    old(cache).limit(),
                    chunk_texts(chunks@),
                    batch_size as int,
                    replies,
                )
            },
{
    if batch_size == 0 {
        return Err(ConfigError::ZeroBatchSize);
    }
    let ghost ts = chunk_texts(chunks@);
    let ghost m0 = cache@;
    let ghost limit = cache.limit();
    let keys = chunk_keys(chunks);
    let present = scan(cache, &keys);
    let mut report = ProcessingReport::begin(&present);
    let pending = report.pending();
    let plan = match plan_batches(&pending, batch_size) {
        Ok(plan) => plan,
        Err(e) => {
            return Err(e);
        },
    };
    let ghost bs = batch_views(plan@);
    let ghost s0 = start_of(m0, ts);
    proof {
        assert(bs == plan_of(m0, ts, batch_size as int));
        lemma_plan_in_range(s0.jobs, batch_size as int);
        assert(s0.jobs.len() == chunks@.len());
    }
    let ghost mut replies: Seq<Reply> = Seq::empty();
    let mut b: usize = 0;
    while b < plan.len()
        invariant
            b <= plan.len(),
            forall|inputs: Vec<String>| call_requires(translate, (inputs,)),
            ts == chunk_texts(chunks@),
            texts(keys@) == keys_of(ts),
            bs == batch_views(plan@),
            cache.limit() == limit,
            replies.len() == b,
            forall|k: int, j: int|
                0 <= k < bs.len() && 0 <= j < bs[k].len() ==> (#[trigger] bs[k][j]) < chunks@.len(),
            forall|k: int|
                0 <= k < b ==> is_engine_reply(translate, inputs_of(ts, bs[k]), #[trigger] replies[k]),
            (RunState { cache: cache@, jobs: report.jobs@ }) == ran(
                s0,
                limit,
                keys_of(ts),
                bs,
                replies,
                b as int,
            ),
        decreases plan.len() - b,
    {
        let batch = &plan[b];
        assert(batch@ == bs[b as int]);
        assert forall|j: int| 0 <= j < batch.len() implies #[trigger] batch[j] < chunks.len() by {
            assert(bs[b as int][j] < chunks@.len());
        }
        let inputs = batch_inputs(chunks, batch);
        report.submit(batch);
        let ghost sent = inputs;
        let result = translate(inputs);
        let ghost reply = reply_of(result, batch@.len());
        proof {
            assert(inputs_of(ts, batch@).len() == batch@.len());
            assert(call_ensures(translate, (sent,), result));
            assert(is_engine_reply(translate, inputs_of(ts, batch@), reply));
            let extended = replies.push(reply);
            lemma_ran_prefix(s0, limit, keys_of(ts), bs, replies, extended, b as int);
            assert forall|k: int| 0 <= k < b + 1 implies is_engine_reply(
                translate,
                inputs_of(ts, bs[k]),
                #[trigger] extended[k],
            ) by {
                if k < b {
                    assert(extended[k] == replies[k]);
                }
            }
            replies = extended;
        }
        settle_batch(cache, &mut report, &keys, batch, result);
        b += 1;
    }
    proof {
        assert(are_engine_replies(translate, ts, bs, replies));
        assert((RunState { cache: cache@, jobs: report.jobs@ }) == run_model(
            m0,
            limit,
            ts,
            batch_size as int,
            replies,
        ));
    }
    Ok(report)
}

/// Every index of every batch of a plan is the index of a job.
pub proof fn lemma_plan_in_range(jobs: Seq<JobStatus>, size: int)
    requires
        jobs.len() <= usize::MAX,
    ensures
        forall|k: int, j: int|
            0 <= k < batches(pending_of(jobs), size).len() && 0 <= j < batches(
                pending_of(jobs),
                size,
            )[k].len() ==> (#[trigger] batches(pending_of(jobs), size)[k][j]) < jobs.len(),
{
    let p = pending_of(jobs);
    lemma_select_members(jobs, JobStatus::Pending, JobStatus::Pending);
    lemma_batches_members(p, size);
    let bs = batches(p, size);
    assert forall|k: int, j: int| 0 <= k < bs.len() && 0 <= j < bs[k].len() implies (
    #[trigger] bs[k][j]) < jobs.len() by {
        assert(p.contains(bs[k][j]));
    }
}

/// The selected indices are exactly those whose status is `a` or `b`; they
/// come in strictly increasing order.
pub proof fn lemma_select_members(jobs: Seq<JobStatus>, a: JobStatus, b: JobStatus)
    requires
        jobs.len() <= usize::MAX,
    ensures
        forall|k: int|
            0 <= k < select(jobs, a, b).len() ==> {
                let i = #[trigger] select(jobs, a, b)[k];
                i < jobs.len() && (jobs[i as int] == a || jobs[i as int] == b)
            },
        forall|i: int|
            0 <= i < jobs.len() && (jobs[i] == a || jobs[i] == b) ==> select(jobs, a, b).contains(
                i as usize,
            ),
        forall|k: int, l: int|
            0 <= k < l < select(jobs, a, b).len() ==> select(jobs, a, b)[k] < select(jobs, a, b)[l],
    decreases jobs.len(),
{
    if jobs.len() > 0 {
        let front = jobs.drop_last();
        lemma_select_members(front, a, b);
        let head = select(front, a, b);
        let all = select(jobs, a, b);
        let n = (jobs.len() - 1) as usize;
        assert forall|k: int| 0 <= k < all.len() implies {
            let i = #[trigger] all[k];
            i < jobs.len() && (jobs[i as int] == a || jobs[i as int] == b)
        } by {
            if k < head.len() {
                let i = head[k];
                assert(all[k] == i);
                assert(front[i as int] == jobs[i as int]);
            }
        }
        assert forall|i: int|
            0 <= i < jobs.len() && (jobs[i] == a || jobs[i] == b) implies all.contains(
            i as usize,
        ) by {
            if i < front.len() {
                assert(front[i] == jobs[i]);
                assert(head.contains(i as usize));
                let w = choose|w: int| 0 <= w < head.len() && head[w] == i as usize;
                assert(all[w] == i as usize);
            } else {
                assert(all[all.len() - 1] == n);
            }
        }
        assert forall|k: int, l: int| 0 <= k < l < all.len() implies all[k] < all[l] by {
            if l < head.len() {
                assert(all[k] == head[k] && all[l] == head[l]);
            } else {
                assert(all[k] == head[k]);
                assert(head[k] < front.len());
            }
        }
    }
}

/// Batches hold only pending indices.
pub proof fn lemma_batches_members(p: Seq<usize>, size: int)
    ensures
        forall|k: int, j: int|
            0 <= k < batches(p, size).len() && 0 <= j < batches(p, size)[k].len() ==> p.contains(
                #[trigger] batches(p, size)[k][j],
            ),
    decreases p.len(),
{
    let bs = batches(p, size);
    if size <= 0 || p.len() == 0 {
    } else if p.len() <= size {
        assert forall|k: int, j: int| 0 <= k < bs.len() && 0 <= j < bs[k].len() implies p.contains(
            #[trigger] bs[k][j],
        ) by {
            assert(bs[k][j] == p[j]);
        }
    } else {
        let rest = p.skip(size);
        lemma_batches_members(rest, size);
        let tail = batches(rest, size);
        assert(bs == seq![p.take(size)] + tail);
        assert forall|k: int, j: int| 0 <= k < bs.len() && 0 <= j < bs[k].len() implies p.contains(
            #[trigger] bs[k][j],
        ) by {
            if k == 0 {
                assert(bs[k][j] == p[j]);
            } else {
                assert(bs[k] == tail[k - 1]);
                assert(rest.contains(tail[k - 1][j]));
                let w = choose|w: int| 0 <= w < rest.len() && rest[w] == tail[k - 1][j];
                assert(p[w + size] == bs[k][j]);
            }
        }
    }
}

} // verus!
