//! What holds of every run of the orchestrator, whatever the engine
//! answers: how each job ends, what the cache holds afterwards, and what a
//! second run finds.

use crate::cache::{has_room, lookup, CacheError, Entries};
use crate::key::key_of;
use crate::merger::{filled, first_gap, lemma_first_gap, merged, parts_of, MergeError};
use crate::orchestrator::{
    batches, failed_of, holds, keys_of, lemma_batches_members, lemma_select_members, marked,
    inputs_of, pending_of, plan_of, ran, run_model, start_of, stepped, written, written_all,
    JobStatus, Reply, RunState,
};
use crate::text::{joined, rendered};
use crate::translator::{document_output, echo_replies, line_feed, TranslateError};
use vstd::prelude::*;
use vstd::seq_lib::seq_to_set_is_finite;
use vstd::set::axiom_set_remove_len;
use vstd::set_lib::{lemma_len_subset, lemma_len_union};
use vstd::utf8::{encode_utf8, encode_utf8_decode_utf8, encode_utf8_valid_utf8};

verus! {

/// Whether the first `b` batches of `bs` hold the job `i`.
pub open spec fn in_first(bs: Seq<Seq<usize>>, b: int, i: int) -> bool {
    exists|k: int, j: int| 0 <= k < b && 0 <= j < bs[k].len() && #[trigger] bs[k][j] == i
}

/// Whether `bs` is a plan for jobs that start as `start`: every entry is
/// the index of a pending job, and no job is claimed twice, neither by two
/// batches nor within one.
pub open spec fn is_plan(start: Seq<JobStatus>, bs: Seq<Seq<usize>>) -> bool {
    &&& forall|k: int, j: int|
        0 <= k < bs.len() && 0 <= j < bs[k].len() ==> (#[trigger] bs[k][j]) < start.len()
            && start[bs[k][j] as int] == JobStatus::Pending
    &&& forall|k: int, j: int, k2: int, j2: int|
        #![trigger bs[k][j], bs[k2][j2]]
        0 <= k < bs.len() && 0 <= j < bs[k].len() && 0 <= k2 < bs.len() && 0 <= j2 < bs[k2].len()
            && (k != k2 || j != j2) ==> bs[k][j] != bs[k2][j2]
}

/// Whether `key` is the key of a job that was completed.
pub open spec fn done_key(jobs: Seq<JobStatus>, keys: Seq<Seq<char>>, key: Seq<char>) -> bool {
    exists|i: int|
        0 <= i < keys.len() && i < jobs.len() && #[trigger] keys[i] == key && jobs[i]
            == JobStatus::Completed
}

/// How the cache and the jobs belong together during a run that started
/// from the contents `m`: nothing of `m` was lost or changed, every
/// completed job has its entry, and every entry was in `m` or belongs to a
/// completed job.
pub open spec fn cache_ok(m: Entries, keys: Seq<Seq<char>>, s: RunState) -> bool {
    &&& s.jobs.len() == keys.len()
    &&& m.submap_of(s.cache)
    &&& s.cache.dom().finite()
    &&& forall|i: int|
        0 <= i < keys.len() && s.jobs[i] == JobStatus::Completed ==> s.cache.contains_key(
            #[trigger] keys[i],
        )
    &&& forall|key: Seq<char>| #[trigger]
        s.cache.contains_key(key) ==> m.contains_key(key) || done_key(s.jobs, keys, key)
}

/// Whether a store that started with the contents `m` has room for one
/// entry per chunk.
pub open spec fn roomy(m: Entries, keys: Seq<Seq<char>>, limit: nat) -> bool {
    m.dom().finite() && m.len() + keys.len() <= limit
}

/// How the jobs stand after the first `b` batches of a plan: a job of a
/// batch whose call failed has failed, a job of a batch that was answered
/// is completed or was refused by the cache, and every other job is as it
/// was at the start.
pub open spec fn jobs_after(
    start: Seq<JobStatus>,
    bs: Seq<Seq<usize>>,
    replies: Seq<Reply>,
    b: int,
    jobs: Seq<JobStatus>,
) -> bool {
    &&& jobs.len() == start.len()
    &&& forall|i: int| 0 <= i < jobs.len() && !in_first(bs, b, i) ==> #[trigger] jobs[i] == start[i]
    &&& forall|k: int, j: int|
        0 <= k < b && 0 <= j < bs[k].len() ==> {
            let s = jobs[(#[trigger] bs[k][j]) as int];
            if replies[k] is None {
                s == JobStatus::EngineFailed
            } else {
                s == JobStatus::Completed || s == JobStatus::WriteFailed
            }
        }
}

/// In a store that is roomy, a write under the key of any chunk is
/// accepted.
proof fn lemma_room(m: Entries, keys: Seq<Seq<char>>, limit: nat, s: RunState, i: int)
    requires
        cache_ok(m, keys, s),
        roomy(m, keys, limit),
        0 <= i < keys.len(),
    ensures
        has_room(s.cache, limit, keys[i]),
{
    let key = keys[i];
    if !s.cache.contains_key(key) {
        let all = m.dom().union(keys.to_set());
        seq_to_set_is_finite(keys);
        keys.lemma_cardinality_of_set();
        lemma_len_union(m.dom(), keys.to_set());
        assert(keys.to_set().contains(key));
        assert(all.contains(key));
        assert forall|k: Seq<char>| s.cache.dom().contains(k) implies all.remove(key).contains(
            k,
        ) by {
            assert(s.cache.contains_key(k));
            if !m.contains_key(k) {
                assert(done_key(s.jobs, keys, k));
                let w = choose|w: int|
                    0 <= w < keys.len() && w < s.jobs.len() && #[trigger] keys[w] == k
                        && s.jobs[w] == JobStatus::Completed;
                assert(keys.contains(k));
            }
        }
        assert(s.cache.dom().subset_of(all.remove(key)));
        axiom_set_remove_len(all, key);
        lemma_len_subset(s.cache.dom(), all.remove(key));
    }
}

/// One write: only the job written changes, and only if it was submitted;
/// the cache and the jobs still belong together.
proof fn lemma_written(
    m: Entries,
    keys: Seq<Seq<char>>,
    limit: nat,
    s: RunState,
    i: int,
    text: Seq<char>,
)
    requires
        cache_ok(m, keys, s),
    ensures
        cache_ok(m, keys, written(s, limit, keys, i, text)),
        forall|x: int|
            0 <= x < s.jobs.len() && x != i ==> #[trigger] written(s, limit, keys, i, text).jobs[x]
                == s.jobs[x],
        0 <= i < s.jobs.len() ==> {
            let after = written(s, limit, keys, i, text).jobs[i];
            if s.jobs[i] == JobStatus::Submitted {
                after == JobStatus::Completed || (after == JobStatus::WriteFailed && !roomy(
                    m,
                    keys,
                    limit,
                ))
            } else {
                after == s.jobs[i]
            }
        },
{
    let t = written(s, limit, keys, i, text);
    if 0 <= i < s.jobs.len() && s.jobs[i] == JobStatus::Submitted {
        if roomy(m, keys, limit) {
            lemma_room(m, keys, limit, s, i);
        }
        if has_room(s.cache, limit, keys[i]) {
            assert forall|x: int|
                0 <= x < keys.len() && t.jobs[x] == JobStatus::Completed implies t.cache.contains_key(
                #[trigger] keys[x],
            ) by {
                if x != i {
                    assert(s.jobs[x] == JobStatus::Completed);
                }
            }
            assert forall|key: Seq<char>| #[trigger] t.cache.contains_key(key) implies m.contains_key(
                key,
            ) || done_key(t.jobs, keys, key) by {
                if key == keys[i] {
                    assert(keys[i] == key && t.jobs[i] == JobStatus::Completed);
                } else if !m.contains_key(key) {
                    assert(s.cache.contains_key(key));
                    let w = choose|w: int|
                        0 <= w < keys.len() && w < s.jobs.len() && #[trigger] keys[w] == key
                            && s.jobs[w] == JobStatus::Completed;
                    assert(keys[w] == key && t.jobs[w] == JobStatus::Completed);
                }
            }
        } else {
            assert forall|key: Seq<char>| #[trigger] t.cache.contains_key(key) implies m.contains_key(
                key,
            ) || done_key(t.jobs, keys, key) by {
                if !m.contains_key(key) {
                    let w = choose|w: int|
                        0 <= w < keys.len() && w < s.jobs.len() && #[trigger] keys[w] == key
                            && s.jobs[w] == JobStatus::Completed;
                    assert(keys[w] == key && t.jobs[w] == JobStatus::Completed);
                }
            }
        }
    }
}

/// What the writes of a batch do to a state.
pub open spec fn writes_ok(
    m: Entries,
    keys: Seq<Seq<char>>,
    limit: nat,
    s: RunState,
    batch: Seq<usize>,
    j: int,
    t: RunState,
) -> bool {
    &&& cache_ok(m, keys, t)
    &&& forall|x: int|
        0 <= x < s.jobs.len() && !holds(batch.take(j), x) ==> #[trigger] t.jobs[x] == s.jobs[x]
    &&& forall|x: int|
        0 <= x < s.jobs.len() && holds(batch.take(j), x) ==> {
            let after = #[trigger] t.jobs[x];
            if s.jobs[x] == JobStatus::Submitted {
                after == JobStatus::Completed || (after == JobStatus::WriteFailed && !roomy(
                    m,
                    keys,
                    limit,
                ))
            } else {
                after == s.jobs[x]
            }
        }
}

proof fn lemma_written_all(
    m: Entries,
    keys: Seq<Seq<char>>,
    limit: nat,
    s: RunState,
    batch: Seq<usize>,
    outs: Seq<Seq<char>>,
    j: int,
)
    requires
        cache_ok(m, keys, s),
        0 <= j <= batch.len(),
    ensures
        writes_ok(m, keys, limit, s, batch, j, written_all(s, limit, keys, batch, outs, j)),
    decreases j,
{
    let t = written_all(s, limit, keys, batch, outs, j);
    if j == 0 {
        assert forall|x: int| !holds(batch.take(0), x) by {}
    } else {
        let u = written_all(s, limit, keys, batch, outs, j - 1);
        lemma_written_all(m, keys, limit, s, batch, outs, j - 1);
        let i = batch[j - 1] as int;
        lemma_written(m, keys, limit, u, i, outs[j - 1]);
        let seen = batch.take(j - 1);
        let next = batch.take(j);
        assert forall|x: int| holds(next, x) == (holds(seen, x) || x == i) by {
            if holds(seen, x) {
                let w = choose|w: int| 0 <= w < seen.len() && #[trigger] seen[w] == x;
                assert(next[w] == x);
            }
            if x == i {
                assert(next[j - 1] == x);
            }
            if holds(next, x) {
                let w = choose|w: int| 0 <= w < next.len() && #[trigger] next[w] == x;
                if w < j - 1 {
                    assert(seen[w] == x);
                }
            }
        }
        assert forall|x: int| 0 <= x < s.jobs.len() && !holds(next, x) implies #[trigger] t.jobs[x]
            == s.jobs[x] by {
            assert(t.jobs[x] == u.jobs[x]);
        }
        assert forall|x: int| 0 <= x < s.jobs.len() && holds(next, x) implies {
            let after = #[trigger] t.jobs[x];
            if s.jobs[x] == JobStatus::Submitted {
                after == JobStatus::Completed || (after == JobStatus::WriteFailed && !roomy(
                    m,
                    keys,
                    limit,
                ))
            } else {
                after == s.jobs[x]
            }
        } by {
            if x != i {
                assert(t.jobs[x] == u.jobs[x]);
            } else if holds(seen, x) {
            } else {
                assert(u.jobs[x] == s.jobs[x]);
            }
        }
    }
}

/// One batch, from submission to settlement, takes the jobs and the cache
/// from how they stand after `b` batches to how they stand after `b + 1`.
proof fn lemma_stepped(
    m: Entries,
    keys: Seq<Seq<char>>,
    limit: nat,
    start: Seq<JobStatus>,
    bs: Seq<Seq<usize>>,
    replies: Seq<Reply>,
    b: int,
    s: RunState,
)
    requires
        is_plan(start, bs),
        0 <= b < bs.len(),
        b < replies.len(),
        cache_ok(m, keys, s),
        jobs_after(start, bs, replies, b, s.jobs),
        forall|i: int| 0 <= i < start.len() ==> #[trigger] start[i] != JobStatus::Submitted,
        forall|i: int| 0 <= i < s.jobs.len() ==> #[trigger] s.jobs[i] != JobStatus::Submitted,
        roomy(m, keys, limit) ==> forall|i: int|
            0 <= i < s.jobs.len() ==> #[trigger] s.jobs[i] != JobStatus::WriteFailed,
    ensures
        ({
            let t = stepped(s, limit, keys, bs[b], replies[b]);
            &&& cache_ok(m, keys, t)
            &&& jobs_after(start, bs, replies, b + 1, t.jobs)
            &&& forall|i: int| 0 <= i < t.jobs.len() ==> #[trigger] t.jobs[i] != JobStatus::Submitted
            &&& roomy(m, keys, limit) ==> forall|i: int|
                0 <= i < t.jobs.len() ==> #[trigger] t.jobs[i] != JobStatus::WriteFailed
        }),
{
    let batch = bs[b];
    let sub = RunState {
        cache: s.cache,
        jobs: marked(s.jobs, batch, JobStatus::Pending, JobStatus::Submitted),
    };
    let t = stepped(s, limit, keys, batch, replies[b]);
    let n = start.len() as int;
    // Every job of this batch was pending and is now submitted; no other job is.
    assert forall|j: int| 0 <= j < batch.len() implies sub.jobs[(#[trigger] batch[j]) as int]
        == JobStatus::Submitted by {
        let i = batch[j] as int;
        assert(bs[b][j] == i);
        if in_first(bs, b, i) {
            let (k, j2) = choose|k: int, j2: int|
                0 <= k < b && 0 <= j2 < bs[k].len() && #[trigger] bs[k][j2] == i;
            assert(bs[k][j2] != bs[b][j]);
        }
        assert(s.jobs[i] == start[i]);
        assert(holds(batch, i));
    }
    assert forall|i: int| 0 <= i < n && !holds(batch, i) implies #[trigger] sub.jobs[i]
        == s.jobs[i] by {}
    assert(cache_ok(m, keys, sub)) by {
        assert forall|i: int|
            0 <= i < keys.len() && sub.jobs[i] == JobStatus::Completed implies sub.cache.contains_key(
            #[trigger] keys[i],
        ) by {
            assert(s.jobs[i] == JobStatus::Completed);
        }
        assert forall|key: Seq<char>| #[trigger] sub.cache.contains_key(key) implies m.contains_key(
            key,
        ) || done_key(sub.jobs, keys, key) by {
            if !m.contains_key(key) {
                let w = choose|w: int|
                    0 <= w < keys.len() && w < s.jobs.len() && #[trigger] keys[w] == key
                        && s.jobs[w] == JobStatus::Completed;
                assert(keys[w] == key && sub.jobs[w] == JobStatus::Completed);
            }
        }
    }
    // What the settlement does to each job.
    assert forall|i: int| 0 <= i < n implies {
        let after = #[trigger] t.jobs[i];
        if holds(batch, i) {
            if replies[b] is None {
                after == JobStatus::EngineFailed
            } else {
                after == JobStatus::Completed || (after == JobStatus::WriteFailed && !roomy(
                    m,
                    keys,
                    limit,
                ))
            }
        } else {
            after == s.jobs[i]
        }
    } by {
        if holds(batch, i) {
            let j = choose|j: int| 0 <= j < batch.len() && #[trigger] batch[j] == i;
            assert(sub.jobs[batch[j] as int] == JobStatus::Submitted);
        }
        match replies[b] {
            None => {},
            Some(outs) => {
                lemma_written_all(m, keys, limit, sub, batch, outs, batch.len() as int);
                assert(batch.take(batch.len() as int) =~= batch);
            },
        }
    }
    assert(cache_ok(m, keys, t)) by {
        match replies[b] {
            None => {
                assert forall|i: int|
                    0 <= i < keys.len() && t.jobs[i] == JobStatus::Completed implies t.cache.contains_key(
                    #[trigger] keys[i],
                ) by {
                    assert(sub.jobs[i] == JobStatus::Completed);
                }
                assert forall|key: Seq<char>| #[trigger]
                    t.cache.contains_key(key) implies m.contains_key(key) || done_key(
                    t.jobs,
                    keys,
                    key,
                ) by {
                    if !m.contains_key(key) {
                        assert(done_key(sub.jobs, keys, key));
                        let w = choose|w: int|
                            0 <= w < keys.len() && w < sub.jobs.len() && #[trigger] keys[w] == key
                                && sub.jobs[w] == JobStatus::Completed;
                        assert(keys[w] == key && t.jobs[w] == JobStatus::Completed);
                    }
                }
            },
            Some(outs) => {
                lemma_written_all(m, keys, limit, sub, batch, outs, batch.len() as int);
            },
        }
    }
    assert forall|i: int| in_first(bs, b + 1, i) == (in_first(bs, b, i) || holds(batch, i)) by {
        if in_first(bs, b, i) {
            let (k, j) = choose|k: int, j: int|
                0 <= k < b && 0 <= j < bs[k].len() && #[trigger] bs[k][j] == i;
            assert(0 <= k < b + 1 && bs[k][j] == i);
        }
        if holds(batch, i) {
            let j = choose|j: int| 0 <= j < batch.len() && #[trigger] batch[j] == i;
            assert(bs[b][j] == i);
        }
        if in_first(bs, b + 1, i) {
            let (k, j) = choose|k: int, j: int|
                0 <= k < b + 1 && 0 <= j < bs[k].len() && #[trigger] bs[k][j] == i;
            if k < b {
                assert(in_first(bs, b, i));
            } else {
                assert(batch[j] == i);
            }
        }
    }
    assert forall|k: int, j: int| 0 <= k < b + 1 && 0 <= j < bs[k].len() implies {
        let st = t.jobs[(#[trigger] bs[k][j]) as int];
        if replies[k] is None {
            st == JobStatus::EngineFailed
        } else {
            st == JobStatus::Completed || st == JobStatus::WriteFailed
        }
    } by {
        let i = bs[k][j] as int;
        if k < b {
            assert(!holds(batch, i)) by {
                if holds(batch, i) {
                    let j2 = choose|j2: int| 0 <= j2 < batch.len() && #[trigger] batch[j2] == i;
                    assert(bs[b][j2] != bs[k][j]);
                }
            }
            assert(t.jobs[i] == s.jobs[i]);
        } else {
            assert(batch[j] == i);
            assert(holds(batch, i));
        }
    }
    assert forall|i: int| 0 <= i < t.jobs.len() implies #[trigger] t.jobs[i]
        != JobStatus::Submitted by {}
}

/// The whole run, batch by batch.
proof fn lemma_ran(
    m: Entries,
    keys: Seq<Seq<char>>,
    limit: nat,
    start: RunState,
    bs: Seq<Seq<usize>>,
    replies: Seq<Reply>,
    b: int,
)
    requires
        is_plan(start.jobs, bs),
        0 <= b <= bs.len(),
        replies.len() == bs.len(),
        start.cache == m,
        m.dom().finite(),
        start.jobs.len() == keys.len(),
        forall|i: int|
            0 <= i < start.jobs.len() ==> #[trigger] start.jobs[i] == JobStatus::Pending
                || start.jobs[i] == JobStatus::Cached,
    ensures
        ({
            let t = ran(start, limit, keys, bs, replies, b);
            &&& cache_ok(m, keys, t)
            &&& jobs_after(start.jobs, bs, replies, b, t.jobs)
            &&& forall|i: int| 0 <= i < t.jobs.len() ==> #[trigger] t.jobs[i] != JobStatus::Submitted
            &&& roomy(m, keys, limit) ==> forall|i: int|
                0 <= i < t.jobs.len() ==> #[trigger] t.jobs[i] != JobStatus::WriteFailed
        }),
    decreases b,
{
    if b == 0 {
        assert forall|key: Seq<char>| #[trigger] start.cache.contains_key(key) implies m.contains_key(
            key,
        ) || done_key(start.jobs, keys, key) by {}
    } else {
        lemma_ran(m, keys, limit, start, bs, replies, b - 1);
        let s = ran(start, limit, keys, bs, replies, b - 1);
        lemma_stepped(m, keys, limit, start.jobs, bs, replies, b - 1, s);
    }
}

/// Whether the numbers of `p` grow strictly.
pub open spec fn increasing(p: Seq<usize>) -> bool {
    forall|a: int, b: int| 0 <= a < b < p.len() ==> p[a] < p[b]
}

/// No two batches claim overlapping index sets: cut from a pending set
/// without repeats, the batches hold every pending index, each in exactly
/// one place, and none is empty or longer than the batch size.
pub proof fn lemma_batches_partition(p: Seq<usize>, size: int)
    requires
        increasing(p),
        size > 0,
    ensures
        forall|k: int|
            0 <= k < batches(p, size).len() ==> 0 < (#[trigger] batches(p, size)[k]).len() <= size,
        forall|k: int, j: int, k2: int, j2: int|
            #![trigger batches(p, size)[k][j], batches(p, size)[k2][j2]]
            0 <= k < batches(p, size).len() && 0 <= j < batches(p, size)[k].len() && 0 <= k2
                < batches(p, size).len() && 0 <= j2 < batches(p, size)[k2].len() && (k < k2 || (k
                == k2 && j < j2)) ==> batches(p, size)[k][j] < batches(p, size)[k2][j2],
        forall|q: int|
            0 <= q < p.len() ==> in_first(batches(p, size), batches(p, size).len() as int, #[trigger] p[q] as int),
    decreases p.len(),
{
    let bs = batches(p, size);
    if p.len() == 0 {
    } else if p.len() <= size {
        assert forall|q: int| 0 <= q < p.len() implies in_first(
            bs,
            bs.len() as int,
            #[trigger] p[q] as int,
        ) by {
            assert(bs[0][q] == p[q]);
        }
    } else {
        let rest = p.skip(size);
        let tail = batches(rest, size);
        assert(increasing(rest)) by {
            assert forall|a: int, b: int| 0 <= a < b < rest.len() implies rest[a] < rest[b] by {
                assert(rest[a] == p[a + size] && rest[b] == p[b + size]);
            }
        }
        lemma_batches_partition(rest, size);
        lemma_batches_members(rest, size);
        assert(bs == seq![p.take(size)] + tail);
        assert forall|k: int| 0 <= k < bs.len() implies 0 < (#[trigger] bs[k]).len() <= size by {
            if k > 0 {
                assert(bs[k] == tail[k - 1]);
            }
        }
        assert forall|k: int, j: int, k2: int, j2: int|
            #![trigger bs[k][j], bs[k2][j2]]
            0 <= k < bs.len() && 0 <= j < bs[k].len() && 0 <= k2 < bs.len() && 0 <= j2
                < bs[k2].len() && (k < k2 || (k == k2 && j < j2)) implies bs[k][j] < bs[k2][j2] by {
            if k == 0 {
                assert(bs[k][j] == p[j]);
                if k2 == 0 {
                    assert(bs[k2][j2] == p[j2]);
                } else {
                    assert(bs[k2] == tail[k2 - 1]);
                    assert(rest.contains(tail[k2 - 1][j2]));
                    let w = choose|w: int| 0 <= w < rest.len() && rest[w] == tail[k2 - 1][j2];
                    assert(rest[w] == p[w + size]);
                }
            } else {
                assert(bs[k] == tail[k - 1]);
                assert(bs[k2] == tail[k2 - 1]);
                assert(tail[k - 1][j] < tail[k2 - 1][j2]);
            }
        }
        assert forall|q: int| 0 <= q < p.len() implies in_first(
            bs,
            bs.len() as int,
            #[trigger] p[q] as int,
        ) by {
            if q < size {
                assert(bs[0][q] == p[q]);
            } else {
                assert(rest[q - size] == p[q]);
                assert(in_first(tail, tail.len() as int, rest[q - size] as int));
                let (k, j) = choose|k: int, j: int|
                    0 <= k < tail.len() && 0 <= j < tail[k].len() && #[trigger] tail[k][j] == p[q];
                assert(bs[k + 1] == tail[k]);
                assert(bs[k + 1][j] == p[q]);
            }
        }
    }
}

/// The plan that a run forms is a plan: it claims pending jobs only, each
/// once, and it claims every pending job.
pub proof fn lemma_plan_is_plan(m: Entries, ts: Seq<Seq<char>>, size: int)
    requires
        ts.len() <= usize::MAX,
        size > 0,
    ensures
        is_plan(start_of(m, ts).jobs, plan_of(m, ts, size)),
        forall|i: int|
            0 <= i < ts.len() && !m.contains_key(keys_of(ts)[i]) ==> #[trigger] in_first(
                plan_of(m, ts, size),
                plan_of(m, ts, size).len() as int,
                i,
            ),
        forall|k: int, j: int|
            0 <= k < plan_of(m, ts, size).len() && 0 <= j < plan_of(m, ts, size)[k].len() ==> (
            #[trigger] plan_of(m, ts, size)[k][j]) < ts.len() && !m.contains_key(
                keys_of(ts)[plan_of(m, ts, size)[k][j] as int],
            ),
{
    let start = start_of(m, ts).jobs;
    let p = pending_of(start);
    let bs = plan_of(m, ts, size);
    lemma_select_members(start, JobStatus::Pending, JobStatus::Pending);
    assert(increasing(p));
    lemma_batches_partition(p, size);
    lemma_batches_members(p, size);
    assert forall|k: int, j: int| 0 <= k < bs.len() && 0 <= j < bs[k].len() implies (
    #[trigger] bs[k][j]) < start.len() && start[bs[k][j] as int] == JobStatus::Pending by {
        assert(p.contains(bs[k][j]));
        let w = choose|w: int| 0 <= w < p.len() && p[w] == bs[k][j];
        assert(p[w] < start.len());
    }
    assert forall|k: int, j: int, k2: int, j2: int|
        #![trigger bs[k][j], bs[k2][j2]]
        0 <= k < bs.len() && 0 <= j < bs[k].len() && 0 <= k2 < bs.len() && 0 <= j2 < bs[k2].len()
            && (k != k2 || j != j2) implies bs[k][j] != bs[k2][j2] by {
        if k < k2 || (k == k2 && j < j2) {
            assert(bs[k][j] < bs[k2][j2]);
        } else {
            assert(bs[k2][j2] < bs[k][j]);
        }
    }
    assert forall|i: int| 0 <= i < ts.len() && !m.contains_key(keys_of(ts)[i]) implies #[trigger] in_first(
        bs,
        bs.len() as int,
        i,
    ) by {
        assert(start[i] == JobStatus::Pending);
        assert(p.contains(i as usize));
        let q = choose|q: int| 0 <= q < p.len() && p[q] == i as usize;
        assert(in_first(bs, bs.len() as int, p[q] as int));
    }
    assert forall|k: int, j: int| 0 <= k < bs.len() && 0 <= j < bs[k].len() implies (
    #[trigger] bs[k][j]) < ts.len() && !m.contains_key(keys_of(ts)[bs[k][j] as int]) by {
        assert(start[bs[k][j] as int] == JobStatus::Pending);
    }
}

/// How every run ends. Whatever the engine answers: a chunk that was in
/// the cache costs nothing and stays cached; every other chunk belongs to
/// exactly one batch, and has failed if the call for that batch failed,
/// and is completed or was refused by the cache if the call was answered;
/// the cache has lost nothing, holds the entry of every completed chunk,
/// and holds nothing else that it did not hold before.
pub proof fn lemma_run_outcome(
    m: Entries,
    limit: nat,
    ts: Seq<Seq<char>>,
    size: int,
    replies: Seq<Reply>,
)
    requires
        m.dom().finite(),
        ts.len() <= usize::MAX,
        size > 0,
        replies.len() == plan_of(m, ts, size).len(),
    ensures
        ({
            let end = run_model(m, limit, ts, size, replies);
            let bs = plan_of(m, ts, size);
            let keys = keys_of(ts);
            &&& end.jobs.len() == ts.len()
            &&& cache_ok(m, keys, end)
            &&& forall|i: int|
                0 <= i < ts.len() ==> (m.contains_key(keys[i]) <==> #[trigger] end.jobs[i]
                    == JobStatus::Cached)
            &&& forall|k: int, j: int|
                0 <= k < bs.len() && 0 <= j < bs[k].len() ==> {
                    let s = end.jobs[(#[trigger] bs[k][j]) as int];
                    if replies[k] is None {
                        s == JobStatus::EngineFailed
                    } else if roomy(m, keys, limit) {
                        s == JobStatus::Completed
                    } else {
                        s == JobStatus::Completed || s == JobStatus::WriteFailed
                    }
                }
            &&& forall|i: int|
                0 <= i < ts.len() ==> #[trigger] end.jobs[i] != JobStatus::Pending && end.jobs[i]
                    != JobStatus::Submitted
        }),
{
    let start = start_of(m, ts);
    let bs = plan_of(m, ts, size);
    let keys = keys_of(ts);
    let end = run_model(m, limit, ts, size, replies);
    lemma_plan_is_plan(m, ts, size);
    lemma_ran(m, keys, limit, start, bs, replies, bs.len() as int);
    assert forall|i: int| 0 <= i < ts.len() implies (m.contains_key(keys[i]) <==> #[trigger] end.jobs[i]
        == JobStatus::Cached) && end.jobs[i] != JobStatus::Pending by {
        if m.contains_key(keys[i]) {
            assert(start.jobs[i] == JobStatus::Cached);
            if in_first(bs, bs.len() as int, i) {
                let (k, j) = choose|k: int, j: int|
                    0 <= k < bs.len() && 0 <= j < bs[k].len() && #[trigger] bs[k][j] == i;
                assert(start.jobs[bs[k][j] as int] == JobStatus::Pending);
            }
        } else {
            assert(in_first(bs, bs.len() as int, i));
            let (k, j) = choose|k: int, j: int|
                0 <= k < bs.len() && 0 <= j < bs[k].len() && #[trigger] bs[k][j] == i;
            let s = end.jobs[bs[k][j] as int];
            assert(s == JobStatus::EngineFailed || s == JobStatus::Completed || s
                == JobStatus::WriteFailed);
        }
    }
}

/// Two strictly growing sequences with the same members are the same
/// sequence.
proof fn lemma_increasing_same(a: Seq<usize>, b: Seq<usize>)
    requires
        increasing(a),
        increasing(b),
        forall|x: usize| a.contains(x) <==> b.contains(x),
    ensures
        a == b,
    decreases a.len(),
{
    if a.len() == 0 {
        if b.len() > 0 {
            assert(b.contains(b[0]));
        }
        assert(a =~= b);
    } else {
        assert(a.contains(a.last()));
        assert(b.contains(a.last()));
        assert(b.len() > 0);
        assert(b.contains(b.last()));
        assert(a.contains(b.last()));
        let wa = choose|w: int| 0 <= w < a.len() && a[w] == b.last();
        let wb = choose|w: int| 0 <= w < b.len() && b[w] == a.last();
        assert(a.last() == b.last());
        let a0 = a.drop_last();
        let b0 = b.drop_last();
        assert forall|x: usize| a0.contains(x) <==> b0.contains(x) by {
            if a0.contains(x) {
                let w = choose|w: int| 0 <= w < a0.len() && a0[w] == x;
                assert(a[w] == x);
                assert(a[w] < a.last());
                assert(b.contains(x));
                let v = choose|v: int| 0 <= v < b.len() && b[v] == x;
                assert(b0[v] == x);
            }
            if b0.contains(x) {
                let w = choose|w: int| 0 <= w < b0.len() && b0[w] == x;
                assert(b[w] == x);
                assert(b[w] < b.last());
                assert(a.contains(x));
                let v = choose|v: int| 0 <= v < a.len() && a[v] == x;
                assert(a0[v] == x);
            }
        }
        assert(increasing(a0)) by {
            assert forall|x: int, y: int| 0 <= x < y < a0.len() implies a0[x] < a0[y] by {
                assert(a0[x] == a[x] && a0[y] == a[y]);
            }
        }
        assert(increasing(b0)) by {
            assert forall|x: int, y: int| 0 <= x < y < b0.len() implies b0[x] < b0[y] by {
                assert(b0[x] == b[x] && b0[y] == b[y]);
            }
        }
        lemma_increasing_same(a0, b0);
        assert(a =~= a0.push(a.last()));
        assert(b =~= b0.push(b.last()));
    }
}

/// Failure isolation. If the engine fails for one batch and answers for
/// all others, and the store has room, then the failed indices are exactly
/// the indices of that batch, and every chunk of every other batch is
/// completed and has its entry in the cache.
pub proof fn lemma_failure_isolation(
    m: Entries,
    limit: nat,
    ts: Seq<Seq<char>>,
    size: int,
    replies: Seq<Reply>,
    failing: int,
)
    requires
        ts.len() <= usize::MAX,
        size > 0,
        roomy(m, keys_of(ts), limit),
        replies.len() == plan_of(m, ts, size).len(),
        0 <= failing < replies.len(),
        replies[failing] is None,
        forall|k: int| 0 <= k < replies.len() && k != failing ==> (#[trigger] replies[k]) is Some,
    ensures
        ({
            let end = run_model(m, limit, ts, size, replies);
            let bs = plan_of(m, ts, size);
            let keys = keys_of(ts);
            &&& failed_of(end.jobs) == bs[failing]
            &&& forall|j: int|
                0 <= j < bs[failing].len() ==> end.jobs[(#[trigger] bs[failing][j]) as int]
                    == JobStatus::EngineFailed
            &&& forall|k: int, j: int|
                0 <= k < bs.len() && k != failing && 0 <= j < bs[k].len() ==> end.jobs[(
                #[trigger] bs[k][j]) as int] == JobStatus::Completed && end.cache.contains_key(
                    keys[bs[k][j] as int],
                )
            &&& m.submap_of(end.cache)
        }),
{
    let end = run_model(m, limit, ts, size, replies);
    let bs = plan_of(m, ts, size);
    let keys = keys_of(ts);
    let start = start_of(m, ts).jobs;
    lemma_run_outcome(m, limit, ts, size, replies);
    lemma_plan_is_plan(m, ts, size);
    lemma_select_members(start, JobStatus::Pending, JobStatus::Pending);
    lemma_batches_partition(pending_of(start), size);
    lemma_select_members(end.jobs, JobStatus::EngineFailed, JobStatus::WriteFailed);
    let failed = failed_of(end.jobs);
    let batch = bs[failing];
    assert forall|k: int, j: int|
        0 <= k < bs.len() && k != failing && 0 <= j < bs[k].len() implies end.jobs[(
    #[trigger] bs[k][j]) as int] == JobStatus::Completed && end.cache.contains_key(
        keys[bs[k][j] as int],
    ) by {
        assert(replies[k] is Some);
    }
    assert(increasing(batch)) by {
        assert forall|x: int, y: int| 0 <= x < y < batch.len() implies batch[x] < batch[y] by {
            assert(bs[failing][x] < bs[failing][y]);
        }
    }
    assert forall|x: usize| failed.contains(x) <==> batch.contains(x) by {
        if failed.contains(x) {
            let w = choose|w: int| 0 <= w < failed.len() && failed[w] == x;
            assert(failed[w] < end.jobs.len());
            assert(!m.contains_key(keys[x as int]));
            assert(in_first(bs, bs.len() as int, x as int));
            let (k, j) = choose|k: int, j: int|
                0 <= k < bs.len() && 0 <= j < bs[k].len() && #[trigger] bs[k][j] == x as int;
            if k != failing {
                assert(end.jobs[bs[k][j] as int] == JobStatus::Completed);
            }
            assert(batch[j] == x);
        }
        if batch.contains(x) {
            let j = choose|j: int| 0 <= j < batch.len() && batch[j] == x;
            assert(end.jobs[bs[failing][j] as int] == JobStatus::EngineFailed);
            assert(failed.contains(x as int as usize));
        }
    }
    lemma_increasing_same(failed, batch);
}

/// Idempotent resume. Run the orchestrator twice over the same chunks,
/// the second time from the cache that the first run left. Then the second
/// run sends to the engine only chunks that failed in the first run, none
/// that the cache holds; what was done is found cached; no entry is ever
/// lost or changed; and after both runs the cache holds what it held at
/// the start and the entries of the chunks completed in either run, and
/// nothing else. If nothing failed in the first run, the second run sends
/// nothing at all and leaves the cache as it is.
pub proof fn lemma_resume_idempotent(
    m: Entries,
    limit: nat,
    ts: Seq<Seq<char>>,
    size: int,
    r1: Seq<Reply>,
    r2: Seq<Reply>,
)
    requires
        m.dom().finite(),
        ts.len() <= usize::MAX,
        size > 0,
        r1.len() == plan_of(m, ts, size).len(),
        r2.len() == plan_of(run_model(m, limit, ts, size, r1).cache, ts, size).len(),
    ensures
        ({
            let first = run_model(m, limit, ts, size, r1);
            let second = run_model(first.cache, limit, ts, size, r2);
            let again = plan_of(first.cache, ts, size);
            let keys = keys_of(ts);
            &&& forall|k: int, j: int|
                0 <= k < again.len() && 0 <= j < again[k].len() ==> {
                    let i = (#[trigger] again[k][j]) as int;
                    &&& i < ts.len()
                    &&& !first.cache.contains_key(keys[i])
                    &&& first.jobs[i] == JobStatus::EngineFailed || first.jobs[i]
                        == JobStatus::WriteFailed
                }
            &&& forall|i: int|
                0 <= i < ts.len() && (first.jobs[i] == JobStatus::Cached || first.jobs[i]
                    == JobStatus::Completed) ==> #[trigger] second.jobs[i] == JobStatus::Cached
            &&& m.submap_of(first.cache)
            &&& first.cache.submap_of(second.cache)
            &&& forall|key: Seq<char>| #[trigger]
                second.cache.contains_key(key) <==> m.contains_key(key) || done_key(
                    first.jobs,
                    keys,
                    key,
                ) || done_key(second.jobs, keys, key)
            &&& (forall|i: int|
                0 <= i < ts.len() ==> #[trigger] first.jobs[i] != JobStatus::EngineFailed
                    && first.jobs[i] != JobStatus::WriteFailed) ==> again.len() == 0 && second.cache
                == first.cache
        }),
{
    let first = run_model(m, limit, ts, size, r1);
    let second = run_model(first.cache, limit, ts, size, r2);
    let again = plan_of(first.cache, ts, size);
    let keys = keys_of(ts);
    lemma_run_outcome(m, limit, ts, size, r1);
    lemma_run_outcome(first.cache, limit, ts, size, r2);
    lemma_plan_is_plan(first.cache, ts, size);
    assert forall|k: int, j: int| 0 <= k < again.len() && 0 <= j < again[k].len() implies {
        let i = (#[trigger] again[k][j]) as int;
        &&& i < ts.len()
        &&& !first.cache.contains_key(keys[i])
        &&& first.jobs[i] == JobStatus::EngineFailed || first.jobs[i] == JobStatus::WriteFailed
    } by {
        let i = again[k][j] as int;
        if first.jobs[i] == JobStatus::Cached {
            assert(m.contains_key(keys[i]));
            assert(first.cache.contains_key(keys[i]));
        }
    }
    assert forall|i: int|
        0 <= i < ts.len() && (first.jobs[i] == JobStatus::Cached || first.jobs[i]
            == JobStatus::Completed) implies #[trigger] second.jobs[i] == JobStatus::Cached by {
        if first.jobs[i] == JobStatus::Cached {
            assert(m.contains_key(keys[i]));
        }
        assert(first.cache.contains_key(keys[i]));
    }
    assert forall|key: Seq<char>| #[trigger]
        second.cache.contains_key(key) <==> m.contains_key(key) || done_key(first.jobs, keys, key)
            || done_key(second.jobs, keys, key) by {
        if second.cache.contains_key(key) {
            if !done_key(second.jobs, keys, key) {
                assert(first.cache.contains_key(key));
            }
        }
        if m.contains_key(key) {
            assert(first.cache.contains_key(key));
        }
        if done_key(first.jobs, keys, key) {
            let w = choose|w: int|
                0 <= w < keys.len() && w < first.jobs.len() && #[trigger] keys[w] == key
                    && first.jobs[w] == JobStatus::Completed;
            assert(first.cache.contains_key(keys[w]));
            assert(second.cache.contains_key(key));
        }
        if done_key(second.jobs, keys, key) {
            let w = choose|w: int|
                0 <= w < keys.len() && w < second.jobs.len() && #[trigger] keys[w] == key
                    && second.jobs[w] == JobStatus::Completed;
            assert(second.cache.contains_key(keys[w]));
        }
    }
    if forall|i: int|
        0 <= i < ts.len() ==> #[trigger] first.jobs[i] != JobStatus::EngineFailed && first.jobs[i]
            != JobStatus::WriteFailed {
        if again.len() > 0 {
            let start2 = start_of(first.cache, ts).jobs;
            lemma_select_members(start2, JobStatus::Pending, JobStatus::Pending);
            lemma_batches_partition(pending_of(start2), size);
            assert(again[0].len() > 0);
            let i = again[0][0] as int;
            assert(first.jobs[i] == JobStatus::EngineFailed || first.jobs[i]
                == JobStatus::WriteFailed);
        }
    }
}

/// Whether the batch `k` of the plan holds the job `i` at place `j` and was
/// answered by the engine.
pub open spec fn claims(bs: Seq<Seq<usize>>, replies: Seq<Reply>, k: int, j: int, i: int) -> bool {
    0 <= k < bs.len() && k < replies.len() && 0 <= j < bs[k].len() && bs[k][j] == i
        && replies[k] is Some
}

/// The output that the engine gave for the job `i`, if a batch that holds
/// the job was answered.
pub open spec fn answer(bs: Seq<Seq<usize>>, replies: Seq<Reply>, i: int) -> Option<Seq<char>> {
    if exists|k: int, j: int| claims(bs, replies, k, j, i) {
        let (k, j) = choose|k: int, j: int| claims(bs, replies, k, j, i);
        Some(replies[k]->0[j])
    } else {
        None
    }
}

/// Whether the engine gave the same output wherever two chunks have the
/// same key.
pub open spec fn consistent(keys: Seq<Seq<char>>, bs: Seq<Seq<usize>>, replies: Seq<Reply>) -> bool {
    forall|i: int, i2: int|
        #![trigger answer(bs, replies, i), answer(bs, replies, i2)]
        0 <= i < keys.len() && 0 <= i2 < keys.len() && keys[i] == keys[i2] && answer(
            bs,
            replies,
            i,
        ) is Some && answer(bs, replies, i2) is Some ==> answer(bs, replies, i) == answer(
            bs,
            replies,
            i2,
        )
}

/// Whether the entry of every completed job holds the output that the
/// engine gave for that job.
pub open spec fn values_ok(
    keys: Seq<Seq<char>>,
    bs: Seq<Seq<usize>>,
    replies: Seq<Reply>,
    s: RunState,
) -> bool {
    forall|i: int|
        0 <= i < keys.len() && i < s.jobs.len() && #[trigger] s.jobs[i] == JobStatus::Completed
            ==> answer(bs, replies, i) is Some && s.cache.contains_key(keys[i]) && s.cache[keys[i]]
            == encode_utf8(answer(bs, replies, i)->0)
}

/// In a plan, the output for a job is the one at its place in the reply to
/// its batch.
proof fn lemma_answer(start: Seq<JobStatus>, bs: Seq<Seq<usize>>, replies: Seq<Reply>, k: int, j: int)
    requires
        is_plan(start, bs),
        replies.len() == bs.len(),
        0 <= k < bs.len(),
        0 <= j < bs[k].len(),
    ensures
        answer(bs, replies, bs[k][j] as int) == if replies[k] is Some {
            Some(replies[k]->0[j])
        } else {
            None
        },
{
    let i = bs[k][j] as int;
    if exists|k2: int, j2: int| claims(bs, replies, k2, j2, i) {
        let (k2, j2) = choose|k2: int, j2: int| claims(bs, replies, k2, j2, i);
        if k != k2 || j != j2 {
            assert(bs[k][j] != bs[k2][j2]);
        }
    } else {
        if replies[k] is Some {
            assert(claims(bs, replies, k, j, i));
        }
    }
}

proof fn lemma_values_written_all(
    m: Entries,
    keys: Seq<Seq<char>>,
    limit: nat,
    start: Seq<JobStatus>,
    bs: Seq<Seq<usize>>,
    replies: Seq<Reply>,
    b: int,
    s: RunState,
    j: int,
)
    requires
        is_plan(start, bs),
        replies.len() == bs.len(),
        0 <= b < bs.len(),
        replies[b] is Some,
        0 <= j <= bs[b].len(),
        cache_ok(m, keys, s),
        values_ok(keys, bs, replies, s),
        consistent(keys, bs, replies),
        start.len() == keys.len(),
        forall|i: int|
            0 <= i < keys.len() && #[trigger] start[i] == JobStatus::Pending ==> !m.contains_key(
                keys[i],
            ),
    ensures
        values_ok(keys, bs, replies, written_all(s, limit, keys, bs[b], replies[b]->0, j)),
        cache_ok(m, keys, written_all(s, limit, keys, bs[b], replies[b]->0, j)),
    decreases j,
{
    let batch = bs[b];
    let outs = replies[b]->0;
    lemma_written_all(m, keys, limit, s, batch, outs, j);
    if j > 0 {
        let u = written_all(s, limit, keys, batch, outs, j - 1);
        let t = written_all(s, limit, keys, batch, outs, j);
        lemma_values_written_all(m, keys, limit, start, bs, replies, b, s, j - 1);
        let i = batch[j - 1] as int;
        lemma_written(m, keys, limit, u, i, outs[j - 1]);
        lemma_answer(start, bs, replies, b, j - 1);
        assert(bs[b][j - 1] == i);
        assert(start[i] == JobStatus::Pending);
        assert forall|x: int|
            0 <= x < keys.len() && x < t.jobs.len() && #[trigger] t.jobs[x]
                == JobStatus::Completed implies answer(bs, replies, x) is Some
            && t.cache.contains_key(keys[x]) && t.cache[keys[x]] == encode_utf8(
            answer(bs, replies, x)->0,
        ) by {
            if x != i {
                assert(u.jobs[x] == JobStatus::Completed);
                assert(u.cache.contains_key(keys[x]));
                assert(t.cache[keys[x]] == u.cache[keys[x]]);
            } else if u.jobs[i] == JobStatus::Completed {
                assert(t.cache[keys[x]] == u.cache[keys[x]]);
            } else {
                assert(u.jobs[i] == JobStatus::Submitted);
                if u.cache.contains_key(keys[i]) {
                    assert(done_key(u.jobs, keys, keys[i]));
                    let w = choose|w: int|
                        0 <= w < keys.len() && w < u.jobs.len() && #[trigger] keys[w] == keys[i]
                            && u.jobs[w] == JobStatus::Completed;
                    assert(answer(bs, replies, w) is Some);
                    assert(answer(bs, replies, w) == answer(bs, replies, i));
                }
            }
        }
    }
}

proof fn lemma_values_ran(
    m: Entries,
    keys: Seq<Seq<char>>,
    limit: nat,
    start: RunState,
    bs: Seq<Seq<usize>>,
    replies: Seq<Reply>,
    b: int,
)
    requires
        is_plan(start.jobs, bs),
        0 <= b <= bs.len(),
        replies.len() == bs.len(),
        start.cache == m,
        m.dom().finite(),
        start.jobs.len() == keys.len(),
        consistent(keys, bs, replies),
        forall|i: int|
            0 <= i < start.jobs.len() ==> #[trigger] start.jobs[i] == JobStatus::Pending
                || start.jobs[i] == JobStatus::Cached,
        forall|i: int|
            0 <= i < keys.len() && #[trigger] start.jobs[i] == JobStatus::Pending
                ==> !m.contains_key(keys[i]),
    ensures
        values_ok(keys, bs, replies, ran(start, limit, keys, bs, replies, b)),
    decreases b,
{
    lemma_ran(m, keys, limit, start, bs, replies, b);
    if b > 0 {
        lemma_values_ran(m, keys, limit, start, bs, replies, b - 1);
        lemma_ran(m, keys, limit, start, bs, replies, b - 1);
        let s = ran(start, limit, keys, bs, replies, b - 1);
        let batch = bs[b - 1];
        let sub = RunState {
            cache: s.cache,
            jobs: marked(s.jobs, batch, JobStatus::Pending, JobStatus::Submitted),
        };
        let t = stepped(s, limit, keys, batch, replies[b - 1]);
        assert(values_ok(keys, bs, replies, sub)) by {
            assert forall|i: int|
                0 <= i < keys.len() && i < sub.jobs.len() && #[trigger] sub.jobs[i]
                    == JobStatus::Completed implies answer(bs, replies, i) is Some
                && sub.cache.contains_key(keys[i]) && sub.cache[keys[i]] == encode_utf8(
                answer(bs, replies, i)->0,
            ) by {
                assert(s.jobs[i] == JobStatus::Completed);
            }
        }
        assert(cache_ok(m, keys, sub)) by {
            assert forall|i: int|
                0 <= i < keys.len() && sub.jobs[i] == JobStatus::Completed implies sub.cache.contains_key(
                #[trigger] keys[i],
            ) by {
                assert(s.jobs[i] == JobStatus::Completed);
            }
            assert forall|key: Seq<char>| #[trigger]
                sub.cache.contains_key(key) implies m.contains_key(key) || done_key(
                sub.jobs,
                keys,
                key,
            ) by {
                if !m.contains_key(key) {
                    let w = choose|w: int|
                        0 <= w < keys.len() && w < s.jobs.len() && #[trigger] keys[w] == key
                            && s.jobs[w] == JobStatus::Completed;
                    assert(keys[w] == key && sub.jobs[w] == JobStatus::Completed);
                }
            }
        }
        match replies[b - 1] {
            None => {
                assert forall|i: int|
                    0 <= i < keys.len() && i < t.jobs.len() && #[trigger] t.jobs[i]
                        == JobStatus::Completed implies answer(bs, replies, i) is Some
                    && t.cache.contains_key(keys[i]) && t.cache[keys[i]] == encode_utf8(
                    answer(bs, replies, i)->0,
                ) by {
                    assert(sub.jobs[i] == JobStatus::Completed);
                }
            },
            Some(outs) => {
                lemma_values_written_all(
                    m,
                    keys,
                    limit,
                    start.jobs,
                    bs,
                    replies,
                    b - 1,
                    sub,
                    batch.len() as int,
                );
            },
        }
    }
}

/// What the cache holds when a run over any plan ends, if the store has
/// room and the engine was consistent: what it held at the start, and
/// under the key of every answered chunk the output for that chunk.
/// Nothing in this depends on the order of the batches.
pub proof fn lemma_cache_determined(
    m: Entries,
    limit: nat,
    ts: Seq<Seq<char>>,
    bs: Seq<Seq<usize>>,
    replies: Seq<Reply>,
)
    requires
        roomy(m, keys_of(ts), limit),
        is_plan(start_of(m, ts).jobs, bs),
        replies.len() == bs.len(),
        consistent(keys_of(ts), bs, replies),
    ensures
        ({
            let end = ran(start_of(m, ts), limit, keys_of(ts), bs, replies, bs.len() as int);
            let keys = keys_of(ts);
            &&& m.submap_of(end.cache)
            &&& forall|i: int|
                0 <= i < ts.len() && (#[trigger] answer(bs, replies, i)) is Some
                    ==> end.cache.contains_key(keys[i]) && (m.contains_key(keys[i])
                    || end.cache[keys[i]] == encode_utf8(answer(bs, replies, i)->0))
            &&& forall|key: Seq<char>| #[trigger]
                end.cache.contains_key(key) ==> m.contains_key(key) || exists|i: int|
                    0 <= i < ts.len() && #[trigger] keys[i] == key && answer(bs, replies, i) is Some
        }),
{
    let start = start_of(m, ts);
    let keys = keys_of(ts);
    let end = ran(start, limit, keys, bs, replies, bs.len() as int);
    lemma_ran(m, keys, limit, start, bs, replies, bs.len() as int);
    lemma_values_ran(m, keys, limit, start, bs, replies, bs.len() as int);
    assert forall|i: int| 0 <= i < ts.len() && (#[trigger] answer(bs, replies, i)) is Some implies end.cache.contains_key(
        keys[i],
    ) && (m.contains_key(keys[i]) || end.cache[keys[i]] == encode_utf8(
        answer(bs, replies, i)->0,
    )) by {
        let (k, j) = choose|k: int, j: int| claims(bs, replies, k, j, i);
        assert(bs[k][j] == i);
        assert(end.jobs[bs[k][j] as int] == JobStatus::Completed);
    }
    assert forall|key: Seq<char>| #[trigger] end.cache.contains_key(key) implies m.contains_key(
        key,
    ) || exists|i: int|
        0 <= i < ts.len() && #[trigger] keys[i] == key && answer(bs, replies, i) is Some by {
        if !m.contains_key(key) {
            assert(done_key(end.jobs, keys, key));
            let w = choose|w: int|
                0 <= w < keys.len() && w < end.jobs.len() && #[trigger] keys[w] == key
                    && end.jobs[w] == JobStatus::Completed;
            assert(answer(bs, replies, w) is Some);
        }
    }
}

/// Order preservation. Let two runs start from the same cache and work
/// through the same jobs in plans of their own, so in any order of
/// batches, and let the engine give each job the same output in both, and
/// equal outputs to chunks with equal text. If the store has room, both
/// runs leave the same cache, and so the merger gives the same result
/// after either.
pub proof fn lemma_order_preserved(
    m: Entries,
    limit: nat,
    ts: Seq<Seq<char>>,
    plan_a: Seq<Seq<usize>>,
    replies_a: Seq<Reply>,
    plan_b: Seq<Seq<usize>>,
    replies_b: Seq<Reply>,
    joiner: Seq<char>,
    strict: bool,
)
    requires
        roomy(m, keys_of(ts), limit),
        is_plan(start_of(m, ts).jobs, plan_a),
        is_plan(start_of(m, ts).jobs, plan_b),
        replies_a.len() == plan_a.len(),
        replies_b.len() == plan_b.len(),
        forall|i: int|
            0 <= i < ts.len() ==> #[trigger] answer(plan_a, replies_a, i) == answer(
                plan_b,
                replies_b,
                i,
            ),
        consistent(keys_of(ts), plan_a, replies_a),
    ensures
        ({
            let end_a = ran(
                start_of(m, ts),
                limit,
                keys_of(ts),
                plan_a,
                replies_a,
                plan_a.len() as int,
            );
            let end_b = ran(
                start_of(m, ts),
                limit,
                keys_of(ts),
                plan_b,
                replies_b,
                plan_b.len() as int,
            );
            &&& end_a.cache == end_b.cache
            &&& merged(end_a.cache, keys_of(ts), joiner, strict) == merged(
                end_b.cache,
                keys_of(ts),
                joiner,
                strict,
            )
        }),
{
    let keys = keys_of(ts);
    let start = start_of(m, ts);
    let end_a = ran(start, limit, keys, plan_a, replies_a, plan_a.len() as int);
    let end_b = ran(start, limit, keys, plan_b, replies_b, plan_b.len() as int);
    assert(consistent(keys, plan_b, replies_b)) by {
        assert forall|i: int, i2: int|
            #![trigger answer(plan_b, replies_b, i), answer(plan_b, replies_b, i2)]
            0 <= i < keys.len() && 0 <= i2 < keys.len() && keys[i] == keys[i2] && answer(
                plan_b,
                replies_b,
                i,
            ) is Some && answer(plan_b, replies_b, i2) is Some implies answer(
            plan_b,
            replies_b,
            i,
        ) == answer(plan_b, replies_b, i2) by {
            assert(answer(plan_a, replies_a, i) == answer(plan_b, replies_b, i));
            assert(answer(plan_a, replies_a, i2) == answer(plan_b, replies_b, i2));
        }
    }
    lemma_cache_determined(m, limit, ts, plan_a, replies_a);
    lemma_cache_determined(m, limit, ts, plan_b, replies_b);
    assert forall|key: Seq<char>| end_a.cache.contains_key(key) <==> end_b.cache.contains_key(
        key,
    ) by {
        if end_a.cache.contains_key(key) && !m.contains_key(key) {
            let i = choose|i: int|
                0 <= i < ts.len() && #[trigger] keys[i] == key && answer(plan_a, replies_a, i)
                    is Some;
            assert(answer(plan_b, replies_b, i) is Some);
        }
        if end_b.cache.contains_key(key) && !m.contains_key(key) {
            let i = choose|i: int|
                0 <= i < ts.len() && #[trigger] keys[i] == key && answer(plan_b, replies_b, i)
                    is Some;
            assert(answer(plan_a, replies_a, i) is Some);
        }
    }
    assert forall|key: Seq<char>| end_a.cache.contains_key(key) implies end_a.cache[key]
        == end_b.cache[key] by {
        if m.contains_key(key) {
            assert(end_a.cache[key] == m[key]);
            assert(end_b.cache[key] == m[key]);
        } else {
            let i = choose|i: int|
                0 <= i < ts.len() && #[trigger] keys[i] == key && answer(plan_a, replies_a, i)
                    is Some;
            assert(answer(plan_b, replies_b, i) is Some);
        }
    }
    assert(end_a.cache =~= end_b.cache);
}

/// Whether no two different texts of `ts` have the same key.
pub open spec fn collision_free(ts: Seq<Seq<char>>) -> bool {
    forall|i: int, j: int|
        #![trigger ts[i], ts[j]]
        0 <= i < ts.len() && 0 <= j < ts.len() && key_of(ts[i]) == key_of(ts[j]) ==> ts[i] == ts[j]
}

/// Lines that are each closed by a line feed are the same lines joined by
/// line feeds, with one more line feed at the end.
pub proof fn lemma_rendered_joined(lines: Seq<Seq<char>>)
    ensures
        rendered(lines) == if lines.len() > 0 {
            joined(lines, line_feed()).push('\n')
        } else {
            Seq::<char>::empty()
        },
    decreases lines.len(),
{
    if lines.len() == 1 {
        assert(rendered(lines.drop_last()) =~= Seq::<char>::empty());
        assert(rendered(lines) =~= lines[0].push('\n'));
    } else if lines.len() > 1 {
        lemma_rendered_joined(lines.drop_last());
        let front = joined(lines.drop_last(), line_feed());
        assert(front.push('\n') + lines.last().push('\n') =~= (front + line_feed()
            + lines.last()).push('\n'));
    }
}

/// The built-in engine through an empty store with room: every chunk is
/// completed, the cache gives each chunk its own text back, and the
/// document comes out as its chunk texts, one per line. This takes that no
/// two different chunk texts share a key.
pub proof fn lemma_echo_through_empty_cache(ts: Seq<Seq<char>>, limit: nat)
    requires
        ts.len() <= usize::MAX,
        ts.len() <= limit,
        collision_free(ts),
    ensures
        ({
            let m = Entries::empty();
            let end = run_model(m, limit, ts, 1, echo_replies(ts, plan_of(m, ts, 1)));
            let merge = merged(end.cache, keys_of(ts), line_feed(), true);
            &&& forall|i: int|
                0 <= i < ts.len() ==> #[trigger] end.jobs[i] == JobStatus::Completed && lookup(
                    end.cache,
                    keys_of(ts)[i],
                ) == Ok::<Option<Seq<char>>, CacheError>(Some(ts[i]))
            &&& merge == Ok::<Seq<char>, MergeError>(joined(ts, line_feed()))
            &&& document_output(merge, ts.len()) == Ok::<Seq<char>, TranslateError>(rendered(ts))
        }),
{
    let m = Entries::empty();
    let bs = plan_of(m, ts, 1);
    let replies = echo_replies(ts, bs);
    let keys = keys_of(ts);
    let start = start_of(m, ts);
    let end = run_model(m, limit, ts, 1, replies);
    lemma_plan_is_plan(m, ts, 1);
    assert(roomy(m, keys, limit));
    assert forall|i: int| 0 <= i < ts.len() implies #[trigger] answer(bs, replies, i) == Some(
        ts[i],
    ) by {
        assert(!m.contains_key(keys[i]));
        assert(in_first(bs, bs.len() as int, i));
        let (k, j) = choose|k: int, j: int|
            0 <= k < bs.len() && 0 <= j < bs[k].len() && #[trigger] bs[k][j] == i;
        lemma_answer(start.jobs, bs, replies, k, j);
        assert(replies[k] == Some(inputs_of(ts, bs[k])));
        assert(inputs_of(ts, bs[k])[j] == ts[bs[k][j] as int]);
    }
    assert(consistent(keys, bs, replies)) by {
        assert forall|i: int, i2: int|
            #![trigger answer(bs, replies, i), answer(bs, replies, i2)]
            0 <= i < keys.len() && 0 <= i2 < keys.len() && keys[i] == keys[i2] && answer(
                bs,
                replies,
                i,
            ) is Some && answer(bs, replies, i2) is Some implies answer(bs, replies, i) == answer(
            bs,
            replies,
            i2,
        ) by {
            assert(answer(bs, replies, i) == Some(ts[i]));
            assert(answer(bs, replies, i2) == Some(ts[i2]));
            assert(ts[i] == ts[i2]);
        }
    }
    lemma_cache_determined(m, limit, ts, bs, replies);
    lemma_run_outcome(m, limit, ts, 1, replies);
    assert forall|i: int| 0 <= i < ts.len() implies #[trigger] end.jobs[i] == JobStatus::Completed
        && lookup(end.cache, keys[i]) == Ok::<Option<Seq<char>>, CacheError>(Some(ts[i])) by {
        assert(answer(bs, replies, i) == Some(ts[i]));
        encode_utf8_valid_utf8(ts[i]);
        encode_utf8_decode_utf8(ts[i]);
        assert(!m.contains_key(keys[i]));
        assert(in_first(bs, bs.len() as int, i));
        let (k, j) = choose|k: int, j: int|
            0 <= k < bs.len() && 0 <= j < bs[k].len() && #[trigger] bs[k][j] == i;
        assert(replies[k] is Some);
        assert(end.jobs[bs[k][j] as int] == JobStatus::Completed);
    }
    let parts = parts_of(end.cache, keys);
    assert forall|i: int| 0 <= i < parts.len() implies #[trigger] parts[i] == Some(ts[i]) by {
        assert(end.jobs[i] == JobStatus::Completed);
    }
    lemma_first_gap(parts);
    assert(first_gap(parts) == parts.len()) by {
        if first_gap(parts) < parts.len() {
            assert(parts[first_gap(parts)] == Some(ts[first_gap(parts)]));
        }
    }
    assert(filled(parts) =~= ts);
    lemma_rendered_joined(ts);
}

} // verus!
