//! Grouping of sentences into bounded, optionally overlapping windows.

use crate::config::ConfigError;
use crate::text::{join_range, joined, texts};
use vstd::prelude::*;

verus! {

/// A window of consecutive sentences, joined into one text.
#[derive(Debug, Clone, PartialEq, Eq)]
pub struct Chunk {
    /// Position of the chunk in the sequence of chunks, from zero.
    pub index: usize,
    /// The sentences of the window, joined by single spaces.
    pub text: String,
    /// Index of the first sentence of the window.
    pub start: usize,
    /// Index one past the last sentence of the window.
    pub end: usize,
}

/// The separator between the sentences of a chunk.
pub open spec fn space() -> Seq<char> {
    seq![' ']
}

/// The windows over `n` sentences that begin with the one starting at
/// `start`: each is `m` sentences wide and starts `m - o` after the one
/// before; the first that would reach the end is clipped to it and is the
/// last.
pub open spec fn windows_from(start: int, n: int, m: int, o: int) -> Seq<(int, int)>
    decreases n - start,
{
    if 0 <= o < m && start + m < n {
        seq![(start, start + m)] + windows_from(start + (m - o), n, m, o)
    } else {
        seq![(start, n)]
    }
}

/// The windows over `n` sentences for chunk size `m` and overlap `o`, as
/// pairs of first index and index past the last.
pub open spec fn windows(n: int, m: int, o: int) -> Seq<(int, int)> {
    windows_from(0, n, m, o)
}

/// Whether `c` is the chunk number `k`, spanning the window `w` of the
/// sentences `s`.
pub open spec fn chunk_at(c: Chunk, k: int, w: (int, int), s: Seq<Seq<char>>) -> bool {
    &&& c.index == k
    &&& c.start == w.0
    &&& c.end == w.1
    &&& c.text@ == joined(s.subrange(w.0, w.1), space())
}

/// Whether `chunks` is the chunking of the sentences `s` for chunk size `m`
/// and overlap `o`: one chunk per window, in order.
pub open spec fn is_chunking(chunks: Seq<Chunk>, s: Seq<Seq<char>>, m: int, o: int) -> bool {
    let w = windows(s.len() as int, m, o);
    &&& chunks.len() == w.len()
    &&& forall|k: int| 0 <= k < chunks.len() ==> chunk_at(#[trigger] chunks[k], k, w[k], s)
}

/// The texts of the chunks of the sentences `s` for chunk size `m` and
/// overlap `o`, by chunk index.
pub open spec fn window_texts(s: Seq<Seq<char>>, m: int, o: int) -> Seq<Seq<char>> {
    windows(s.len() as int, m, o).map_values(
        |w: (int, int)| joined(s.subrange(w.0, w.1), space()),
    )
}

/// Whether sentence `j` lies in the range of at least one of `chunks`.
pub open spec fn covers(chunks: Seq<Chunk>, j: int) -> bool {
    exists|k: int| 0 <= k < chunks.len() && (#[trigger] chunks[k]).start <= j < chunks[k].end
}

proof fn lemma_windows_from_at(start: int, n: int, m: int, o: int, k: int)
    requires
        0 <= o < m,
        0 <= start <= n,
        0 <= k < windows_from(start, n, m, o).len(),
    ensures
        windows_from(start, n, m, o)[k].0 == start + k * (m - o),
        windows_from(start, n, m, o)[k].1 == if start + k * (m - o) + m < n {
            start + k * (m - o) + m
        } else {
            n
        },
        (k < windows_from(start, n, m, o).len() - 1) == (start + k * (m - o) + m < n),
        start + k * (m - o) <= n,
    decreases n - start,
{
    let all = windows_from(start, n, m, o);
    if start + m < n {
        let rest = windows_from(start + (m - o), n, m, o);
        assert(all == seq![(start, start + m)] + rest);
        if k > 0 {
            lemma_windows_from_at(start + (m - o), n, m, o, k - 1);
            assert(all[k] == rest[k - 1]);
            assert(start + (m - o) + (k - 1) * (m - o) == start + k * (m - o)) by (nonlinear_arith);
        } else {
            assert(start + 0 * (m - o) == start) by (nonlinear_arith);
        }
    } else {
        assert(start + 0 * (m - o) == start) by (nonlinear_arith);
    }
}

/// The windows in closed form: window `k` starts at `k * (m - o)` and ends
/// `m` later or at `n`, whichever comes first; exactly the last window
/// reaches `n`; no window is wider than `m`.
pub proof fn lemma_window_at(n: int, m: int, o: int, k: int)
    requires
        0 <= o < m,
        0 <= n,
        0 <= k < windows(n, m, o).len(),
    ensures
        windows(n, m, o)[k].0 == k * (m - o),
        windows(n, m, o)[k].1 == if k * (m - o) + m < n {
            k * (m - o) + m
        } else {
            n
        },
        (k < windows(n, m, o).len() - 1) == (k * (m - o) + m < n),
        0 <= windows(n, m, o)[k].0 <= windows(n, m, o)[k].1 <= n,
        windows(n, m, o)[k].1 - windows(n, m, o)[k].0 <= m,
{
    lemma_windows_from_at(0, n, m, o, k);
    assert(0 <= k * (m - o)) by (nonlinear_arith)
        requires
            0 <= k,
            0 < m - o,
    ;
}

proof fn lemma_windows_from_cover(start: int, n: int, m: int, o: int, j: int)
    requires
        0 <= o < m,
        0 <= start <= j < n,
    ensures
        exists|k: int|
            0 <= k < windows_from(start, n, m, o).len() && (#[trigger] windows_from(
                start,
                n,
                m,
                o,
            )[k]).0 <= j < windows_from(start, n, m, o)[k].1,
    decreases n - start,
{
    let all = windows_from(start, n, m, o);
    if start + m < n {
        let rest = windows_from(start + (m - o), n, m, o);
        assert(all == seq![(start, start + m)] + rest);
        if j < start + m {
            assert(all[0].0 <= j < all[0].1);
        } else {
            lemma_windows_from_cover(start + (m - o), n, m, o, j);
            let k = choose|k: int| 0 <= k < rest.len() && (#[trigger] rest[k]).0 <= j < rest[k].1;
            assert(all[k + 1] == rest[k]);
            assert(all[k + 1].0 <= j < all[k + 1].1);
        }
    } else {
        assert(all[0].0 <= j < all[0].1);
    }
}

/// Coverage: for every valid chunk size and overlap, every sentence index
/// lies in at least one window.
pub proof fn lemma_windows_cover(n: int, m: int, o: int, j: int)
    requires
        0 <= o < m,
        0 <= j < n,
    ensures
        exists|k: int|
            0 <= k < windows(n, m, o).len() && (#[trigger] windows(n, m, o)[k]).0 <= j < windows(
                n,
                m,
                o,
            )[k].1,
{
    lemma_windows_from_cover(0, n, m, o, j);
    let w = windows_from(0, n, m, o);
    let k = choose|k: int| 0 <= k < w.len() && (#[trigger] w[k]).0 <= j < w[k].1;
    assert(windows(n, m, o)[k].0 <= j < windows(n, m, o)[k].1);
}

/// Coverage, stated of the chunks: in a chunking of `s`, the chunk indices
/// are `0, 1, 2, ...` without gaps, no chunk holds more than `m` sentences,
/// and every sentence of `s` lies in the range of at least one chunk.
pub proof fn lemma_chunks_cover(chunks: Seq<Chunk>, s: Seq<Seq<char>>, m: int, o: int)
    requires
        0 <= o < m,
        is_chunking(chunks, s, m, o),
    ensures
        chunks.len() >= 1,
        forall|k: int| 0 <= k < chunks.len() ==> (#[trigger] chunks[k]).index == k,
        forall|k: int|
            0 <= k < chunks.len() ==> (#[trigger] chunks[k]).start <= chunks[k].end <= s.len()
                && chunks[k].end - chunks[k].start <= m,
        forall|j: int| 0 <= j < s.len() ==> #[trigger] covers(chunks, j),
{
    let n = s.len() as int;
    let w = windows(n, m, o);
    assert forall|k: int| 0 <= k < chunks.len() implies (#[trigger] chunks[k]).start
        <= chunks[k].end <= s.len() && chunks[k].end - chunks[k].start <= m by {
        lemma_window_at(n, m, o, k);
        assert(chunk_at(chunks[k], k, w[k], s));
    }
    assert forall|j: int| 0 <= j < s.len() implies #[trigger] covers(chunks, j) by {
        lemma_windows_cover(n, m, o, j);
        let k = choose|k: int| 0 <= k < w.len() && (#[trigger] w[k]).0 <= j < w[k].1;
        assert(chunk_at(chunks[k], k, w[k], s));
        assert(chunks[k].start <= j < chunks[k].end);
    }
}

fn make_chunk(sentences: &Vec<String>, index: usize, start: usize, end: usize) -> (c: Chunk)
    requires
        start <= end <= sentences.len(),
    ensures
        chunk_at(c, index as int, (start as int, end as int), texts(sentences@)),
{
    let text = join_range(sentences, start, end, " ");
    proof {
        reveal_strlit(" ");
        assert(" "@ =~= space());
    }
    Chunk { index, text, start, end }
}

/// Groups sentences into chunks of at most `max_size` sentences, each
/// starting `max_size - overlap` sentences after the one before. A sequence
/// no longer than `max_size` gives a single chunk; the last chunk always
/// ends with the last sentence. An overlap that is not below `max_size` is
/// rejected before any chunk is made.
pub fn chunk(sentences: &Vec<String>, max_size: usize, overlap: usize) -> (r: Result<
    Vec<Chunk>,
    ConfigError,
>)
    ensures
        r is Err <==> overlap >= max_size,
        r is Err ==> r == Err::<Vec<Chunk>, ConfigError>(ConfigError::OverlapNotBelowMax),
        r matches Ok(chunks) ==> is_chunking(
            chunks@,
            texts(sentences@),
            max_size as int,
            overlap as int,
        ),
{
    if overlap >= max_size {
        return Err(ConfigError::OverlapNotBelowMax);
    }
    let n = sentences.len();
    let stride = max_size - overlap;
    let mut out: Vec<Chunk> = Vec::new();
    let mut start: usize = 0;
    let ghost s = texts(sentences@);
    let ghost mut done: Seq<(int, int)> = Seq::empty();
    assert(done + windows_from(0, n as int, max_size as int, overlap as int) =~= windows(
        n as int,
        max_size as int,
        overlap as int,
    ));
    while n - start > max_size
        invariant
            overlap < max_size,
            stride == max_size - overlap,
            n == sentences.len(),
            s == texts(sentences@),
            start <= n,
            out.len() == done.len(),
            windows(n as int, max_size as int, overlap as int) == done + windows_from(
                start as int,
                n as int,
                max_size as int,
                overlap as int,
            ),
            forall|k: int| 0 <= k < out.len() ==> chunk_at(#[trigger] out[k], k, done[k], s),
        decreases n - start,
    {
        let end = start + max_size;
        let c = make_chunk(sentences, out.len(), start, end);
        out.push(c);
        proof {
            let rest = windows_from(
                start + stride,
                n as int,
                max_size as int,
                overlap as int,
            );
            assert(done + (seq![(start as int, end as int)] + rest) =~= done.push(
                (start as int, end as int),
            ) + rest);
            done = done.push((start as int, end as int));
        }
        start += stride;
    }
    let c = make_chunk(sentences, out.len(), start, n);
    out.push(c);
    proof {
        assert(done + seq![(start as int, n as int)] =~= done.push((start as int, n as int)));
        done = done.push((start as int, n as int));
    }
    Ok(out)
}

} // verus!
