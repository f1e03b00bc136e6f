//! Paragraph extraction: blocks separated by blank lines, each trimmed and
//! unwrapped onto a single line.

use crate::text::{
    from_chars_unwrapped, is_space, keep_nonempty, lemma_trimmed_shape, lemma_unwrapped_shape,
    texts, to_chars, trim_range, trimmed, unwrapped,
};
use vstd::prelude::*;

verus! {

/// Whether a blank-line separator (two line feeds) starts at position `i`.
pub open spec fn is_break(t: Seq<char>, i: int) -> bool {
    0 <= i && i + 1 < t.len() && t[i] == '\n' && t[i + 1] == '\n'
}

/// The paragraph that a raw block stands for: trimmed, with the line feeds
/// that remain inside replaced by spaces.
pub open spec fn paragraph_of(block: Seq<char>) -> Seq<char> {
    unwrapped(trimmed(block))
}

/// The paragraphs of `t[start..]`, where the scan for the next separator
/// resumes at `i`.
pub open spec fn paragraphs_from(t: Seq<char>, start: int, i: int) -> Seq<Seq<char>>
    recommends
        0 <= start <= i,
    decreases t.len() - i,
{
    if i >= t.len() {
        keep_nonempty(paragraph_of(t.subrange(start, t.len() as int)))
    } else if is_break(t, i) {
        keep_nonempty(paragraph_of(t.subrange(start, i))) + paragraphs_from(t, i + 2, i + 2)
    } else {
        paragraphs_from(t, start, i + 1)
    }
}

/// The paragraphs of a text: its blocks between blank-line separators,
/// taken left to right, each as `paragraph_of` gives it, the empty ones
/// left out.
pub open spec fn paragraphs(t: Seq<char>) -> Seq<Seq<char>> {
    paragraphs_from(t, 0, 0)
}

/// What holds of every paragraph: it is not empty, it holds no line feed,
/// and it neither starts nor ends with whitespace.
pub open spec fn is_paragraph(p: Seq<char>) -> bool {
    &&& p.len() > 0
    &&& !is_space(p.first())
    &&& !is_space(p.last())
    &&& forall|j: int| 0 <= j < p.len() ==> #[trigger] p[j] != '\n'
}

proof fn lemma_paragraph_of_shape(block: Seq<char>)
    ensures
        paragraph_of(block).len() > 0 ==> is_paragraph(paragraph_of(block)),
{
    let t = trimmed(block);
    lemma_trimmed_shape(block);
    lemma_unwrapped_shape(t);
    if t.len() > 0 {
        assert(t.first() != '\n');
        assert(t.last() != '\n');
        assert(unwrapped(t)[0] == t[0]);
        assert(unwrapped(t)[t.len() - 1] == t[t.len() - 1]);
    }
}

proof fn lemma_paragraphs_from_shape(t: Seq<char>, start: int, i: int)
    requires
        0 <= start <= i,
    ensures
        forall|k: int|
            0 <= k < paragraphs_from(t, start, i).len() ==> is_paragraph(
                #[trigger] paragraphs_from(t, start, i)[k],
            ),
    decreases t.len() - i,
{
    let all = paragraphs_from(t, start, i);
    if i >= t.len() {
        lemma_paragraph_of_shape(t.subrange(start, t.len() as int));
        assert(forall|k: int| 0 <= k < all.len() ==> is_paragraph(#[trigger] all[k]));
    } else if is_break(t, i) {
        lemma_paragraph_of_shape(t.subrange(start, i));
        lemma_paragraphs_from_shape(t, i + 2, i + 2);
        let head = keep_nonempty(paragraph_of(t.subrange(start, i)));
        let rest = paragraphs_from(t, i + 2, i + 2);
        assert(all == head + rest);
        assert forall|k: int| 0 <= k < all.len() implies is_paragraph(#[trigger] all[k]) by {
            if k >= head.len() {
                assert(all[k] == rest[k - head.len()]);
            }
        }
    } else {
        lemma_paragraphs_from_shape(t, start, i + 1);
        assert(all == paragraphs_from(t, start, i + 1));
        assert(forall|k: int| 0 <= k < all.len() ==> is_paragraph(#[trigger] all[k]));
    }
}

/// Every paragraph of every text is non-empty, free of line feeds, and
/// trimmed.
pub proof fn lemma_paragraphs_shape(t: Seq<char>)
    ensures
        forall|k: int| 0 <= k < paragraphs(t).len() ==> is_paragraph(#[trigger] paragraphs(t)[k]),
{
    lemma_paragraphs_from_shape(t, 0, 0);
}

/// A text without a blank line is at most one paragraph: the whole text,
/// trimmed and unwrapped.
pub proof fn lemma_single_block(t: Seq<char>)
    requires
        forall|i: int| !is_break(t, i),
    ensures
        paragraphs(t) == keep_nonempty(paragraph_of(t)),
{
    lemma_single_block_from(t, 0);
    assert(t.subrange(0, t.len() as int) =~= t);
}

proof fn lemma_single_block_from(t: Seq<char>, i: int)
    requires
        0 <= i,
        forall|j: int| !is_break(t, j),
    ensures
        paragraphs_from(t, 0, i) == keep_nonempty(paragraph_of(t.subrange(0, t.len() as int))),
    decreases t.len() - i,
{
    if i < t.len() {
        lemma_single_block_from(t, i + 1);
    }
}

fn push_paragraph(v: &Vec<char>, from: usize, to: usize, out: &mut Vec<String>)
    requires
        from <= to <= v.len(),
    ensures
        texts(final(out)@) == texts(old(out)@) + keep_nonempty(
            paragraph_of(v@.subrange(from as int, to as int)),
        ),
{
    let (a, b) = trim_range(v, from, to);
    if a < b {
        let s = from_chars_unwrapped(v, a, b);
        let ghost before = out@;
        out.push(s);
        assert(texts(out@) =~= texts(before) + seq![s@]);
    } else {
        assert(texts(out@) =~= texts(out@) + Seq::<Seq<char>>::empty());
    }
}

/// Splits a text into paragraphs at blank lines. Each paragraph is trimmed,
/// its inner line feeds become spaces, and empty ones are dropped; the
/// order is that of the text.
pub fn clean_text(raw: &str) -> (out: Vec<String>)
    ensures
        texts(out@) == paragraphs(raw@),
        forall|k: int| 0 <= k < out.len() ==> is_paragraph(#[trigger] out[k]@),
{
    let v = to_chars(raw);
    let n = v.len();
    let mut out: Vec<String> = Vec::new();
    let mut start: usize = 0;
    let mut i: usize = 0;
    assert(texts(out@) + paragraphs_from(v@, 0, 0) =~= paragraphs(raw@));
    while i < n
        invariant
            start <= i <= n,
            n == v.len(),
            v@ == raw@,
            paragraphs(raw@) == texts(out@) + paragraphs_from(v@, start as int, i as int),
        decreases n - i,
    {
        if v[i] == '\n' && i + 1 < n && v[i + 1] == '\n' {
            let ghost before = texts(out@);
            push_paragraph(&v, start, i, &mut out);
            assert(before + (keep_nonempty(paragraph_of(v@.subrange(start as int, i as int)))
                + paragraphs_from(v@, i + 2, i + 2)) =~= texts(out@) + paragraphs_from(
                v@,
                i + 2,
                i + 2,
            ));
            i += 2;
            start = i;
        } else {
            i += 1;
        }
    }
    push_paragraph(&v, start, n, &mut out);
    proof {
        lemma_paragraphs_shape(raw@);
        assert forall|k: int| 0 <= k < out.len() implies is_paragraph(#[trigger] out[k]@) by {
            assert(out[k]@ == texts(out@)[k]);
        }
    }
    out
}

} // verus!
