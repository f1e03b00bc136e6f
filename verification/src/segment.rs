//! Segmentation of a document into paragraphs and of a paragraph into
//! sentences.

use crate::cleanup::{clean_text, is_paragraph, paragraphs};
use crate::text::{
    from_chars, is_space, is_whitespace, joined, keep_nonempty, leading_spaces,
    lemma_leading_spaces, lemma_trailing_spaces, lemma_trimmed_shape, texts, to_chars,
    trailing_spaces, trim_range, trimmed,
};
use vstd::prelude::*;

verus! {

/// The characters that end a sentence.
pub open spec fn is_terminal(c: char) -> bool {
    c == '.' || c == '?' || c == '!'
}

/// Whether a sentence ends at position `i`: a terminal mark that is the last
/// character of the text or is followed by whitespace. In a run of marks
/// only the last one qualifies.
pub open spec fn ends_sentence(t: Seq<char>, i: int) -> bool {
    &&& 0 <= i < t.len()
    &&& is_terminal(t[i])
    &&& (i + 1 == t.len() || is_space(t[i + 1]))
}

/// The sentences of `t[start..]`, where the scan for the next boundary
/// resumes at `i`.
pub open spec fn sentences_from(t: Seq<char>, start: int, i: int) -> Seq<Seq<char>>
    recommends
        0 <= start <= i,
    decreases t.len() - i,
{
    if i >= t.len() {
        keep_nonempty(trimmed(t.subrange(start, t.len() as int)))
    } else if ends_sentence(t, i) {
        keep_nonempty(trimmed(t.subrange(start, i + 1))) + sentences_from(t, i + 1, i + 1)
    } else {
        sentences_from(t, start, i + 1)
    }
}

/// The sentences of a text: the stretches from one boundary up to and
/// including the next terminal mark, then whatever follows the last
/// boundary, each trimmed, the empty ones left out.
pub open spec fn sentences(t: Seq<char>) -> Seq<Seq<char>> {
    sentences_from(t, 0, 0)
}

/// The sentences of the paragraphs `ps`, paragraph after paragraph.
pub open spec fn all_sentences(ps: Seq<Seq<char>>) -> Seq<Seq<char>>
    decreases ps.len(),
{
    if ps.len() == 0 {
        Seq::empty()
    } else {
        all_sentences(ps.drop_last()) + sentences(ps.last())
    }
}

/// What holds of every sentence: it is not empty and neither starts nor
/// ends with whitespace.
pub open spec fn is_sentence(s: Seq<char>) -> bool {
    &&& s.len() > 0
    &&& !is_space(s.first())
    &&& !is_space(s.last())
}

proof fn lemma_terminal_is_not_space(c: char)
    requires
        is_terminal(c),
    ensures
        !is_space(c),
{
}

proof fn lemma_sentences_from_shape(t: Seq<char>, start: int, i: int)
    requires
        0 <= start <= i,
        start <= t.len(),
    ensures
        forall|k: int|
            0 <= k < sentences_from(t, start, i).len() ==> is_sentence(
                #[trigger] sentences_from(t, start, i)[k],
            ),
        forall|k: int|
            0 <= k < sentences_from(t, start, i).len() - 1 ==> is_terminal(
                (#[trigger] sentences_from(t, start, i)[k]).last(),
            ),
    decreases t.len() - i,
{
    let all = sentences_from(t, start, i);
    if i >= t.len() {
        lemma_trimmed_shape(t.subrange(start, t.len() as int));
        assert(forall|k: int| 0 <= k < all.len() ==> is_sentence(#[trigger] all[k]));
    } else if ends_sentence(t, i) {
        let piece = t.subrange(start, i + 1);
        lemma_trimmed_shape(piece);
        lemma_piece_keeps_mark(t, start, i);
        lemma_sentences_from_shape(t, i + 1, i + 1);
        let head = keep_nonempty(trimmed(piece));
        let rest = sentences_from(t, i + 1, i + 1);
        assert(all == head + rest);
        assert(head.len() == 1);
        assert forall|k: int| 0 <= k < all.len() implies is_sentence(#[trigger] all[k]) by {
            if k > 0 {
                assert(all[k] == rest[k - 1]);
            }
        }
        assert forall|k: int| 0 <= k < all.len() - 1 implies is_terminal(
            (#[trigger] all[k]).last(),
        ) by {
            if k > 0 {
                assert(all[k] == rest[k - 1]);
            }
        }
    } else {
        lemma_sentences_from_shape(t, start, i + 1);
        assert(all == sentences_from(t, start, i + 1));
        assert(forall|k: int| 0 <= k < all.len() ==> is_sentence(#[trigger] all[k]));
        assert(forall|k: int| 0 <= k < all.len() - 1 ==> is_terminal((#[trigger] all[k]).last()));
    }
}

/// A stretch that ends in a terminal mark keeps that mark as its last
/// character when trimmed.
proof fn lemma_piece_keeps_mark(t: Seq<char>, start: int, i: int)
    requires
        0 <= start <= i < t.len(),
        is_terminal(t[i]),
    ensures
        trimmed(t.subrange(start, i + 1)).len() > 0,
        trimmed(t.subrange(start, i + 1)).last() == t[i],
{
    let piece = t.subrange(start, i + 1);
    lemma_terminal_is_not_space(t[i]);
    assert(piece.last() == t[i]);
    lemma_leading_spaces(piece);
    let body = piece.skip(leading_spaces(piece) as int);
    if leading_spaces(piece) == piece.len() {
        assert(is_space(piece[piece.len() - 1]));
    }
    assert(body.len() > 0);
    assert(body.last() == t[i]);
    assert(trailing_spaces(body) == 0);
    assert(body.take(body.len() as int) =~= body);
}

/// Every sentence of every text is non-empty and trimmed, and every
/// sentence but the last ends with a terminal mark.
pub proof fn lemma_sentences_shape(t: Seq<char>)
    ensures
        forall|k: int| 0 <= k < sentences(t).len() ==> is_sentence(#[trigger] sentences(t)[k]),
        forall|k: int|
            0 <= k < sentences(t).len() - 1 ==> is_terminal((#[trigger] sentences(t)[k]).last()),
{
    lemma_sentences_from_shape(t, 0, 0);
}

/// A text without a terminal mark is at most one sentence: the whole text,
/// trimmed.
pub proof fn lemma_unpunctuated(t: Seq<char>)
    requires
        forall|i: int| 0 <= i < t.len() ==> !is_terminal(#[trigger] t[i]),
    ensures
        sentences(t) == keep_nonempty(trimmed(t)),
{
    lemma_unpunctuated_from(t, 0);
    assert(t.subrange(0, t.len() as int) =~= t);
}

proof fn lemma_unpunctuated_from(t: Seq<char>, i: int)
    requires
        0 <= i,
        forall|j: int| 0 <= j < t.len() ==> !is_terminal(#[trigger] t[j]),
    ensures
        sentences_from(t, 0, i) == keep_nonempty(trimmed(t.subrange(0, t.len() as int))),
    decreases t.len() - i,
{
    if i < t.len() {
        lemma_unpunctuated_from(t, i + 1);
    }
}

/// The test for characters that are not whitespace.
pub open spec fn not_space() -> spec_fn(char) -> bool {
    |c: char| !is_space(c)
}

/// `s` without its whitespace.
pub open spec fn squeezed(s: Seq<char>) -> Seq<char> {
    s.filter(not_space())
}

/// The texts `parts`, each without its whitespace, one after the other.
pub open spec fn squeezed_all(parts: Seq<Seq<char>>) -> Seq<char>
    decreases parts.len(),
{
    if parts.len() == 0 {
        Seq::empty()
    } else {
        squeezed_all(parts.drop_last()) + squeezed(parts.last())
    }
}

proof fn lemma_squeezed_blank(s: Seq<char>)
    requires
        forall|i: int| 0 <= i < s.len() ==> is_space(#[trigger] s[i]),
    ensures
        squeezed(s) == Seq::<char>::empty(),
    decreases s.len(),
{
    reveal(Seq::filter);
    if s.len() > 0 {
        let front = s.drop_last();
        assert forall|i: int| 0 <= i < front.len() implies is_space(#[trigger] front[i]) by {
            assert(front[i] == s[i]);
        }
        lemma_squeezed_blank(front);
        assert(is_space(s[s.len() - 1]));
    }
}

proof fn lemma_squeezed_add(a: Seq<char>, b: Seq<char>)
    ensures
        squeezed(a + b) == squeezed(a) + squeezed(b),
{
    Seq::filter_distributes_over_add(a, b, not_space());
}

proof fn lemma_squeezed_trimmed(s: Seq<char>)
    ensures
        squeezed(trimmed(s)) == squeezed(s),
{
    lemma_leading_spaces(s);
    let a = leading_spaces(s) as int;
    let body = s.skip(a);
    lemma_trailing_spaces(body);
    let b = body.len() - trailing_spaces(body);
    let lead = s.take(a);
    let tail = body.skip(b);
    assert(s =~= lead + body);
    assert(body =~= trimmed(s) + tail);
    assert forall|i: int| 0 <= i < tail.len() implies is_space(#[trigger] tail[i]) by {
        assert(tail[i] == body[b + i]);
    }
    lemma_squeezed_blank(lead);
    lemma_squeezed_blank(tail);
    lemma_squeezed_add(lead, body);
    lemma_squeezed_add(trimmed(s), tail);
    assert(squeezed(lead) + squeezed(body) =~= squeezed(body));
    assert(squeezed(trimmed(s)) + squeezed(tail) =~= squeezed(trimmed(s)));
}

proof fn lemma_squeezed_all_add(a: Seq<Seq<char>>, b: Seq<Seq<char>>)
    ensures
        squeezed_all(a + b) == squeezed_all(a) + squeezed_all(b),
    decreases b.len(),
{
    if b.len() == 0 {
        assert(a + b =~= a);
        assert(squeezed_all(a) + squeezed_all(b) =~= squeezed_all(a));
    } else {
        assert((a + b).drop_last() =~= a + b.drop_last());
        lemma_squeezed_all_add(a, b.drop_last());
        assert((squeezed_all(a) + squeezed_all(b.drop_last())) + squeezed(b.last()) =~= squeezed_all(
            a,
        ) + (squeezed_all(b.drop_last()) + squeezed(b.last())));
    }
}

proof fn lemma_squeezed_kept(p: Seq<char>)
    ensures
        squeezed_all(keep_nonempty(p)) == squeezed(p),
{
    reveal(Seq::filter);
    if p.len() > 0 {
        let one = keep_nonempty(p);
        assert(one.last() == p);
        assert(one.drop_last() =~= Seq::<Seq<char>>::empty());
        assert(squeezed_all(one.drop_last()) =~= Seq::<char>::empty());
        assert(Seq::<char>::empty() + squeezed(p) =~= squeezed(p));
    } else {
        assert(squeezed(p) =~= Seq::<char>::empty());
    }
}

proof fn lemma_squeezed_sentences_from(t: Seq<char>, start: int, i: int)
    requires
        0 <= start <= i,
        start <= t.len(),
    ensures
        squeezed_all(sentences_from(t, start, i)) == squeezed(t.subrange(start, t.len() as int)),
    decreases t.len() - i,
{
    let n = t.len() as int;
    if i >= n {
        lemma_squeezed_kept(trimmed(t.subrange(start, n)));
        lemma_squeezed_trimmed(t.subrange(start, n));
    } else if ends_sentence(t, i) {
        let piece = t.subrange(start, i + 1);
        let rest = t.subrange(i + 1, n);
        lemma_squeezed_sentences_from(t, i + 1, i + 1);
        lemma_squeezed_all_add(keep_nonempty(trimmed(piece)), sentences_from(t, i + 1, i + 1));
        lemma_squeezed_kept(trimmed(piece));
        lemma_squeezed_trimmed(piece);
        lemma_squeezed_add(piece, rest);
        assert(piece + rest =~= t.subrange(start, n));
    } else {
        lemma_squeezed_sentences_from(t, start, i + 1);
    }
}

proof fn lemma_squeezed_joined(parts: Seq<Seq<char>>, sep: Seq<char>)
    requires
        forall|i: int| 0 <= i < sep.len() ==> is_space(#[trigger] sep[i]),
    ensures
        squeezed(joined(parts, sep)) == squeezed_all(parts),
    decreases parts.len(),
{
    reveal(Seq::filter);
    if parts.len() == 0 {
        assert(squeezed(Seq::<char>::empty()) =~= Seq::<char>::empty());
    } else if parts.len() == 1 {
        assert(parts.drop_last() =~= Seq::<Seq<char>>::empty());
        assert(squeezed_all(parts.drop_last()) =~= Seq::<char>::empty());
        assert(Seq::<char>::empty() + squeezed(parts[0]) =~= squeezed(parts[0]));
    } else {
        let front = joined(parts.drop_last(), sep);
        lemma_squeezed_joined(parts.drop_last(), sep);
        lemma_squeezed_blank(sep);
        lemma_squeezed_add(front, sep);
        lemma_squeezed_add(front + sep, parts.last());
        assert(squeezed(front) + squeezed(sep) =~= squeezed(front));
        assert(joined(parts, sep) == front + sep + parts.last());
        assert(squeezed(joined(parts, sep)) == squeezed(front) + squeezed(parts.last()));
    }
}

/// Segmentation loses no text. The sentences of a text, joined by any
/// whitespace, hold exactly the characters of the text that are not
/// whitespace, in the same order.
pub proof fn lemma_sentences_keep_text(t: Seq<char>, sep: Seq<char>)
    requires
        forall|i: int| 0 <= i < sep.len() ==> is_space(#[trigger] sep[i]),
    ensures
        squeezed(joined(sentences(t), sep)) == squeezed(t),
{
    lemma_squeezed_joined(sentences(t), sep);
    lemma_squeezed_sentences_from(t, 0, 0);
    assert(t.subrange(0, t.len() as int) =~= t);
}

fn is_terminal_mark(c: char) -> (b: bool)
    ensures
        b == is_terminal(c),
{
    c == '.' || c == '?' || c == '!'
}

fn push_sentence(v: &Vec<char>, from: usize, to: usize, out: &mut Vec<String>)
    requires
        from <= to <= v.len(),
    ensures
        texts(final(out)@) == texts(old(out)@) + keep_nonempty(
            trimmed(v@.subrange(from as int, to as int)),
        ),
{
    let (a, b) = trim_range(v, from, to);
    if a < b {
        let s = from_chars(v, a, b);
        let ghost before = out@;
        out.push(s);
        assert(texts(out@) =~= texts(before) + seq![s@]);
    } else {
        assert(texts(out@) =~= texts(out@) + Seq::<Seq<char>>::empty());
    }
}

/// Splits a text into paragraphs at blank lines.
pub fn split_into_paragraphs(text: &str) -> (out: Vec<String>)
    ensures
        texts(out@) == paragraphs(text@),
        forall|k: int| 0 <= k < out.len() ==> is_paragraph(#[trigger] out[k]@),
{
    clean_text(text)
}

/// Splits a text into sentences, keeping the terminal punctuation. A
/// sentence ends at `.`, `?` or `!` when whitespace or the end of the text
/// follows; what remains after the last such mark is a sentence too.
pub fn split_into_sentences(text: &str) -> (out: Vec<String>)
    ensures
        texts(out@) == sentences(text@),
        forall|k: int| 0 <= k < out.len() ==> is_sentence(#[trigger] out[k]@),
        forall|k: int| 0 <= k < out.len() - 1 ==> is_terminal((#[trigger] out[k]@).last()),
{
    let v = to_chars(text);
    let n = v.len();
    let mut out: Vec<String> = Vec::new();
    let mut start: usize = 0;
    let mut i: usize = 0;
    assert(texts(out@) + sentences_from(v@, 0, 0) =~= sentences(text@));
    while i < n
        invariant
            start <= i <= n,
            n == v.len(),
            v@ == text@,
            sentences(text@) == texts(out@) + sentences_from(v@, start as int, i as int),
        decreases n - i,
    {
        if is_terminal_mark(v[i]) && (i + 1 == n || is_whitespace(v[i + 1])) {
            let ghost before = texts(out@);
            push_sentence(&v, start, i + 1, &mut out);
            assert(before + (keep_nonempty(trimmed(v@.subrange(start as int, i + 1)))
                + sentences_from(v@, i + 1, i + 1)) =~= texts(out@) + sentences_from(
                v@,
                i + 1,
                i + 1,
            ));
            i += 1;
            start = i;
        } else {
            i += 1;
        }
    }
    push_sentence(&v, start, n, &mut out);
    proof {
        lemma_sentences_shape(text@);
        assert forall|k: int| 0 <= k < out.len() implies is_sentence(#[trigger] out[k]@) by {
            assert(out[k]@ == texts(out@)[k]);
        }
        assert forall|k: int| 0 <= k < out.len() - 1 implies is_terminal(
            (#[trigger] out[k]@).last(),
        ) by {
            assert(out[k]@ == texts(out@)[k]);
        }
    }
    out
}

/// Segments a whole document: its paragraphs in order and, within each, its
/// sentences in order. No sentence crosses a blank line.
pub fn segment_document(text: &str) -> (out: Vec<String>)
    ensures
        texts(out@) == all_sentences(paragraphs(text@)),
        forall|k: int| 0 <= k < out.len() ==> is_sentence(#[trigger] out[k]@),
{
    let paras = clean_text(text);
    let mut out: Vec<String> = Vec::new();
    let mut i: usize = 0;
    while i < paras.len()
        invariant
            i <= paras.len(),
            texts(out@) == all_sentences(texts(paras@).take(i as int)),
            forall|k: int| 0 <= k < out.len() ==> is_sentence(#[trigger] out[k]@),
        decreases paras.len() - i,
    {
        let mut found = split_into_sentences(paras[i].as_str());
        let ghost before = out@;
        let ghost added = found@;
        assert(texts(paras@).take(i + 1).drop_last() =~= texts(paras@).take(i as int));
        assert(texts(paras@).take(i + 1).last() == paras@[i as int]@);
        out.append(&mut found);
        assert(texts(before + added) =~= texts(before) + texts(added));
        assert forall|k: int| 0 <= k < out.len() implies is_sentence(#[trigger] out[k]@) by {
            if k >= before.len() {
                assert(out[k] == added[k - before.len()]);
            }
        }
        i += 1;
    }
    assert(texts(paras@).take(i as int) =~= texts(paras@));
    out
}

} // verus!
