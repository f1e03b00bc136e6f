//! The merger: reads the translation of every chunk, in index order, and
//! joins them into the final text.

use crate::cache::{lookup, ContentCache, Entries};
use crate::chunker::Chunk;
use crate::orchestrator::{chunk_keys, chunk_texts, keys_of};
use crate::text::{decimal, join_range, joined, push_decimal, texts};
use vstd::prelude::*;

verus! {

/// Why a strict merge refused to produce a text.
#[derive(Debug, Clone, Copy, PartialEq, Eq, Structural)]
pub enum MergeError {
    /// The chunk with this index has no translation. It is the first such
    /// chunk.
    IncompleteOutput(usize),
    /// The cache entry of the chunk with this index cannot be read as text.
    /// Every chunk before it has a readable translation.
    CorruptEntry(usize),
}

/// The text that stands in for the missing chunk `i` in a best-effort
/// merge: `[missing chunk i]`.
pub open spec fn gap_marker(i: nat) -> Seq<char> {
    seq!['[', 'm', 'i', 's', 's', 'i', 'n', 'g', ' ', 'c', 'h', 'u', 'n', 'k', ' '] + decimal(i)
        + seq![']']
}

/// The views of the parts.
pub open spec fn part_views(parts: Seq<Option<String>>) -> Seq<Option<Seq<char>>> {
    parts.map_values(
        |p: Option<String>|
            match p {
                Some(s) => Some(s@),
                None => None,
            },
    )
}

/// The index of the first missing part, or the number of parts if none is
/// missing.
pub open spec fn first_gap(parts: Seq<Option<Seq<char>>>) -> int
    decreases parts.len(),
{
    if parts.len() == 0 {
        0
    } else {
        let f = first_gap(parts.drop_last());
        if f < parts.len() - 1 || parts.last() is Some {
            if f < parts.len() - 1 {
                f
            } else {
                parts.len() as int
            }
        } else {
            parts.len() - 1
        }
    }
}

/// The parts with every gap filled by its marker.
pub open spec fn filled(parts: Seq<Option<Seq<char>>>) -> Seq<Seq<char>> {
    Seq::new(
        parts.len(),
        |i: int|
            match parts[i] {
                Some(t) => t,
                None => gap_marker(i as nat),
            },
    )
}

/// What a merge of `parts` gives. A strict merge fails at the first gap;
/// a best-effort merge marks each gap. The parts are joined in index
/// order with `joiner` between neighbours.
pub open spec fn merged_parts(parts: Seq<Option<Seq<char>>>, joiner: Seq<char>, strict: bool) -> Result<
    Seq<char>,
    MergeError,
> {
    if strict && first_gap(parts) < parts.len() {
        Err(MergeError::IncompleteOutput(first_gap(parts) as usize))
    } else {
        Ok(joined(filled(parts), joiner))
    }
}

/// The readable translation under `key`, if there is one.
pub open spec fn part_of(m: Entries, key: Seq<char>) -> Option<Seq<char>> {
    match lookup(m, key) {
        Ok(Some(t)) => Some(t),
        _ => None,
    }
}

/// The readable translations under `keys`, by index.
pub open spec fn parts_of(m: Entries, keys: Seq<Seq<char>>) -> Seq<Option<Seq<char>>> {
    keys.map_values(|k: Seq<char>| part_of(m, k))
}

/// What a merge over the cache contents `m` gives for the chunks with
/// `keys`: as `merged_parts` on what can be read, except that a strict
/// merge reports a first gap whose entry exists but is unreadable as
/// corrupt.
pub open spec fn merged(m: Entries, keys: Seq<Seq<char>>, joiner: Seq<char>, strict: bool) -> Result<
    Seq<char>,
    MergeError,
> {
    let parts = parts_of(m, keys);
    let g = first_gap(parts);
    if strict && g < parts.len() && lookup(m, keys[g]) is Err {
        Err(MergeError::CorruptEntry(g as usize))
    } else {
        merged_parts(parts, joiner, strict)
    }
}

/// The first gap is a gap, nothing before it is, and if it is the number
/// of parts then nothing is missing.
pub proof fn lemma_first_gap(parts: Seq<Option<Seq<char>>>)
    ensures
        0 <= first_gap(parts) <= parts.len(),
        first_gap(parts) < parts.len() ==> parts[first_gap(parts)] is None,
        forall|k: int| 0 <= k < first_gap(parts) ==> (#[trigger] parts[k]) is Some,
    decreases parts.len(),
{
    if parts.len() > 0 {
        let front = parts.drop_last();
        lemma_first_gap(front);
        assert forall|k: int| 0 <= k < first_gap(parts) implies (#[trigger] parts[k]) is Some by {
            if k < front.len() {
                assert(front[k] == parts[k]);
            }
        }
        if first_gap(parts) < parts.len() - 1 {
            assert(front[first_gap(parts)] == parts[first_gap(parts)]);
        }
    }
}

/// With nothing missing, a merge gives the translations themselves, joined
/// in index order, whether strict or not.
pub proof fn lemma_merge_complete(parts: Seq<Option<Seq<char>>>, joiner: Seq<char>, strict: bool)
    requires
        forall|k: int| 0 <= k < parts.len() ==> (#[trigger] parts[k]) is Some,
    ensures
        merged_parts(parts, joiner, strict) == Ok::<Seq<char>, MergeError>(
            joined(parts.map_values(|p: Option<Seq<char>>| p->0), joiner),
        ),
{
    lemma_first_gap(parts);
    assert(filled(parts) =~= parts.map_values(|p: Option<Seq<char>>| p->0));
}

fn gap_text(i: usize) -> (s: String)
    ensures
        s@ == gap_marker(i as nat),
{
    let mut s = "[missing chunk ".to_owned();
    proof {
        reveal_strlit("[missing chunk ");
        assert(s@ =~= seq![
            '[',
            'm',
            'i',
            's',
            's',
            'i',
            'n',
            'g',
            ' ',
            'c',
            'h',
            'u',
            'n',
            'k',
            ' ',
        ]);
    }
    push_decimal(&mut s, i);
    s.push(']');
    assert(s@ =~= gap_marker(i as nat));
    s
}

/// Joins the parts in index order with `joiner` between neighbours. A
/// strict merge fails with `IncompleteOutput` at the first missing part; a
/// best-effort merge puts a marker in the place of each missing part.
pub fn merge_parts(parts: &Vec<Option<String>>, joiner: &str, strict: bool) -> (r: Result<
    String,
    MergeError,
>)
    ensures
        match r {
            Ok(s) => merged_parts(part_views(parts@), joiner@, strict) == Ok::<
                Seq<char>,
                MergeError,
            >(s@),
            Err(e) => merged_parts(part_views(parts@), joiner@, strict) == Err::<
                Seq<char>,
                MergeError,
            >(e),
        },
{
    let ghost pv = part_views(parts@);
    let mut whole: Vec<String> = Vec::new();
    let mut i: usize = 0;
    while i < parts.len()
        invariant
            i <= parts.len(),
            pv == part_views(parts@),
            whole.len() == i,
            strict ==> first_gap(pv.take(i as int)) == i,
            texts(whole@) == filled(pv).take(i as int),
        decreases parts.len() - i,
    {
        assert(pv.take(i + 1).drop_last() =~= pv.take(i as int));
        let ghost before = whole@;
        match &parts[i] {
            Some(s) => {
                let c = s.clone();
                whole.push(c);
                assert(texts(before.push(c)) =~= texts(before).push(c@));
            },
            None => {
                if strict {
                    proof {
                        lemma_gap_stays(pv, i as int);
                    }
                    return Err(MergeError::IncompleteOutput(i));
                }
                let g = gap_text(i);
                whole.push(g);
                assert(texts(before.push(g)) =~= texts(before).push(g@));
            },
        }
        assert(filled(pv).take(i + 1) =~= filled(pv).take(i as int).push(filled(pv)[i as int]));
        i += 1;
    }
    assert(pv.take(i as int) =~= pv);
    assert(filled(pv).take(i as int) =~= filled(pv));
    let s = join_range(&whole, 0, whole.len(), joiner);
    assert(texts(whole@).subrange(0, whole.len() as int) =~= texts(whole@));
    Ok(s)
}

/// A gap found in a prefix is the first gap of the whole.
proof fn lemma_gap_stays(parts: Seq<Option<Seq<char>>>, i: int)
    requires
        0 <= i < parts.len(),
        first_gap(parts.take(i)) == i,
        parts[i] is None,
    ensures
        first_gap(parts) == i,
{
    lemma_first_gap(parts);
    lemma_first_gap(parts.take(i));
    let g = first_gap(parts);
    if g < i {
        assert(parts.take(i)[g] == parts[g]);
    }
    if g > i {
        assert(parts[i] is Some);
    }
}

/// Reads the translation of every chunk from the cache, in index order,
/// and joins them with `joiner`. It calls no engine, and on an unchanged
/// cache it gives the same text every time. A strict merge fails at the
/// first chunk without a readable translation: with `IncompleteOutput` if
/// the entry is missing, with `CorruptEntry` if it is there but is not
/// text. A best-effort merge marks each such chunk in the output.
pub fn merge(cache: &ContentCache, chunks: &Vec<Chunk>, joiner: &str, strict: bool) -> (r: Result<
    String,
    MergeError,
>)
    ensures
        match r {
            Ok(s) => merged(cache@, keys_of(chunk_texts(chunks@)), joiner@, strict) == Ok::<
                Seq<char>,
                MergeError,
            >(s@),
            Err(e) => merged(cache@, keys_of(chunk_texts(chunks@)), joiner@, strict) == Err::<
                Seq<char>,
                MergeError,
            >(e),
        },
{
    let keys = chunk_keys(chunks);
    let ghost ks = keys_of(chunk_texts(chunks@));
    let ghost pv = parts_of(cache@, ks);
    let mut parts: Vec<Option<String>> = Vec::new();
    let mut i: usize = 0;
    while i < keys.len()
        invariant
            i <= keys.len(),
            texts(keys@) == ks,
            ks == keys_of(chunk_texts(chunks@)),
            pv == parts_of(cache@, ks),
            parts.len() == i,
            strict ==> first_gap(pv.take(i as int)) == i,
            part_views(parts@) == pv.take(i as int),
        decreases keys.len() - i,
    {
        assert(pv.take(i + 1).drop_last() =~= pv.take(i as int));
        assert(texts(keys@)[i as int] == keys@[i as int]@);
        assert(pv[i as int] == part_of(cache@, ks[i as int]));
        let ghost before = parts@;
        let p: Option<String> = match cache.read(keys[i].as_str()) {
            Ok(p) => p,
            Err(_) => {
                if strict {
                    proof {
                        lemma_gap_stays(pv, i as int);
                    }
                    return Err(MergeError::CorruptEntry(i));
                }
                None
            },
        };
        if strict && p.is_none() {
            proof {
                lemma_gap_stays(pv, i as int);
            }
            return Err(MergeError::IncompleteOutput(i));
        }
        parts.push(p);
        assert(part_views(before.push(p)) =~= part_views(before).push(
            match p {
                Some(s) => Some(s@),
                None => None,
            },
        ));
        assert(pv.take(i + 1) =~= pv.take(i as int).push(pv[i as int]));
        i += 1;
    }
    assert(pv.take(i as int) =~= pv);
    proof {
        lemma_first_gap(pv);
    }
    merge_parts(&parts, joiner, strict)
}

} // verus!
