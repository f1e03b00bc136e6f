//! Content-derived cache keys: the SHA-256 digest of a chunk's exact text,
//! written as 64 lower-case hexadecimal digits.

use sha2::{Digest, Sha256};
use vstd::prelude::*;
use vstd::utf8::encode_utf8;

verus! {

/// The SHA-256 digest of a byte string.
pub uninterp spec fn sha256_digest(data: Seq<u8>) -> Seq<u8>;

/// `Sha256::digest` of the `sha2` crate: the digest of `data`, which for
/// SHA-256 is always 32 bytes long.
#[verifier::external_body]
fn sha256(data: &[u8]) -> (out: Vec<u8>)
    ensures
        out@ == sha256_digest(data@),
        out@.len() == 32,
{
    Sha256::digest(data).to_vec()
}

/// The sixteen hexadecimal digits, in order of value.
pub open spec fn hex_digits() -> Seq<char> {
    seq!['0', '1', '2', '3', '4', '5', '6', '7', '8', '9', 'a', 'b', 'c', 'd', 'e', 'f']
}

/// The bytes in lower-case hexadecimal, two digits per byte, the high half
/// first.
pub open spec fn hex(bytes: Seq<u8>) -> Seq<char>
    decreases bytes.len(),
{
    if bytes.len() == 0 {
        Seq::empty()
    } else {
        hex(bytes.drop_last()).push(hex_digits()[bytes.last() as int / 16]).push(
            hex_digits()[bytes.last() as int % 16],
        )
    }
}

/// The cache key of a chunk text: the hexadecimal form of the digest of its
/// UTF-8 bytes.
pub open spec fn key_of(text: Seq<char>) -> Seq<char> {
    hex(sha256_digest(encode_utf8(text)))
}

/// The extension of a cache entry's name.
pub open spec fn entry_suffix() -> Seq<char> {
    seq!['.', 't', 'x', 't']
}

/// The hexadecimal form has two digits per byte.
pub proof fn lemma_hex_len(bytes: Seq<u8>)
    ensures
        hex(bytes).len() == 2 * bytes.len(),
    decreases bytes.len(),
{
    if bytes.len() > 0 {
        lemma_hex_len(bytes.drop_last());
    }
}

/// Different byte strings have different hexadecimal forms.
pub proof fn lemma_hex_injective(a: Seq<u8>, b: Seq<u8>)
    requires
        hex(a) == hex(b),
    ensures
        a == b,
    decreases a.len(),
{
    lemma_hex_len(a);
    lemma_hex_len(b);
    if a.len() > 0 {
        let ha = hex(a.drop_last());
        let hb = hex(b.drop_last());
        lemma_hex_len(a.drop_last());
        lemma_hex_len(b.drop_last());
        let n = hex(a).len() as int;
        assert(hex(a)[n - 1] == hex(b)[n - 1]);
        assert(hex(a)[n - 2] == hex(b)[n - 2]);
        assert(hex(a)[n - 1] == hex_digits()[a.last() as int % 16]);
        assert(hex(b)[n - 1] == hex_digits()[b.last() as int % 16]);
        assert(hex(a)[n - 2] == hex_digits()[a.last() as int / 16]);
        assert(hex(b)[n - 2] == hex_digits()[b.last() as int / 16]);
        lemma_hex_digit_injective(a.last() as int % 16, b.last() as int % 16);
        lemma_hex_digit_injective(a.last() as int / 16, b.last() as int / 16);
        assert(a.last() == b.last());
        assert(ha =~= hex(a).take(n - 2));
        assert(hb =~= hex(b).take(n - 2));
        lemma_hex_injective(a.drop_last(), b.drop_last());
        assert(a =~= a.drop_last().push(a.last()));
        assert(b =~= b.drop_last().push(b.last()));
    } else {
        assert(a =~= b);
    }
}

proof fn lemma_hex_digit_injective(x: int, y: int)
    requires
        0 <= x < 16,
        0 <= y < 16,
        hex_digits()[x] == hex_digits()[y],
    ensures
        x == y,
{
}

/// Deterministic keying: equal texts have equal keys.
pub proof fn lemma_key_deterministic(t1: Seq<char>, t2: Seq<char>)
    requires
        t1 == t2,
    ensures
        key_of(t1) == key_of(t2),
{
}

/// Two texts share a key only if their digests collide: writing the digest
/// in hexadecimal adds no collision of its own.
pub proof fn lemma_key_collision(t1: Seq<char>, t2: Seq<char>)
    requires
        key_of(t1) == key_of(t2),
    ensures
        sha256_digest(encode_utf8(t1)) == sha256_digest(encode_utf8(t2)),
{
    lemma_hex_injective(sha256_digest(encode_utf8(t1)), sha256_digest(encode_utf8(t2)));
}

fn hex_digit(n: u8) -> (c: char)
    requires
        n < 16,
    ensures
        c == hex_digits()[n as int],
{
    match n {
        0 => '0',
        1 => '1',
        2 => '2',
        3 => '3',
        4 => '4',
        5 => '5',
        6 => '6',
        7 => '7',
        8 => '8',
        9 => '9',
        10 => 'a',
        11 => 'b',
        12 => 'c',
        13 => 'd',
        14 => 'e',
        _ => 'f',
    }
}

/// Writes a digest as a key: lower-case hexadecimal, two digits per byte.
pub fn key_from_digest(digest: &[u8]) -> (key: String)
    ensures
        key@ == hex(digest@),
        key@.len() == 2 * digest@.len(),
{
    let mut key = String::new();
    let mut i: usize = 0;
    while i < digest.len()
        invariant
            i <= digest.len(),
            key@ == hex(digest@.take(i as int)),
        decreases digest.len() - i,
    {
        let b = digest[i];
        assert(digest@.take(i + 1).drop_last() =~= digest@.take(i as int));
        key.push(hex_digit(b / 16));
        key.push(hex_digit(b % 16));
        i += 1;
    }
    assert(digest@.take(i as int) =~= digest@);
    proof {
        lemma_hex_len(digest@);
    }
    key
}

/// The cache key of a chunk text. Byte-equal texts always get the same
/// key; the key is 64 characters long.
pub fn cache_key(text: &str) -> (key: String)
    ensures
        key@ == key_of(text@),
        key@.len() == 64,
{
    let digest = sha256(text.as_bytes());
    key_from_digest(digest.as_slice())
}

/// The name under which a file-backed store keeps the entry of `key`: the
/// key followed by `.txt`.
pub fn entry_name(key: &str) -> (name: String)
    ensures
        name@ == key@ + entry_suffix(),
{
    let mut name = key.to_owned();
    name.append(".txt");
    proof {
        reveal_strlit(".txt");
        assert(".txt"@ =~= entry_suffix());
    }
    name
}

} // verus!
