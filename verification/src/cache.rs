//! The content-addressed cache: a store from keys to the bytes of finished
//! translations, written once per key.

use vstd::hash_map::StringHashMap;
use vstd::prelude::*;
use vstd::slice::slice_to_vec;
use vstd::string::StringSliceAdditionalSpecFns;
use vstd::utf8::{decode_utf8, encode_utf8, encode_utf8_decode_utf8, encode_utf8_valid_utf8, valid_utf8};

verus! {

/// Why a cache operation failed.
#[derive(Debug, Clone, Copy, PartialEq, Eq, Structural)]
pub enum CacheError {
    /// An entry exists but its bytes are not valid text.
    ReadCorrupt,
    /// The store could not take a new entry.
    WriteFailed,
}

/// `std::str::from_utf8`: succeeds exactly on valid UTF-8, and the string
/// it gives has the bytes it was given.
#[verifier::external_body]
fn str_from_utf8(bytes: &[u8]) -> (r: Option<&str>)
    ensures
        r is Some <==> valid_utf8(bytes@),
        r matches Some(s) ==> s.spec_bytes() == bytes@,
{
    match std::str::from_utf8(bytes) {
        Ok(s) => Some(s),
        Err(_) => None,
    }
}

/// The contents of a store: stored bytes by key.
pub type Entries = Map<Seq<char>, Seq<u8>>;

/// Whether a store with contents `m` and room for `limit` entries accepts a
/// write under `key`: the key is there already, or there is room left.
pub open spec fn has_room(m: Entries, limit: nat, key: Seq<char>) -> bool {
    m.contains_key(key) || m.len() < limit
}

/// The contents after a write of `data` under `key`. An entry that exists
/// is never replaced; a new one is added if there is room.
pub open spec fn put(m: Entries, limit: nat, key: Seq<char>, data: Seq<u8>) -> Entries {
    if !m.contains_key(key) && m.len() < limit {
        m.insert(key, data)
    } else {
        m
    }
}

/// What a read of `key` gives for contents `m`: nothing if there is no
/// entry, the text if the stored bytes are valid UTF-8, an error if not.
pub open spec fn lookup(m: Entries, key: Seq<char>) -> Result<Option<Seq<char>>, CacheError> {
    if !m.contains_key(key) {
        Ok(None)
    } else if valid_utf8(m[key]) {
        Ok(Some(decode_utf8(m[key])))
    } else {
        Err(CacheError::ReadCorrupt)
    }
}

/// Read after write: once a text has been written under a key that was
/// free, a read of that key gives the text back.
pub proof fn lemma_read_after_write(m: Entries, limit: nat, key: Seq<char>, text: Seq<char>)
    requires
        !m.contains_key(key),
        m.len() < limit,
    ensures
        lookup(put(m, limit, key, encode_utf8(text)), key) == Ok::<
            Option<Seq<char>>,
            CacheError,
        >(Some(text)),
{
    encode_utf8_valid_utf8(text);
    encode_utf8_decode_utf8(text);
}

/// A write never changes or removes an entry that exists, and touches no
/// key but its own.
pub proof fn lemma_put_keeps(m: Entries, limit: nat, key: Seq<char>, data: Seq<u8>)
    ensures
        m.submap_of(put(m, limit, key, data)),
        forall|k: Seq<char>|
            k != key ==> (#[trigger] put(m, limit, key, data).contains_key(k) <==> m.contains_key(
                k,
            )),
        has_room(m, limit, key) <==> put(m, limit, key, data).contains_key(key),
{
}

/// Writing the same key again is a no-op.
pub proof fn lemma_put_idempotent(
    m: Entries,
    limit: nat,
    key: Seq<char>,
    data: Seq<u8>,
    again: Seq<u8>,
)
    ensures
        put(put(m, limit, key, data), limit, key, again) == put(m, limit, key, data),
{
}

/// Turns the stored bytes of an entry into text, or reports them corrupt.
pub fn decode_entry(bytes: &[u8]) -> (r: Result<String, CacheError>)
    ensures
        r is Ok <==> valid_utf8(bytes@),
        r matches Ok(s) ==> s@ == decode_utf8(bytes@) && encode_utf8(s@) == bytes@,
        r matches Err(e) ==> e == CacheError::ReadCorrupt,
{
    match str_from_utf8(bytes) {
        Some(s) => {
            proof {
                encode_utf8_decode_utf8(s@);
            }
            Ok(s.to_owned())
        },
        None => Err(CacheError::ReadCorrupt),
    }
}

/// An in-memory content-addressed store with room for a fixed number of
/// entries.
pub struct ContentCache {
    entries: StringHashMap<Vec<u8>>,
    capacity: usize,
}

impl View for ContentCache {
    type V = Entries;

    closed spec fn view(&self) -> Entries {
        self.entries@.map_values(|v: Vec<u8>| v@)
    }
}

impl ContentCache {
    #[verifier::type_invariant]
    spec fn inv(self) -> bool {
        self.entries@.dom().finite()
    }

    /// The number of entries the store has room for.
    pub closed spec fn limit(&self) -> nat {
        self.capacity as nat
    }

    /// An empty store with room for `limit` entries.
    pub fn bounded(limit: usize) -> (c: ContentCache)
        ensures
            c@ == Entries::empty(),
            c.limit() == limit,
    {
        let c = ContentCache { entries: StringHashMap::new(), capacity: limit };
        assert(c@ =~= Entries::empty());
        c
    }

    /// An empty store that takes as many entries as the machine can count.
    pub fn new() -> (c: ContentCache)
        ensures
            c@ == Entries::empty(),
            c.limit() == usize::MAX,
    {
        ContentCache::bounded(usize::MAX)
    }

    /// The number of entries.
    pub fn len(&self) -> (n: usize)
        ensures
            n == self@.len(),
            self@.dom().finite(),
    {
        proof {
            use_type_invariant(self);
            assert(self@.dom() =~= self.entries@.dom());
        }
        self.entries.len()
    }

    /// Whether an entry exists under `key`.
    pub fn contains(&self, key: &str) -> (b: bool)
        ensures
            b == self@.contains_key(key@),
    {
        self.entries.contains_key(key)
    }

    /// The stored bytes under `key`, if there are any.
    pub fn read_bytes(&self, key: &str) -> (r: Option<Vec<u8>>)
        ensures
            r is Some <==> self@.contains_key(key@),
            r matches Some(data) ==> data@ == self@[key@],
    {
        match self.entries.get(key) {
            Some(data) => Some(data.clone()),
            None => None,
        }
    }

    /// The text under `key`: `None` if there is no entry, `ReadCorrupt` if
    /// there is one whose bytes are not valid UTF-8.
    pub fn read(&self, key: &str) -> (r: Result<Option<String>, CacheError>)
        ensures
            match r {
                Ok(None) => lookup(self@, key@) == Ok::<Option<Seq<char>>, CacheError>(None),
                Ok(Some(s)) => lookup(self@, key@) == Ok::<Option<Seq<char>>, CacheError>(
                    Some(s@),
                ),
                Err(e) => lookup(self@, key@) == Err::<Option<Seq<char>>, CacheError>(e),
            },
    {
        match self.entries.get(key) {
            None => Ok(None),
            Some(data) => match decode_entry(data.as_slice()) {
                Ok(s) => Ok(Some(s)),
                Err(e) => Err(e),
            },
        }
    }

    /// Stores `data` under `key` unless an entry exists already, in which
    /// case nothing changes. Fails with `WriteFailed`, and changes nothing,
    /// when the key is new and the store is full.
    pub fn write_bytes(&mut self, key: &str, data: Vec<u8>) -> (r: Result<(), CacheError>)
        ensures
            r is Ok <==> has_room(old(self)@, old(self).limit(), key@),
            r matches Err(e) ==> e == CacheError::WriteFailed,
            final(self)@ == put(old(self)@, old(self).limit(), key@, data@),
            final(self).limit() == old(self).limit(),
            final(self)@.dom().finite(),
    {
        proof {
            use_type_invariant(&*self);
            assert(self@.dom() =~= self.entries@.dom());
        }
        if self.entries.contains_key(key) {
            Ok(())
        } else if self.entries.len() >= self.capacity {
            Err(CacheError::WriteFailed)
        } else {
            let ghost before = self.entries@;
            // The map is taken out while it grows, so that the store is
            // never seen half-updated.
            let mut entries: StringHashMap<Vec<u8>> = StringHashMap::new();
            core::mem::swap(&mut self.entries, &mut entries);
            entries.insert(key.to_owned(), data);
            core::mem::swap(&mut self.entries, &mut entries);
            proof {
                assert(self.entries@.map_values(|v: Vec<u8>| v@) =~= before.map_values(
                    |v: Vec<u8>| v@,
                ).insert(key@, data@));
                assert(self@.dom() =~= self.entries@.dom());
            }
            Ok(())
        }
    }

    /// Stores the translation `text` under `key`, as `write_bytes` stores
    /// its UTF-8 bytes.
    pub fn write(&mut self, key: &str, text: &str) -> (r: Result<(), CacheError>)
        ensures
            r is Ok <==> has_room(old(self)@, old(self).limit(), key@),
            r matches Err(e) ==> e == CacheError::WriteFailed,
            final(self)@ == put(old(self)@, old(self).limit(), key@, encode_utf8(text@)),
            final(self).limit() == old(self).limit(),
            final(self)@.dom().finite(),
    {
        self.write_bytes(key, slice_to_vec(text.as_bytes()))
    }
}

} // verus!
