//! The archived map.
//!
//! A map of `len` entries is archived as two arrays. The entry array holds
//! the entries in the order in which they were given: for each a key and the
//! record of the bytes of its value. The bucket array has as many slots as
//! there are entries, each with the index of one entry, and every entry in
//! one slot. A key is looked up from the slot that its hash points at,
//! slot after slot and round the end of the array, until an entry has the
//! key or every slot was seen.

use crate::error::Error;
use crate::rel_ptr::target;
use crate::scalar::{
    encode_u64, isize_at, lemma_decode_encode, lemma_scalar_at_appended, lemma_signed_unsigned,
    read_isize, read_u64, read_usize, scalar_at, to_unsigned, usize_at, write_isize, write_u64,
};
use crate::sink::Sink;
use crate::vec::{vec_record_at, ArchivedVec};
use rkyv::collections::hash_index::HashBuilder;
use std::hash::{Hash, Hasher};
use vstd::prelude::*;

verus! {

/// The number of bytes that one slot of the bucket array takes.
pub const BUCKET_SIZE: usize = 8;

/// The number of bytes that one entry takes: the key, then the record of the
/// value.
pub const ENTRY_SIZE: usize = 24;

/// The number of bytes that the record of a map takes.
pub const MAP_RECORD_SIZE: usize = 24;

/// The hash of a key: what `rkyv`'s `HashBuilder`, newly made, gives when
/// the key is hashed into it. It depends on the key alone.
pub uninterp spec fn key_hash(key: u32) -> u64;

/// `HashBuilder::new`, `Hash::hash` of a `u32` and `Hasher::finish`: the
/// hash of `key`.
#[verifier::external_body]
pub(crate) fn hash_key(key: u32) -> (hash: u64)
    ensures
        hash == key_hash(key),
{
    let mut hasher = HashBuilder::new();
    key.hash(&mut hasher);
    hasher.finish()
}

/// The entry index in slot `slot` of the bucket array at `buckets_pos`.
pub open spec fn bucket_at(archive: Seq<u8>, buckets_pos: int, slot: int) -> Option<usize> {
    usize_at(archive, buckets_pos + 8 * slot)
}

/// The position of entry `i` of the entry array at `entries_pos`.
pub open spec fn entry_pos(entries_pos: int, i: int) -> int {
    entries_pos + 24 * i
}

/// The key of entry `i`.
pub open spec fn key_at(archive: Seq<u8>, entries_pos: int, i: int) -> Option<u64> {
    scalar_at(archive, entry_pos(entries_pos, i))
}

/// The record of the value of entry `i`.
pub open spec fn value_record_at(archive: Seq<u8>, entries_pos: int, i: int) -> Option<
    ArchivedVec,
> {
    vec_record_at(archive, entry_pos(entries_pos, i) + 8)
}

/// The bytes of the value of entry `i`.
pub open spec fn value_at(archive: Seq<u8>, entries_pos: int, i: int) -> Seq<u8> {
    value_record_at(archive, entries_pos, i).unwrap().bytes(
        entry_pos(entries_pos, i) + 8,
        archive,
    )
}

/// Whether entry `i` can be read: its key and the record of its value lie
/// inside the archive, and so do the bytes of the value.
pub open spec fn entry_ok(archive: Seq<u8>, entries_pos: int, i: int) -> bool {
    &&& key_at(archive, entries_pos, i) is Some
    &&& value_record_at(archive, entries_pos, i) is Some
    &&& value_record_at(archive, entries_pos, i).unwrap().wf(
        entry_pos(entries_pos, i) + 8,
        archive,
    )
}

/// Whether all `len` entries can be read.
pub open spec fn entries_ok(archive: Seq<u8>, entries_pos: int, len: int) -> bool {
    forall|i: int| 0 <= i < len ==> #[trigger] entry_ok(archive, entries_pos, i)
}

/// Whether slot `slot` holds the index of an entry.
pub open spec fn bucket_in_range(archive: Seq<u8>, buckets_pos: int, len: int, slot: int) -> bool {
    &&& bucket_at(archive, buckets_pos, slot) is Some
    &&& bucket_at(archive, buckets_pos, slot).unwrap() < len
}

/// Whether some slot holds the index `i`.
pub open spec fn bucket_holds(archive: Seq<u8>, buckets_pos: int, len: int, i: int) -> bool {
    exists|slot: int|
        0 <= slot < len && #[trigger] bucket_at(archive, buckets_pos, slot) == Some(i as usize)
}

/// Whether the bucket array is sound: every slot holds the index of an
/// entry, and every entry is in some slot.
pub open spec fn buckets_ok(archive: Seq<u8>, buckets_pos: int, len: int) -> bool {
    &&& forall|slot: int|
        0 <= slot < len ==> #[trigger] bucket_in_range(archive, buckets_pos, len, slot)
    &&& forall|i: int| 0 <= i < len ==> #[trigger] bucket_holds(archive, buckets_pos, len, i)
}

/// The slot that is seen at step `step` of a search that starts at `start`.
pub open spec fn probe_slot(start: int, step: int, len: int) -> int {
    if start + step < len {
        start + step
    } else {
        start + step - len
    }
}

/// The record of an archived map.
#[derive(Clone, Copy, Debug, PartialEq, Eq)]
pub struct ArchivedHashMap {
    /// The distance from the record's position to the bucket array.
    pub buckets: isize,
    /// The distance from the position of this field, eight bytes into the
    /// record, to the entry array.
    pub entries: isize,
    /// The number of entries.
    pub len: usize,
}

/// The record that starts at `pos` in `archive`, where one can be read.
pub open spec fn map_record_at(archive: Seq<u8>, pos: int) -> Option<ArchivedHashMap> {
    match (isize_at(archive, pos), isize_at(archive, pos + 8), usize_at(archive, pos + 16)) {
        (Some(buckets), Some(entries), Some(len)) => Some(
            ArchivedHashMap { buckets, entries, len },
        ),
        _ => None,
    }
}

/// The twenty-four bytes of a record.
pub open spec fn encode_map_record(record: ArchivedHashMap) -> Seq<u8> {
    encode_u64(to_unsigned(record.buckets as i64)) + encode_u64(
        to_unsigned(record.entries as i64),
    ) + encode_u64(record.len as u64)
}

/// A record that was appended to an archive is read back at the position
/// where it starts, whatever follows it.
pub proof fn lemma_map_record_at_appended(before: Seq<u8>, record: ArchivedHashMap, after: Seq<u8>)
    ensures
        map_record_at(before + encode_map_record(record) + after, before.len() as int) == Some(
            record,
        ),
{
    let first = encode_u64(to_unsigned(record.buckets as i64));
    let second = encode_u64(to_unsigned(record.entries as i64));
    let third = encode_u64(record.len as u64);
    let archive = before + encode_map_record(record) + after;
    lemma_signed_unsigned(record.buckets as i64);
    lemma_signed_unsigned(record.entries as i64);
    lemma_decode_encode(to_unsigned(record.buckets as i64));
    lemma_decode_encode(to_unsigned(record.entries as i64));
    lemma_decode_encode(record.len as u64);
    lemma_scalar_at_appended(before, to_unsigned(record.buckets as i64), second + third + after);
    lemma_scalar_at_appended(before + first, to_unsigned(record.entries as i64), third + after);
    lemma_scalar_at_appended(before + first + second, record.len as u64, after);
    assert(archive =~= before + first + (second + third + after));
    assert(archive =~= (before + first) + second + (third + after));
    assert(archive =~= (before + first + second) + third + after);
}

impl ArchivedHashMap {
    /// The position of the bucket array, for a record that stands at `pos`.
    pub open spec fn buckets_pos(&self, pos: int) -> int {
        pos + self.buckets
    }

    /// The position of the entry array, for a record that stands at `pos`.
    pub open spec fn entries_pos(&self, pos: int) -> int {
        pos + 8 + self.entries
    }

    /// Whether the entries of the map can be read, one after the other.
    pub open spec fn readable(&self, pos: int, archive: Seq<u8>) -> bool {
        &&& 0 <= pos
        &&& pos + MAP_RECORD_SIZE <= usize::MAX
        &&& entries_ok(archive, self.entries_pos(pos), self.len as int)
    }

    /// Whether the map can be read and looked up in.
    pub open spec fn wf(&self, pos: int, archive: Seq<u8>) -> bool {
        &&& self.readable(pos, archive)
        &&& buckets_ok(archive, self.buckets_pos(pos), self.len as int)
    }

    /// The key of entry `i`.
    pub open spec fn key(&self, pos: int, archive: Seq<u8>, i: int) -> u64 {
        key_at(archive, self.entries_pos(pos), i).unwrap()
    }

    /// The bytes of the value of entry `i`.
    pub open spec fn value(&self, pos: int, archive: Seq<u8>, i: int) -> Seq<u8> {
        value_at(archive, self.entries_pos(pos), i)
    }

    /// The entry in slot `slot`.
    pub open spec fn bucket(&self, pos: int, archive: Seq<u8>, slot: int) -> int {
        bucket_at(archive, self.buckets_pos(pos), slot).unwrap() as int
    }

    /// The first entry with the key `key` that a search finds which starts
    /// at slot `start` and has seen `step` slots already.
    pub open spec fn probe(
        &self,
        pos: int,
        archive: Seq<u8>,
        key: u64,
        start: int,
        step: int,
    ) -> Option<int>
        decreases self.len - step,
    {
        if step < 0 || step >= self.len {
            None
        } else {
            let i = self.bucket(pos, archive, probe_slot(start, step, self.len as int));
            if self.key(pos, archive, i) == key {
                Some(i)
            } else {
                self.probe(pos, archive, key, start, step + 1)
            }
        }
    }

    /// The entry that a search for `key` finds when the hash of `key` is
    /// `hash`.
    pub open spec fn find(&self, pos: int, archive: Seq<u8>, key: u32, hash: u64) -> Option<int> {
        if self.len == 0 {
            None
        } else {
            self.probe(pos, archive, key as u64, (hash % (self.len as u64)) as int, 0)
        }
    }

    /// The bytes of the value that a lookup of `key` gives.
    pub open spec fn lookup(&self, pos: int, archive: Seq<u8>, key: u32) -> Option<Seq<u8>> {
        match self.find(pos, archive, key, key_hash(key)) {
            Some(i) => Some(self.value(pos, archive, i)),
            None => None,
        }
    }

    /// A search that finds nothing has seen no entry with the key.
    proof fn lemma_probe_none(
        &self,
        pos: int,
        archive: Seq<u8>,
        key: u64,
        start: int,
        step: int,
        later: int,
    )
        requires
            0 <= step <= later < self.len,
            self.probe(pos, archive, key, start, step) is None,
        ensures
            self.key(
                pos,
                archive,
                self.bucket(pos, archive, probe_slot(start, later, self.len as int)),
            ) != key,
        decreases later - step,
    {
        if step < later {
            self.lemma_probe_none(pos, archive, key, start, step + 1, later);
        }
    }

    /// A search that finds an entry finds one that has the key.
    proof fn lemma_probe_some(&self, pos: int, archive: Seq<u8>, key: u64, start: int, step: int)
        requires
            self.wf(pos, archive),
            0 <= start < self.len,
            0 <= step,
            self.probe(pos, archive, key, start, step) is Some,
        ensures
            0 <= self.probe(pos, archive, key, start, step).unwrap() < self.len,
            self.key(pos, archive, self.probe(pos, archive, key, start, step).unwrap()) == key,
        decreases self.len - step,
    {
        let slot = probe_slot(start, step, self.len as int);
        assert(bucket_in_range(archive, self.buckets_pos(pos), self.len as int, slot));
        let i = self.bucket(pos, archive, slot);
        if self.key(pos, archive, i) != key {
            self.lemma_probe_some(pos, archive, key, start, step + 1);
        }
    }

    /// A lookup never gives a false match and never misses a key: the entry
    /// that a search finds has the key, and a search finds nothing only
    /// where no entry has the key, whatever the hash.
    pub proof fn lemma_find(&self, pos: int, archive: Seq<u8>, key: u32, hash: u64)
        requires
            self.wf(pos, archive),
        ensures
            self.find(pos, archive, key, hash) matches Some(i) ==> 0 <= i < self.len && self.key(
                pos,
                archive,
                i,
            ) == key,
            self.find(pos, archive, key, hash) is None <==> forall|i: int|
                0 <= i < self.len ==> #[trigger] self.key(pos, archive, i) != key,
    {
        if self.len > 0 {
            let len = self.len as int;
            let start = (hash % (self.len as u64)) as int;
            if self.find(pos, archive, key, hash) is Some {
                self.lemma_probe_some(pos, archive, key as u64, start, 0);
            } else {
                assert forall|i: int| 0 <= i < self.len implies #[trigger] self.key(
                    pos,
                    archive,
                    i,
                ) != key by {
                    assert(bucket_holds(archive, self.buckets_pos(pos), len, i));
                    let slot = choose|slot: int|
                        0 <= slot < len && #[trigger] bucket_at(
                            archive,
                            self.buckets_pos(pos),
                            slot,
                        ) == Some(i as usize);
                    let later = if slot >= start {
                        slot - start
                    } else {
                        slot - start + len
                    };
                    assert(probe_slot(start, later, len) == slot);
                    self.lemma_probe_none(pos, archive, key as u64, start, 0, later);
                }
            }
        }
    }

    /// Looking a key up twice gives the same: a lookup depends on the
    /// archive, the record, its position and the key, and on nothing else.
    pub proof fn lemma_lookup_deterministic(
        &self,
        pos: int,
        archive: Seq<u8>,
        key: u32,
        first: Option<Seq<u8>>,
        second: Option<Seq<u8>>,
    )
        requires
            first == self.lookup(pos, archive, key),
            second == self.lookup(pos, archive, key),
        ensures
            first == second,
    {
    }

    /// Appends the record itself: the offset to the bucket array, the offset
    /// to the entry array, the number of entries. Fails with `SinkFailure`,
    /// and writes nothing, where it does not fit.
    pub fn write_record(&self, serializer: &mut Sink) -> (r: Result<(), Error>)
        ensures
            final(serializer).capacity() == old(serializer).capacity(),
            r is Ok <==> old(serializer).written().len() + MAP_RECORD_SIZE <= old(
                serializer,
            ).capacity(),
            r is Ok ==> final(serializer).written() == old(serializer).written()
                + encode_map_record(*self),
            r matches Err(e) ==> {
                &&& e == Error::SinkFailure
                &&& final(serializer).written() == old(serializer).written()
            },
    {
        if serializer.remaining() < MAP_RECORD_SIZE {
            return Err(Error::SinkFailure);
        }
        let ghost before = serializer.written();
        proof {
            lemma_decode_encode(to_unsigned(self.buckets as i64));
            lemma_decode_encode(to_unsigned(self.entries as i64));
        }
        match write_isize(serializer, self.buckets) {
            Ok(()) => {},
            Err(e) => {
                return Err(e);
            },
        }
        match write_isize(serializer, self.entries) {
            Ok(()) => {},
            Err(e) => {
                return Err(e);
            },
        }
        match write_u64(serializer, self.len as u64) {
            Ok(()) => {},
            Err(e) => {
                return Err(e);
            },
        }
        assert(serializer.written() =~= before + encode_map_record(*self));
        Ok(())
    }

    /// Reads the record that starts at `pos`.
    pub fn read(archive: &[u8], pos: usize) -> (r: Option<ArchivedHashMap>)
        ensures
            r == map_record_at(archive@, pos as int),
    {
        if archive.len() < MAP_RECORD_SIZE || pos > archive.len() - MAP_RECORD_SIZE {
            return None;
        }
        let buckets = read_isize(archive, pos);
        let entries = read_isize(archive, pos + 8);
        let len = read_usize(archive, pos + 16);
        match (buckets, entries, len) {
            (Some(buckets), Some(entries), Some(len)) => Some(
                ArchivedHashMap { buckets, entries, len },
            ),
            _ => None,
        }
    }

    /// An empty record, to be filled in by `resolve_with`.
    pub fn new() -> (record: ArchivedHashMap)
        ensures
            record == (ArchivedHashMap { buckets: 0, entries: 0, len: 0 }),
    {
        ArchivedHashMap { buckets: 0, entries: 0, len: 0 }
    }

    /// The number of entries.
    pub fn len(&self) -> (n: usize)
        ensures
            n == self.len,
    {
        self.len
    }

    /// Whether the map has no entry.
    pub fn is_empty(&self) -> (empty: bool)
        ensures
            empty == (self.len == 0),
    {
        self.len == 0
    }

    /// Tells whether the entries of the map can be read.
    pub fn validate_entries(&self, pos: usize, archive: &[u8]) -> (ok: bool)
        ensures
            ok == self.readable(pos as int, archive@),
    {
        if pos > usize::MAX - MAP_RECORD_SIZE {
            return false;
        }
        let n: usize = self.len;
        if n == 0 {
            return true;
        }
        let total: usize = archive.len();
        let ghost first = self.entries_pos(pos as int);
        let entries_pos: usize = match target(pos + 8, self.entries) {
            Some(p) => p,
            None => {
                assert(!entry_ok(archive@, first, 0));
                return false;
            },
        };
        if entries_pos > total || n > (total - entries_pos) / ENTRY_SIZE {
            assert(!entry_ok(archive@, first, n - 1));
            return false;
        }
        let mut i: usize = 0;
        while i < n
            invariant
                0 <= i <= n,
                n == self.len,
                total == archive@.len(),
                entries_pos == first,
                first == self.entries_pos(pos as int),
                entries_pos + ENTRY_SIZE * n <= total,
                forall|j: int| 0 <= j < i ==> #[trigger] entry_ok(archive@, first, j),
            decreases n - i,
        {
            let entry: usize = entries_pos + ENTRY_SIZE * i;
            match ArchivedVec::read(archive, entry + 8) {
                Some(record) => {
                    if !record.validate(entry + 8, archive) {
                        assert(!entry_ok(archive@, first, i as int));
                        return false;
                    }
                },
                None => {
                    assert(!entry_ok(archive@, first, i as int));
                    return false;
                },
            }
            assert(entry_ok(archive@, first, i as int));
            i += 1;
        }
        true
    }

    /// Tells whether the bucket array is sound.
    pub fn validate_buckets(&self, pos: usize, archive: &[u8]) -> (ok: bool)
        ensures
            ok == buckets_ok(archive@, self.buckets_pos(pos as int), self.len as int),
    {
        let n: usize = self.len;
        if n == 0 {
            return true;
        }
        let total: usize = archive.len();
        let ghost first = self.buckets_pos(pos as int);
        let buckets_pos: usize = match target(pos, self.buckets) {
            Some(p) => p,
            None => {
                assert(!bucket_in_range(archive@, first, n as int, 0));
                return false;
            },
        };
        if buckets_pos > total || n > (total - buckets_pos) / BUCKET_SIZE {
            assert(!bucket_in_range(archive@, first, n as int, n - 1));
            return false;
        }
        let mut seen: Vec<bool> = vec![false; n];
        let mut slot: usize = 0;
        assert forall|i: int| 0 <= i < n implies seen@[i] == #[trigger] bucket_holds(
            archive@,
            first,
            0,
            i,
        ) by {}
        while slot < n
            invariant
                0 <= slot <= n,
                n == self.len,
                total == archive@.len(),
                buckets_pos == first,
                first == self.buckets_pos(pos as int),
                buckets_pos + BUCKET_SIZE * n <= total,
                seen@.len() == n,
                forall|s: int|
                    0 <= s < slot ==> #[trigger] bucket_in_range(archive@, first, n as int, s),
                forall|i: int|
                    0 <= i < n ==> seen@[i] == #[trigger] bucket_holds(
                        archive@,
                        first,
                        slot as int,
                        i,
                    ),
            decreases n - slot,
        {
            let i: usize = match read_usize(archive, buckets_pos + BUCKET_SIZE * slot) {
                Some(i) => i,
                None => {
                    assert(!bucket_in_range(archive@, first, n as int, slot as int));
                    return false;
                },
            };
            if i >= n {
                assert(!bucket_in_range(archive@, first, n as int, slot as int));
                return false;
            }
            let ghost before = seen@;
            seen[i] = true;
            proof {
                assert(bucket_at(archive@, first, slot as int) == Some(i));
                assert forall|j: int| 0 <= j < n implies seen@[j] == #[trigger] bucket_holds(
                    archive@,
                    first,
                    slot + 1,
                    j,
                ) by {
                    if j == i {
                        assert(bucket_holds(archive@, first, slot + 1, j));
                    } else {
                        assert(before[j] == bucket_holds(archive@, first, slot as int, j));
                        if bucket_holds(archive@, first, slot + 1, j) {
                            let s = choose|s: int|
                                0 <= s < slot + 1 && #[trigger] bucket_at(archive@, first, s)
                                    == Some(j as usize);
                            assert(s != slot);
                            assert(bucket_holds(archive@, first, slot as int, j));
                        }
                        if bucket_holds(archive@, first, slot as int, j) {
                            let s = choose|s: int|
                                0 <= s < slot && #[trigger] bucket_at(archive@, first, s) == Some(
                                    j as usize,
                                );
                            assert(0 <= s < slot + 1);
                            assert(bucket_holds(archive@, first, slot + 1, j));
                        }
                    }
                }
            }
            slot += 1;
        }
        let mut i: usize = 0;
        while i < n
            invariant
                0 <= i <= n,
                n == self.len,
                first == self.buckets_pos(pos as int),
                seen@.len() == n,
                forall|s: int|
                    0 <= s < n ==> #[trigger] bucket_in_range(archive@, first, n as int, s),
                forall|j: int|
                    0 <= j < n ==> seen@[j] == #[trigger] bucket_holds(
                        archive@,
                        first,
                        n as int,
                        j,
                    ),
                forall|j: int| 0 <= j < i ==> #[trigger] bucket_holds(archive@, first, n as int, j),
            decreases n - i,
        {
            if !seen[i] {
                assert(!bucket_holds(archive@, first, n as int, i as int));
                return false;
            }
            i += 1;
        }
        true
    }

    /// Tells whether the map can be read and looked up in.
    pub fn validate(&self, pos: usize, archive: &[u8]) -> (ok: bool)
        ensures
            ok == self.wf(pos as int, archive@),
    {
        self.validate_entries(pos, archive) && self.validate_buckets(pos, archive)
    }

    /// The entry in slot `slot`.
    pub fn bucket_of(&self, pos: usize, archive: &[u8], slot: usize) -> (i: usize)
        requires
            self.wf(pos as int, archive@),
            slot < self.len,
        ensures
            i == self.bucket(pos as int, archive@, slot as int),
            i < self.len,
    {
        // A slice is no longer than a `usize` counts: this bounds the positions.
        let _: usize = archive.len();
        assert(bucket_in_range(
            archive@,
            self.buckets_pos(pos as int),
            self.len as int,
            slot as int,
        ));
        assert(bucket_in_range(archive@, self.buckets_pos(pos as int), self.len as int, 0));
        let buckets_pos: usize = target(pos, self.buckets).unwrap();
        read_usize(archive, buckets_pos + BUCKET_SIZE * slot).unwrap()
    }

    /// The position of entry `i`.
    fn entry_of(&self, pos: usize, archive: &[u8], i: usize) -> (entry: usize)
        requires
            self.readable(pos as int, archive@),
            i < self.len,
        ensures
            entry == entry_pos(self.entries_pos(pos as int), i as int),
            entry + ENTRY_SIZE <= archive@.len(),
            entry_ok(archive@, self.entries_pos(pos as int), i as int),
    {
        // A slice is no longer than a `usize` counts: this bounds the positions.
        let _: usize = archive.len();
        assert(entry_ok(archive@, self.entries_pos(pos as int), i as int));
        assert(entry_ok(archive@, self.entries_pos(pos as int), 0));
        let entries_pos: usize = target(pos + 8, self.entries).unwrap();
        entries_pos + ENTRY_SIZE * i
    }

    /// The key of entry `i`.
    pub fn key_of(&self, pos: usize, archive: &[u8], i: usize) -> (key: u64)
        requires
            self.readable(pos as int, archive@),
            i < self.len,
        ensures
            key == self.key(pos as int, archive@, i as int),
    {
        let entry: usize = self.entry_of(pos, archive, i);
        read_u64(archive, entry).unwrap()
    }

    /// The bytes of the value of entry `i`, borrowed from the archive.
    pub fn value_of<'a>(&self, pos: usize, archive: &'a [u8], i: usize) -> (bytes: &'a [u8])
        requires
            self.readable(pos as int, archive@),
            i < self.len,
        ensures
            bytes@ == self.value(pos as int, archive@, i as int),
    {
        // A slice is no longer than a `usize` counts: this bounds the positions.
        let _: usize = archive.len();
        let entry: usize = self.entry_of(pos, archive, i);
        let record = ArchivedVec::read(archive, entry + 8).unwrap();
        record.as_slice(entry + 8, archive)
    }

    /// Looks `key` up, given its hash: the bytes of the value of the first
    /// entry with that key that the search from the hash's slot finds, or
    /// nothing where it sees every slot and finds none.
    pub fn get_with_hash<'a>(&self, pos: usize, archive: &'a [u8], key: u32, hash: u64) -> (r:
        Option<&'a [u8]>)
        requires
            self.wf(pos as int, archive@),
        ensures
            match self.find(pos as int, archive@, key, hash) {
                Some(i) => r matches Some(bytes) && bytes@ == self.value(
                    pos as int,
                    archive@,
                    i,
                ),
                None => r is None,
            },
    {
        let n: usize = self.len;
        if n == 0 {
            return None;
        }
        let start: usize = (hash % (n as u64)) as usize;
        let mut step: usize = 0;
        while step < n
            invariant
                0 <= step <= n,
                n == self.len,
                start < n,
                start == hash % (self.len as u64),
                self.wf(pos as int, archive@),
                self.probe(pos as int, archive@, key as u64, start as int, 0) == self.probe(
                    pos as int,
                    archive@,
                    key as u64,
                    start as int,
                    step as int,
                ),
            decreases n - step,
        {
            let slot: usize = if step < n - start {
                start + step
            } else {
                step - (n - start)
            };
            assert(slot == probe_slot(start as int, step as int, n as int));
            let i: usize = self.bucket_of(pos, archive, slot);
            if self.key_of(pos, archive, i) == key as u64 {
                return Some(self.value_of(pos, archive, i));
            }
            step += 1;
        }
        None
    }

    /// Looks `key` up: the bytes of its value, or nothing where no entry has
    /// the key.
    pub fn get<'a>(&self, pos: usize, archive: &'a [u8], key: u32) -> (r: Option<&'a [u8]>)
        requires
            self.wf(pos as int, archive@),
        ensures
            r is Some <==> self.lookup(pos as int, archive@, key) is Some,
            r matches Some(bytes) ==> Some(bytes@) == self.lookup(pos as int, archive@, key),
    {
        self.get_with_hash(pos, archive, key, hash_key(key))
    }

    /// Whether some entry has the key `key`.
    pub fn contains_key(&self, pos: usize, archive: &[u8], key: u32) -> (found: bool)
        requires
            self.wf(pos as int, archive@),
        ensures
            found == self.lookup(pos as int, archive@, key).is_some(),
    {
        self.get(pos, archive, key).is_some()
    }
}

} // verus!
