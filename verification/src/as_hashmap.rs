//! The adapter that archives a vector of pairs as a map.
//!
//! The pairs are written straight into the layout of the archived map: the
//! bytes of the values, the bucket array, the entry array. No table is built
//! first. A key is put in the first free slot from the one that its hash
//! points at, so that a lookup, which goes the same way, comes across it.
//!
//! The keys of the pairs must differ from each other. The adapter does not
//! look for equal keys. Where two pairs have the same key, both are archived
//! and rebuilt, and a lookup of the key gives the value of one of them.

use crate::error::Error;
use crate::hash_map::{
    bucket_at, bucket_holds, bucket_in_range, buckets_ok, entries_ok, entry_ok, entry_pos,
    hash_key, key_at, key_hash, probe_slot, value_at, value_record_at, ArchivedHashMap,
    BUCKET_SIZE, ENTRY_SIZE, MAP_RECORD_SIZE,
};
use crate::rel_ptr::offset_between;
use crate::scalar::{
    encode_u64, extends, lemma_decode_encode, lemma_extends_append, lemma_extends_subrange,
    lemma_extends_transitive, lemma_scalar_at_appended, lemma_scalar_at_extended,
    lemma_scalar_at_shifted, write_u64,
};
use crate::shape::ArchivedShape;
use crate::sink::Sink;
use crate::vec::{
    encode_vec_record, lemma_vec_record_at_appended, lemma_vec_record_at_extended,
    lemma_vec_record_at_shifted, ArchivedVec,
};
use vstd::prelude::*;
use vstd::set_lib::*;
use vstd::utf8::{
    decode_utf8, encode_utf8, encode_utf8_decode_utf8, encode_utf8_valid_utf8, valid_utf8,
};

verus! {

/// Whether some slot of `buckets` holds the index `i`.
pub open spec fn slot_holds(buckets: Seq<usize>, i: int) -> bool {
    exists|slot: int| 0 <= slot < buckets.len() && #[trigger] buckets[slot] == i
}

/// Whether `buckets` assigns slots to entries: every slot holds the index of
/// an entry, and the index of every entry is in some slot.
pub open spec fn is_assignment(buckets: Seq<usize>) -> bool {
    &&& forall|slot: int| 0 <= slot < buckets.len() ==> #[trigger] buckets[slot] < buckets.len()
    &&& forall|i: int| 0 <= i < buckets.len() ==> slot_holds(buckets, i)
}

/// The first free slot that a search from `start` comes across after it has
/// seen `step` slots. A slot is free while it holds the number of slots.
pub open spec fn free_from(slots: Seq<usize>, start: int, step: int) -> int
    decreases slots.len() - step,
{
    if step < 0 || step >= slots.len() {
        slots.len() as int
    } else if slots[probe_slot(start, step, slots.len() as int)] == slots.len() {
        probe_slot(start, step, slots.len() as int)
    } else {
        free_from(slots, start, step + 1)
    }
}

/// The slots after the first `count` entries were put in: each, in turn, in
/// the first free slot from the one that its hash points at.
pub open spec fn assigned(hashes: Seq<u64>, count: int) -> Seq<usize>
    decreases count,
{
    if count <= 0 {
        Seq::new(hashes.len(), |slot: int| hashes.len() as usize)
    } else {
        let before = assigned(hashes, count - 1);
        let start = (hashes[count - 1] % (hashes.len() as u64)) as int;
        before.update(free_from(before, start, 0), (count - 1) as usize)
    }
}

/// The first free slot that a search from `start` comes across.
fn first_free(slots: &Vec<usize>, start: usize) -> (slot: usize)
    requires
        start < slots@.len(),
        exists|free: int| 0 <= free < slots@.len() && #[trigger] slots@[free] == slots@.len(),
    ensures
        slot < slots@.len(),
        slots@[slot as int] == slots@.len(),
        slot == free_from(slots@, start as int, 0),
{
    let n: usize = slots.len();
    let mut step: usize = 0;
    while step < n
        invariant
            0 <= step <= n,
            n == slots@.len(),
            start < n,
            forall|seen: int|
                0 <= seen < step ==> slots@[#[trigger] probe_slot(start as int, seen, n as int)]
                    != n,
            free_from(slots@, start as int, 0) == free_from(slots@, start as int, step as int),
        decreases n - step,
    {
        let slot: usize = if step < n - start {
            start + step
        } else {
            step - (n - start)
        };
        assert(slot == probe_slot(start as int, step as int, n as int));
        if slots[slot] == n {
            return slot;
        }
        step += 1;
    }
    proof {
        let free = choose|free: int|
            0 <= free < slots@.len() && #[trigger] slots@[free] == slots@.len();
        let seen = if free >= start {
            free - start
        } else {
            free - start + n
        };
        assert(probe_slot(start as int, seen, n as int) == free);
    }
    vstd::pervasive::unreached()
}

/// Assigns a slot to each entry, given the hashes of the keys in the order
/// of the entries: entry after entry, the first free slot from the one that
/// its hash points at.
pub fn assign_buckets(hashes: &Vec<u64>) -> (buckets: Vec<usize>)
    ensures
        buckets@ == assigned(hashes@, hashes@.len() as int),
        buckets@.len() == hashes@.len(),
        is_assignment(buckets@),
{
    let n: usize = hashes.len();
    let mut slots: Vec<usize> = vec![n; n];
    let ghost mut free: Set<int> = set_int_range(0, n as int);
    proof {
        lemma_int_range(0, n as int);
    }
    assert(slots@ =~= assigned(hashes@, 0));
    let mut i: usize = 0;
    while i < n
        invariant
            0 <= i <= n,
            n == hashes@.len(),
            slots@.len() == n,
            slots@ == assigned(hashes@, i as int),
            free.finite(),
            free.len() == n - i,
            forall|slot: int| free.contains(slot) <==> 0 <= slot < n && slots@[slot] == n,
            forall|slot: int| 0 <= slot < n ==> #[trigger] slots@[slot] == n || slots@[slot] < i,
            forall|j: int| 0 <= j < i ==> slot_holds(slots@, j),
        decreases n - i,
    {
        proof {
            let some_free = free.choose();
            assert(free.contains(some_free));
            assert(slots@[some_free] == slots@.len());
        }
        let start: usize = (hashes[i] % (n as u64)) as usize;
        let slot: usize = first_free(&slots, start);
        let ghost before = slots@;
        slots[slot] = i;
        proof {
            free = free.remove(slot as int);
            assert forall|j: int| 0 <= j < i + 1 implies slot_holds(slots@, j) by {
                if j < i {
                    assert(slot_holds(before, j));
                    let at = choose|at: int| 0 <= at < before.len() && #[trigger] before[at] == j;
                    assert(slots@[at] == j);
                } else {
                    assert(slots@[slot as int] == j);
                }
            }
        }
        i += 1;
    }
    proof {
        assert forall|slot: int| 0 <= slot < n implies #[trigger] slots@[slot] < n by {
            if slots@[slot] == n {
                assert(free.contains(slot));
                free.lemma_len0_is_empty();
            }
        }
    }
    slots
}

/// The pairs of a vector, each string as its characters.
pub open spec fn pairs_view(pairs: Seq<(u32, String)>) -> Seq<(u32, Seq<char>)> {
    Seq::new(pairs.len(), |i: int| (pairs[i].0, pairs[i].1@))
}

/// The bytes that the value of pair `i` is archived as: its characters in
/// UTF-8.
pub open spec fn value_bytes(pairs: Seq<(u32, Seq<char>)>, i: int) -> Seq<u8> {
    encode_utf8(pairs[i].1)
}

/// The number of bytes that the values of the first `count` pairs take.
pub open spec fn payload_len(pairs: Seq<(u32, Seq<char>)>, count: int) -> nat
    decreases count,
{
    if count <= 0 {
        0
    } else {
        payload_len(pairs, count - 1) + value_bytes(pairs, count - 1).len()
    }
}

/// The number of bytes that the archived form of `pairs` takes: the values,
/// one slot and one entry for each pair.
pub open spec fn archived_size(pairs: Seq<(u32, Seq<char>)>) -> int {
    payload_len(pairs, pairs.len() as int) + (BUCKET_SIZE + ENTRY_SIZE) * pairs.len()
}

/// The hashes of the keys, in the order of the pairs.
pub open spec fn hashes_of(pairs: Seq<(u32, Seq<char>)>) -> Seq<u64> {
    Seq::new(pairs.len(), |i: int| key_hash(pairs[i].0))
}

/// Where the value of pair `i` starts in an archived form that starts at
/// `start`.
pub open spec fn value_start(start: int, pairs: Seq<(u32, Seq<char>)>, i: int) -> int {
    start + payload_len(pairs, i)
}

/// Where the bucket array starts: behind the values.
pub open spec fn buckets_start(start: int, pairs: Seq<(u32, Seq<char>)>) -> int {
    start + payload_len(pairs, pairs.len() as int)
}

/// Where the entry array starts: behind the bucket array.
pub open spec fn entries_start(start: int, pairs: Seq<(u32, Seq<char>)>) -> int {
    buckets_start(start, pairs) + BUCKET_SIZE * pairs.len()
}

/// The record of the value of pair `i` in an archived form that starts at
/// `start`.
pub open spec fn value_record(start: int, pairs: Seq<(u32, Seq<char>)>, i: int) -> ArchivedVec {
    ArchivedVec {
        offset: (value_start(start, pairs, i) - (entry_pos(entries_start(start, pairs), i)
            + 8)) as isize,
        len: value_bytes(pairs, i).len() as usize,
    }
}

/// Whether `archive` holds, from `start` on, the archived form of `pairs`,
/// byte for byte: the values one behind the other, then the slots as they
/// are assigned from the hashes of the keys, then the entries.
pub open spec fn map_laid_out(archive: Seq<u8>, start: int, pairs: Seq<(u32, Seq<char>)>) -> bool {
    &&& 0 <= start
    &&& start + archived_size(pairs) <= archive.len()
    &&& forall|i: int|
        0 <= i < pairs.len() ==> archive.subrange(
            value_start(start, pairs, i),
            value_start(start, pairs, i) + value_bytes(pairs, i).len(),
        ) == #[trigger] value_bytes(pairs, i)
    &&& forall|slot: int|
        0 <= slot < pairs.len() ==> #[trigger] bucket_at(
            archive,
            buckets_start(start, pairs),
            slot,
        ) == Some(assigned(hashes_of(pairs), pairs.len() as int)[slot])
    &&& forall|i: int|
        0 <= i < pairs.len() ==> #[trigger] key_at(archive, entries_start(start, pairs), i)
            == Some(pairs[i].0 as u64)
    &&& forall|i: int|
        0 <= i < pairs.len() ==> #[trigger] value_record_at(
            archive,
            entries_start(start, pairs),
            i,
        ) == Some(value_record(start, pairs, i))
}

/// Whether the map whose arrays stand at `buckets_pos` and `entries_pos`
/// holds `pairs`: it can be read and looked up in, and its entries have, in
/// order, the keys and the values of the pairs.
pub open spec fn map_stores(
    archive: Seq<u8>,
    buckets_pos: int,
    entries_pos: int,
    pairs: Seq<(u32, Seq<char>)>,
) -> bool {
    &&& entries_ok(archive, entries_pos, pairs.len() as int)
    &&& buckets_ok(archive, buckets_pos, pairs.len() as int)
    &&& forall|i: int|
        0 <= i < pairs.len() ==> #[trigger] key_at(archive, entries_pos, i) == Some(
            pairs[i].0 as u64,
        )
    &&& forall|i: int|
        0 <= i < pairs.len() ==> #[trigger] value_at(archive, entries_pos, i) == value_bytes(
            pairs,
            i,
        )
}

/// The values of more pairs take no fewer bytes.
pub proof fn lemma_payload_len_grows(pairs: Seq<(u32, Seq<char>)>, fewer: int, more: int)
    requires
        fewer <= more,
    ensures
        payload_len(pairs, fewer) <= payload_len(pairs, more),
    decreases more - fewer,
{
    if fewer < more {
        lemma_payload_len_grows(pairs, fewer, more - 1);
    }
}

/// Appends the bytes of the values, one behind the other.
fn write_values(field: &Vec<(u32, String)>, serializer: &mut Sink)
    requires
        old(serializer).written().len() + payload_len(
            pairs_view(field@),
            field@.len() as int,
        ) <= old(serializer).capacity(),
    ensures
        final(serializer).capacity() == old(serializer).capacity(),
        extends(final(serializer).written(), old(serializer).written()),
        final(serializer).written().len() == old(serializer).written().len() + payload_len(
            pairs_view(field@),
            field@.len() as int,
        ),
        forall|i: int|
            0 <= i < field@.len() ==> final(serializer).written().subrange(
                value_start(old(serializer).written().len() as int, pairs_view(field@), i),
                value_start(old(serializer).written().len() as int, pairs_view(field@), i)
                    + value_bytes(pairs_view(field@), i).len(),
            ) == #[trigger] value_bytes(pairs_view(field@), i),
{
    let ghost pairs = pairs_view(field@);
    let ghost start = serializer.written().len() as int;
    let ghost initial = serializer.written();
    let n: usize = field.len();
    let mut i: usize = 0;
    proof {
        lemma_extends_append(initial, Seq::empty());
        assert(initial + Seq::<u8>::empty() =~= initial);
    }
    while i < n
        invariant
            0 <= i <= n,
            n == field@.len(),
            pairs == pairs_view(field@),
            serializer.capacity() == old(serializer).capacity(),
            start + payload_len(pairs, n as int) <= serializer.capacity(),
            extends(serializer.written(), initial),
            initial.len() == start,
            serializer.written().len() == start + payload_len(pairs, i as int),
            forall|j: int|
                0 <= j < i ==> serializer.written().subrange(
                    value_start(start, pairs, j),
                    value_start(start, pairs, j) + value_bytes(pairs, j).len(),
                ) == #[trigger] value_bytes(pairs, j),
        decreases n - i,
    {
        let bytes: &[u8] = field[i].1.as_str().as_bytes();
        assert(bytes@ == value_bytes(pairs, i as int));
        let ghost before = serializer.written();
        proof {
            lemma_payload_len_grows(pairs, i + 1, n as int);
        }
        match serializer.write(bytes) {
            Ok(()) => {},
            Err(_) => {
                vstd::pervasive::unreached::<()>();
            },
        }
        proof {
            let after = serializer.written();
            lemma_extends_append(before, bytes@);
            lemma_extends_transitive(after, before, initial);
            assert forall|j: int| 0 <= j < i + 1 implies after.subrange(
                value_start(start, pairs, j),
                value_start(start, pairs, j) + value_bytes(pairs, j).len(),
            ) == #[trigger] value_bytes(pairs, j) by {
                if j < i {
                    lemma_payload_len_grows(pairs, j + 1, i as int);
                    lemma_extends_subrange(
                        after,
                        before,
                        value_start(start, pairs, j),
                        value_start(start, pairs, j) + value_bytes(pairs, j).len(),
                    );
                } else {
                    assert(after.subrange(before.len() as int, (before.len() + bytes@.len()) as int)
                        =~= bytes@);
                }
            }
        }
        i += 1;
    }
}

/// Appends the bucket array: for each slot the index of its entry.
fn write_buckets(buckets: &Vec<usize>, serializer: &mut Sink)
    requires
        old(serializer).written().len() + BUCKET_SIZE * buckets@.len() <= old(
            serializer,
        ).capacity(),
    ensures
        final(serializer).capacity() == old(serializer).capacity(),
        extends(final(serializer).written(), old(serializer).written()),
        final(serializer).written().len() == old(serializer).written().len() + BUCKET_SIZE
            * buckets@.len(),
        forall|slot: int|
            0 <= slot < buckets@.len() ==> #[trigger] bucket_at(
                final(serializer).written(),
                old(serializer).written().len() as int,
                slot,
            ) == Some(buckets@[slot]),
{
    let ghost start = serializer.written().len() as int;
    let ghost initial = serializer.written();
    let n: usize = buckets.len();
    let mut slot: usize = 0;
    proof {
        lemma_extends_append(initial, Seq::empty());
        assert(initial + Seq::<u8>::empty() =~= initial);
    }
    while slot < n
        invariant
            0 <= slot <= n,
            n == buckets@.len(),
            serializer.capacity() == old(serializer).capacity(),
            start + BUCKET_SIZE * n <= serializer.capacity(),
            extends(serializer.written(), initial),
            initial.len() == start,
            serializer.written().len() == start + BUCKET_SIZE * slot,
            forall|seen: int|
                0 <= seen < slot ==> #[trigger] bucket_at(serializer.written(), start, seen)
                    == Some(buckets@[seen]),
        decreases n - slot,
    {
        let ghost before = serializer.written();
        let index: u64 = buckets[slot] as u64;
        match write_u64(serializer, index) {
            Ok(()) => {},
            Err(_) => {
                vstd::pervasive::unreached::<()>();
            },
        }
        proof {
            let after = serializer.written();
            lemma_decode_encode(index);
            lemma_extends_append(before, encode_u64(index));
            lemma_extends_transitive(after, before, initial);
            assert forall|seen: int| 0 <= seen < slot + 1 implies #[trigger] bucket_at(
                after,
                start,
                seen,
            ) == Some(buckets@[seen]) by {
                if seen < slot {
                    assert(bucket_at(before, start, seen) == Some(buckets@[seen]));
                    lemma_scalar_at_extended(before, after, start + 8 * seen);
                } else {
                    lemma_scalar_at_appended(before, index, Seq::empty());
                    assert(before + encode_u64(index) + Seq::<u8>::empty() =~= after);
                }
            }
        }
        slot += 1;
    }
}

/// Appends the entry array: for each pair its key and the record of its
/// value, whose bytes start at `values_start` and follow each other.
fn write_entries(field: &Vec<(u32, String)>, values_start: usize, serializer: &mut Sink)
    requires
        old(serializer).written().len() + ENTRY_SIZE * field@.len() <= old(serializer).capacity(),
        old(serializer).written().len() == entries_start(
            values_start as int,
            pairs_view(field@),
        ),
    ensures
        final(serializer).capacity() == old(serializer).capacity(),
        extends(final(serializer).written(), old(serializer).written()),
        final(serializer).written().len() == old(serializer).written().len() + ENTRY_SIZE
            * field@.len(),
        forall|i: int|
            0 <= i < field@.len() ==> #[trigger] key_at(
                final(serializer).written(),
                old(serializer).written().len() as int,
                i,
            ) == Some(pairs_view(field@)[i].0 as u64),
        forall|i: int|
            0 <= i < field@.len() ==> #[trigger] value_record_at(
                final(serializer).written(),
                old(serializer).written().len() as int,
                i,
            ) == Some(value_record(values_start as int, pairs_view(field@), i)),
{
    let ghost pairs = pairs_view(field@);
    let ghost start = serializer.written().len() as int;
    let ghost initial = serializer.written();
    let n: usize = field.len();
    let mut value_pos: usize = values_start;
    let mut i: usize = 0;
    // A sink holds no more than an offset spans, which bounds the offsets below.
    let _: usize = serializer.pos();
    proof {
        lemma_extends_append(initial, Seq::empty());
        assert(initial + Seq::<u8>::empty() =~= initial);
    }
    while i < n
        invariant
            0 <= i <= n,
            n == field@.len(),
            pairs == pairs_view(field@),
            serializer.capacity() == old(serializer).capacity(),
            serializer.capacity() <= isize::MAX,
            start + ENTRY_SIZE * n <= serializer.capacity(),
            start == entries_start(values_start as int, pairs),
            extends(serializer.written(), initial),
            initial.len() == start,
            serializer.written().len() == start + ENTRY_SIZE * i,
            value_pos == value_start(values_start as int, pairs, i as int),
            forall|j: int|
                0 <= j < i ==> #[trigger] key_at(serializer.written(), start, j) == Some(
                    pairs[j].0 as u64,
                ),
            forall|j: int|
                0 <= j < i ==> #[trigger] value_record_at(serializer.written(), start, j) == Some(
                    value_record(values_start as int, pairs, j),
                ),
        decreases n - i,
    {
        let bytes: &[u8] = field[i].1.as_str().as_bytes();
        assert(bytes@ == value_bytes(pairs, i as int));
        proof {
            lemma_payload_len_grows(pairs, i + 1, n as int);
        }
        let ghost before = serializer.written();
        let entry: usize = serializer.pos();
        let key: u64 = field[i].0 as u64;
        let record = ArchivedVec {
            offset: offset_between(entry + 8, value_pos).unwrap(),
            len: bytes.len(),
        };
        assert(record == value_record(values_start as int, pairs, i as int));
        match write_u64(serializer, key) {
            Ok(()) => {},
            Err(_) => {
                vstd::pervasive::unreached::<()>();
            },
        }
        proof {
            lemma_decode_encode(key);
            lemma_decode_encode(crate::scalar::to_unsigned(record.offset as i64));
            lemma_decode_encode(record.len as u64);
        }
        match record.write_record(serializer) {
            Ok(()) => {},
            Err(_) => {
                vstd::pervasive::unreached::<()>();
            },
        }
        proof {
            let after = serializer.written();
            assert(after =~= before + (encode_u64(key) + encode_vec_record(record)));
            lemma_extends_append(before, encode_u64(key) + encode_vec_record(record));
            lemma_extends_transitive(after, before, initial);
            assert forall|j: int| 0 <= j < i + 1 implies #[trigger] key_at(after, start, j)
                == Some(pairs[j].0 as u64) by {
                if j < i {
                    assert(key_at(before, start, j) == Some(pairs[j].0 as u64));
                    lemma_scalar_at_extended(before, after, entry_pos(start, j));
                } else {
                    lemma_scalar_at_appended(before, key, encode_vec_record(record));
                }
            }
            assert forall|j: int| 0 <= j < i + 1 implies #[trigger] value_record_at(
                after,
                start,
                j,
            ) == Some(value_record(values_start as int, pairs, j)) by {
                if j < i {
                    assert(value_record_at(before, start, j) == Some(
                        value_record(values_start as int, pairs, j),
                    ));
                    lemma_vec_record_at_extended(before, after, entry_pos(start, j) + 8);
                } else {
                    lemma_vec_record_at_appended(before + encode_u64(key), record, Seq::empty());
                    assert(before + encode_u64(key) + encode_vec_record(record)
                        + Seq::<u8>::empty() =~= after);
                }
            }
        }
        value_pos += bytes.len();
        i += 1;
    }
}

/// The hashes of the keys, in the order of the pairs.
fn hash_keys(field: &Vec<(u32, String)>) -> (hashes: Vec<u64>)
    ensures
        hashes@ == hashes_of(pairs_view(field@)),
{
    let n: usize = field.len();
    let mut hashes: Vec<u64> = Vec::new();
    let mut i: usize = 0;
    while i < n
        invariant
            0 <= i <= n,
            n == field@.len(),
            hashes@.len() == i,
            forall|j: int| 0 <= j < i ==> hashes@[j] == key_hash(field@[j].0),
        decreases n - i,
    {
        hashes.push(hash_key(field[i].0));
        i += 1;
    }
    assert(hashes@ =~= hashes_of(pairs_view(field@)));
    hashes
}

/// Where the two arrays of a map were written, kept until the position of
/// the record that refers to them is known.
pub struct HashMapResolver {
    buckets_pos: usize,
    entries_pos: usize,
}

impl HashMapResolver {
    #[verifier::type_invariant]
    spec fn inv(&self) -> bool {
        self.buckets_pos <= isize::MAX && self.entries_pos <= isize::MAX
    }

    /// The position of the bucket array.
    pub closed spec fn buckets_position(&self) -> int {
        self.buckets_pos as int
    }

    /// The position of the entry array.
    pub closed spec fn entries_position(&self) -> int {
        self.entries_pos as int
    }

    /// The resolver of the same arrays after they were moved on by `by`;
    /// none where no offset could reach them there.
    pub fn shifted(self, by: usize) -> (r: Option<HashMapResolver>)
        ensures
            r is Some <==> self.buckets_position() + by <= isize::MAX && self.entries_position()
                + by <= isize::MAX,
            r matches Some(moved) ==> {
                &&& moved.buckets_position() == self.buckets_position() + by
                &&& moved.entries_position() == self.entries_position() + by
            },
    {
        proof {
            use_type_invariant(&self);
        }
        if by > isize::MAX as usize - self.buckets_pos || by > isize::MAX as usize
            - self.entries_pos {
            None
        } else {
            Some(
                HashMapResolver {
                    buckets_pos: self.buckets_pos + by,
                    entries_pos: self.entries_pos + by,
                },
            )
        }
    }
}

/// The adapter that archives a vector of pairs with unique keys as a map.
pub struct AsHashMap;

impl AsHashMap {
    /// The room that the archived form of the pairs takes; none where the
    /// number of its bytes is more than a `usize` holds.
    pub fn describe_shape(field: &Vec<(u32, String)>) -> (shape: Option<ArchivedShape>)
        ensures
            shape is Some <==> archived_size(pairs_view(field@)) <= usize::MAX,
            shape matches Some(s) ==> s.payload == archived_size(pairs_view(field@)) && s.record
                == MAP_RECORD_SIZE,
    {
        let ghost pairs = pairs_view(field@);
        let n: usize = field.len();
        if n > usize::MAX / (BUCKET_SIZE + ENTRY_SIZE) {
            return None;
        }
        let mut payload: usize = (BUCKET_SIZE + ENTRY_SIZE) * n;
        let mut i: usize = 0;
        while i < n
            invariant
                0 <= i <= n,
                n == field@.len(),
                pairs == pairs_view(field@),
                payload == (BUCKET_SIZE + ENTRY_SIZE) * n + payload_len(pairs, i as int),
            decreases n - i,
        {
            let bytes: &[u8] = field[i].1.as_str().as_bytes();
            assert(bytes@ == value_bytes(pairs, i as int));
            if bytes.len() > usize::MAX - payload {
                proof {
                    lemma_payload_len_grows(pairs, i + 1, n as int);
                }
                return None;
            }
            payload += bytes.len();
            i += 1;
        }
        Some(ArchivedShape { payload, record: MAP_RECORD_SIZE })
    }

    /// Appends the archived form of the pairs to the sink and returns where
    /// its two arrays start. Fails with `SinkFailure`, and writes nothing,
    /// where it does not fit.
    pub fn serialize_with(field: &Vec<(u32, String)>, serializer: &mut Sink) -> (r: Result<
        HashMapResolver,
        Error,
    >)
        ensures
            final(serializer).capacity() == old(serializer).capacity(),
            r is Ok <==> old(serializer).written().len() + archived_size(pairs_view(field@))
                <= old(serializer).capacity(),
            r matches Ok(resolver) ==> {
                &&& extends(final(serializer).written(), old(serializer).written())
                &&& final(serializer).written().len() == old(serializer).written().len()
                    + archived_size(pairs_view(field@))
                &&& resolver.buckets_position() == buckets_start(
                    old(serializer).written().len() as int,
                    pairs_view(field@),
                )
                &&& resolver.entries_position() == entries_start(
                    old(serializer).written().len() as int,
                    pairs_view(field@),
                )
                &&& map_laid_out(
                    final(serializer).written(),
                    old(serializer).written().len() as int,
                    pairs_view(field@),
                )
                &&& map_stores(
                    final(serializer).written(),
                    resolver.buckets_position(),
                    resolver.entries_position(),
                    pairs_view(field@),
                )
            },
            r matches Err(e) ==> {
                &&& e == Error::SinkFailure
                &&& final(serializer).written() == old(serializer).written()
            },
    {
        let ghost pairs = pairs_view(field@);
        let ghost initial = serializer.written();
        let room: usize = serializer.remaining();
        match Self::describe_shape(field) {
            Some(shape) => {
                if shape.payload > room {
                    return Err(Error::SinkFailure);
                }
            },
            None => {
                return Err(Error::SinkFailure);
            },
        }
        let start: usize = serializer.pos();
        let buckets = assign_buckets(&hash_keys(field));
        write_values(field, serializer);
        let ghost with_values = serializer.written();
        let buckets_pos: usize = serializer.pos();
        write_buckets(&buckets, serializer);
        let ghost with_buckets = serializer.written();
        let entries_pos: usize = serializer.pos();
        write_entries(field, start, serializer);
        proof {
            let archive = serializer.written();
            let n = pairs.len() as int;
            lemma_extends_transitive(archive, with_buckets, with_values);
            lemma_extends_transitive(archive, with_values, initial);
            assert forall|i: int| 0 <= i < n implies archive.subrange(
                value_start(start as int, pairs, i),
                value_start(start as int, pairs, i) + value_bytes(pairs, i).len(),
            ) == #[trigger] value_bytes(pairs, i) by {
                lemma_payload_len_grows(pairs, i + 1, n);
                lemma_extends_subrange(
                    archive,
                    with_values,
                    value_start(start as int, pairs, i),
                    value_start(start as int, pairs, i) + value_bytes(pairs, i).len(),
                );
            }
            assert forall|slot: int| 0 <= slot < n implies #[trigger] bucket_at(
                archive,
                buckets_pos as int,
                slot,
            ) == Some(buckets@[slot]) by {
                assert(bucket_at(with_buckets, buckets_pos as int, slot) == Some(buckets@[slot]));
                lemma_scalar_at_extended(with_buckets, archive, buckets_pos + 8 * slot);
            }
            assert(map_laid_out(archive, start as int, pairs));
            lemma_laid_out_stores(archive, start as int, pairs, buckets@);
        }
        Ok(HashMapResolver { buckets_pos, entries_pos })
    }

    /// Fills in the record of the pairs for a record that stands at `pos`:
    /// the offsets to the two arrays, each from the position of its own
    /// field, and the number of entries.
    pub fn resolve_with(
        field: &Vec<(u32, String)>,
        pos: usize,
        resolver: HashMapResolver,
        out: &mut ArchivedHashMap,
    )
        requires
            pos + MAP_RECORD_SIZE <= isize::MAX,
        ensures
            final(out).len == field@.len(),
            final(out).buckets_pos(pos as int) == resolver.buckets_position(),
            final(out).entries_pos(pos as int) == resolver.entries_position(),
    {
        proof {
            use_type_invariant(&resolver);
        }
        out.buckets = offset_between(pos, resolver.buckets_pos).unwrap();
        out.entries = offset_between(pos + 8, resolver.entries_pos).unwrap();
        out.len = field.len();
    }

    /// Rebuilds the pairs from the entries of the map, in the order in which
    /// they are stored. Fails with `ElementFailure` where an entry cannot be
    /// read, a key is no `u32`, or the bytes of a value are no UTF-8.
    pub fn deserialize_with(field: &ArchivedHashMap, pos: usize, archive: &[u8]) -> (r: Result<
        Vec<(u32, String)>,
        Error,
    >)
        ensures
            r is Ok <==> field.readable(pos as int, archive@) && forall|i: int|
                0 <= i < field.len ==> #[trigger] entry_converts(*field, pos as int, archive@, i),
            r matches Ok(pairs) ==> pairs_view(pairs@) == stored_pairs(
                *field,
                pos as int,
                archive@,
            ),
            r matches Err(e) ==> e == Error::ElementFailure,
    {
        if !field.validate_entries(pos, archive) {
            return Err(Error::ElementFailure);
        }
        let n: usize = field.len;
        let mut pairs: Vec<(u32, String)> = Vec::new();
        let mut i: usize = 0;
        while i < n
            invariant
                0 <= i <= n,
                n == field.len,
                field.readable(pos as int, archive@),
                pairs@.len() == i,
                forall|j: int|
                    0 <= j < i ==> #[trigger] entry_converts(*field, pos as int, archive@, j),
                forall|j: int|
                    0 <= j < i ==> (#[trigger] pairs@[j]).0 == stored_pair(
                        *field,
                        pos as int,
                        archive@,
                        j,
                    ).0 && pairs@[j].1@ == stored_pair(*field, pos as int, archive@, j).1,
            decreases n - i,
        {
            let key: u64 = field.key_of(pos, archive, i);
            if key > u32::MAX as u64 {
                assert(!entry_converts(*field, pos as int, archive@, i as int));
                return Err(Error::ElementFailure);
            }
            let bytes = vstd::slice::slice_to_vec(field.value_of(pos, archive, i));
            match string_from_utf8(bytes) {
                Some(value) => {
                    pairs.push((key as u32, value));
                },
                None => {
                    assert(!entry_converts(*field, pos as int, archive@, i as int));
                    return Err(Error::ElementFailure);
                },
            }
            i += 1;
        }
        assert(pairs_view(pairs@) =~= stored_pairs(*field, pos as int, archive@));
        Ok(pairs)
    }
}

/// `String::from_utf8`: the string whose UTF-8 encoding `bytes` is; none
/// where `bytes` is no UTF-8.
#[verifier::external_body]
fn string_from_utf8(bytes: Vec<u8>) -> (r: Option<String>)
    ensures
        r is Some <==> valid_utf8(bytes@),
        r matches Some(s) ==> s@ == decode_utf8(bytes@),
{
    String::from_utf8(bytes).ok()
}

/// Whether entry `i` can be turned back into a pair: its key is a `u32` and
/// the bytes of its value are UTF-8.
pub open spec fn entry_converts(
    record: ArchivedHashMap,
    pos: int,
    archive: Seq<u8>,
    i: int,
) -> bool {
    &&& record.key(pos, archive, i) <= u32::MAX
    &&& valid_utf8(record.value(pos, archive, i))
}

/// The pair that entry `i` stands for.
pub open spec fn stored_pair(record: ArchivedHashMap, pos: int, archive: Seq<u8>, i: int) -> (
    u32,
    Seq<char>,
) {
    (record.key(pos, archive, i) as u32, decode_utf8(record.value(pos, archive, i)))
}

/// The pairs that the entries stand for, in the order of the entries.
pub open spec fn stored_pairs(record: ArchivedHashMap, pos: int, archive: Seq<u8>) -> Seq<
    (u32, Seq<char>),
> {
    Seq::new(record.len as nat, |i: int| stored_pair(record, pos, archive, i))
}

/// Whether the record, standing at `pos` in `archive`, is the archived form
/// of `pairs`.
pub open spec fn archives(
    record: ArchivedHashMap,
    pos: int,
    archive: Seq<u8>,
    pairs: Seq<(u32, Seq<char>)>,
) -> bool {
    &&& 0 <= pos
    &&& pos + MAP_RECORD_SIZE <= usize::MAX
    &&& record.len == pairs.len()
    &&& map_stores(archive, record.buckets_pos(pos), record.entries_pos(pos), pairs)
}

/// Whether no two pairs have the same key.
pub open spec fn unique_keys(pairs: Seq<(u32, Seq<char>)>) -> bool {
    forall|i: int, j: int|
        0 <= i < pairs.len() && 0 <= j < pairs.len() && i != j ==> pairs[i].0 != pairs[j].0
}

/// A map that holds its pairs goes on holding them when bytes are appended
/// to the archive.
pub proof fn lemma_map_stores_extended(
    archive: Seq<u8>,
    longer: Seq<u8>,
    buckets_pos: int,
    entries_pos: int,
    pairs: Seq<(u32, Seq<char>)>,
)
    requires
        extends(longer, archive),
        map_stores(archive, buckets_pos, entries_pos, pairs),
    ensures
        map_stores(longer, buckets_pos, entries_pos, pairs),
{
    let n = pairs.len() as int;
    assert forall|i: int| 0 <= i < n implies #[trigger] entry_ok(longer, entries_pos, i)
        && key_at(longer, entries_pos, i) == key_at(archive, entries_pos, i) && value_at(
        longer,
        entries_pos,
        i,
    ) == value_at(archive, entries_pos, i) by {
        assert(entry_ok(archive, entries_pos, i));
        lemma_scalar_at_extended(archive, longer, entry_pos(entries_pos, i));
        lemma_vec_record_at_extended(archive, longer, entry_pos(entries_pos, i) + 8);
    }
    assert forall|i: int| 0 <= i < n implies #[trigger] key_at(longer, entries_pos, i) == Some(
        pairs[i].0 as u64,
    ) by {
        assert(entry_ok(longer, entries_pos, i));
        assert(key_at(archive, entries_pos, i) == Some(pairs[i].0 as u64));
    }
    assert forall|i: int| 0 <= i < n implies #[trigger] value_at(longer, entries_pos, i)
        == value_bytes(pairs, i) by {
        assert(entry_ok(longer, entries_pos, i));
        assert(value_at(archive, entries_pos, i) == value_bytes(pairs, i));
    }
    assert forall|slot: int| 0 <= slot < n implies #[trigger] bucket_in_range(
        longer,
        buckets_pos,
        n,
        slot,
    ) && bucket_at(longer, buckets_pos, slot) == bucket_at(archive, buckets_pos, slot) by {
        assert(bucket_in_range(archive, buckets_pos, n, slot));
        lemma_scalar_at_extended(archive, longer, buckets_pos + 8 * slot);
    }
    assert forall|i: int| 0 <= i < n implies #[trigger] bucket_holds(longer, buckets_pos, n, i) by {
        assert(bucket_holds(archive, buckets_pos, n, i));
        let slot = choose|slot: int|
            0 <= slot < n && #[trigger] bucket_at(archive, buckets_pos, slot) == Some(i as usize);
        assert(bucket_in_range(longer, buckets_pos, n, slot));
        assert(bucket_at(longer, buckets_pos, slot) == Some(i as usize));
    }
}

/// A map that holds its pairs goes on holding them when its arrays and the
/// archive are moved on together.
pub proof fn lemma_map_stores_relocated(
    archive: Seq<u8>,
    prefix: Seq<u8>,
    buckets_pos: int,
    entries_pos: int,
    pairs: Seq<(u32, Seq<char>)>,
)
    requires
        map_stores(archive, buckets_pos, entries_pos, pairs),
    ensures
        map_stores(prefix + archive, prefix.len() + buckets_pos, prefix.len() + entries_pos, pairs),
{
    let n = pairs.len() as int;
    let moved = prefix + archive;
    let by = prefix.len() as int;
    assert forall|i: int| 0 <= i < n implies #[trigger] entry_ok(moved, by + entries_pos, i)
        && key_at(moved, by + entries_pos, i) == key_at(archive, entries_pos, i) && value_at(
        moved,
        by + entries_pos,
        i,
    ) == value_at(archive, entries_pos, i) by {
        assert(entry_ok(archive, entries_pos, i));
        lemma_scalar_at_shifted(prefix, archive, entry_pos(entries_pos, i));
        lemma_vec_record_at_shifted(prefix, archive, entry_pos(entries_pos, i) + 8);
    }
    assert forall|i: int| 0 <= i < n implies #[trigger] key_at(moved, by + entries_pos, i)
        == Some(pairs[i].0 as u64) by {
        assert(entry_ok(moved, by + entries_pos, i));
        assert(key_at(archive, entries_pos, i) == Some(pairs[i].0 as u64));
    }
    assert forall|i: int| 0 <= i < n implies #[trigger] value_at(moved, by + entries_pos, i)
        == value_bytes(pairs, i) by {
        assert(entry_ok(moved, by + entries_pos, i));
        assert(value_at(archive, entries_pos, i) == value_bytes(pairs, i));
    }
    assert forall|slot: int| 0 <= slot < n implies #[trigger] bucket_in_range(
        moved,
        by + buckets_pos,
        n,
        slot,
    ) && bucket_at(moved, by + buckets_pos, slot) == bucket_at(archive, buckets_pos, slot) by {
        assert(bucket_in_range(archive, buckets_pos, n, slot));
        lemma_scalar_at_shifted(prefix, archive, buckets_pos + 8 * slot);
    }
    assert forall|i: int| 0 <= i < n implies #[trigger] bucket_holds(
        moved,
        by + buckets_pos,
        n,
        i,
    ) by {
        assert(bucket_holds(archive, buckets_pos, n, i));
        let slot = choose|slot: int|
            0 <= slot < n && #[trigger] bucket_at(archive, buckets_pos, slot) == Some(i as usize);
        assert(bucket_in_range(moved, by + buckets_pos, n, slot));
        assert(bucket_at(moved, by + buckets_pos, slot) == Some(i as usize));
    }
}

/// Round trip: the archived form of pairs can be read, every entry of it can
/// be turned back into a pair, and the pairs that come back are the pairs
/// that went in, each as often as it went in and in the same order.
pub proof fn lemma_map_round_trip(
    record: ArchivedHashMap,
    pos: int,
    archive: Seq<u8>,
    pairs: Seq<(u32, Seq<char>)>,
)
    requires
        archives(record, pos, archive, pairs),
    ensures
        record.wf(pos, archive),
        forall|i: int| 0 <= i < record.len ==> #[trigger] entry_converts(record, pos, archive, i),
        stored_pairs(record, pos, archive) == pairs,
        stored_pairs(record, pos, archive).to_multiset() == pairs.to_multiset(),
{
    let entries_pos = record.entries_pos(pos);
    assert forall|i: int| 0 <= i < record.len implies #[trigger] entry_converts(
        record,
        pos,
        archive,
        i,
    ) && stored_pair(record, pos, archive, i) == pairs[i] by {
        assert(key_at(archive, entries_pos, i) == Some(pairs[i].0 as u64));
        assert(value_at(archive, entries_pos, i) == value_bytes(pairs, i));
        encode_utf8_valid_utf8(pairs[i].1);
        encode_utf8_decode_utf8(pairs[i].1);
    }
    assert forall|i: int| 0 <= i < record.len implies #[trigger] stored_pairs(
        record,
        pos,
        archive,
    )[i] == pairs[i] by {
        assert(entry_converts(record, pos, archive, i));
    }
    assert(stored_pairs(record, pos, archive) =~= pairs);
}

/// Lookup in the archived form of pairs: a key that no pair has is not
/// found, and what is found for a key is the value of a pair with that key.
pub proof fn lemma_map_lookup(
    record: ArchivedHashMap,
    pos: int,
    archive: Seq<u8>,
    pairs: Seq<(u32, Seq<char>)>,
    key: u32,
)
    requires
        archives(record, pos, archive, pairs),
    ensures
        record.lookup(pos, archive, key) is None <==> forall|i: int|
            0 <= i < pairs.len() ==> (#[trigger] pairs[i]).0 != key,
        record.lookup(pos, archive, key) matches Some(bytes) ==> exists|i: int|
            0 <= i < pairs.len() && (#[trigger] pairs[i]).0 == key && bytes == value_bytes(
                pairs,
                i,
            ),
{
    let entries_pos = record.entries_pos(pos);
    record.lemma_find(pos, archive, key, key_hash(key));
    assert forall|i: int| 0 <= i < pairs.len() implies (record.key(pos, archive, i) == key
        <==> (#[trigger] pairs[i]).0 == key) by {
        assert(key_at(archive, entries_pos, i) == Some(pairs[i].0 as u64));
    }
    match record.find(pos, archive, key, key_hash(key)) {
        Some(i) => {
            assert(pairs[i].0 == key);
            assert(value_at(archive, entries_pos, i) == value_bytes(pairs, i));
        },
        None => {
            assert forall|i: int| 0 <= i < pairs.len() implies (#[trigger] pairs[i]).0 != key by {
                assert(record.key(pos, archive, i) != key);
            }
        },
    }
}

/// Lookup where the keys are unique: the key of every pair is found, with
/// the value of that pair.
pub proof fn lemma_map_lookup_unique(
    record: ArchivedHashMap,
    pos: int,
    archive: Seq<u8>,
    pairs: Seq<(u32, Seq<char>)>,
    i: int,
)
    requires
        archives(record, pos, archive, pairs),
        unique_keys(pairs),
        0 <= i < pairs.len(),
    ensures
        record.lookup(pos, archive, pairs[i].0) == Some(value_bytes(pairs, i)),
{
    lemma_map_lookup(record, pos, archive, pairs, pairs[i].0);
}

/// Archiving again: where pairs were rebuilt from one archive and archived
/// into another, both archives stand for the same pairs, and where the keys
/// are unique a lookup gives the same in both.
pub proof fn lemma_map_rearchived(
    rebuilt: Seq<(u32, Seq<char>)>,
    first: ArchivedHashMap,
    first_pos: int,
    first_archive: Seq<u8>,
    second: ArchivedHashMap,
    second_pos: int,
    second_archive: Seq<u8>,
    key: u32,
)
    requires
        first.wf(first_pos, first_archive),
        forall|i: int|
            0 <= i < first.len ==> #[trigger] entry_converts(first, first_pos, first_archive, i),
        rebuilt == stored_pairs(first, first_pos, first_archive),
        archives(second, second_pos, second_archive, rebuilt),
    ensures
        stored_pairs(second, second_pos, second_archive) == stored_pairs(
            first,
            first_pos,
            first_archive,
        ),
        unique_keys(rebuilt) ==> second.lookup(second_pos, second_archive, key) == first.lookup(
            first_pos,
            first_archive,
            key,
        ),
{
    lemma_map_round_trip(second, second_pos, second_archive, rebuilt);
    if unique_keys(rebuilt) {
        lemma_stored_archives(first, first_pos, first_archive);
        lemma_map_lookup(first, first_pos, first_archive, rebuilt, key);
        lemma_map_lookup(second, second_pos, second_archive, rebuilt, key);
    }
}

/// A map that can be looked up in and whose entries convert is the archived
/// form of the pairs that its entries stand for.
pub proof fn lemma_stored_archives(record: ArchivedHashMap, pos: int, archive: Seq<u8>)
    requires
        record.wf(pos, archive),
        forall|i: int| 0 <= i < record.len ==> #[trigger] entry_converts(record, pos, archive, i),
    ensures
        archives(record, pos, archive, stored_pairs(record, pos, archive)),
{
    let pairs = stored_pairs(record, pos, archive);
    let entries_pos = record.entries_pos(pos);
    assert forall|i: int| 0 <= i < pairs.len() implies #[trigger] key_at(archive, entries_pos, i)
        == Some(pairs[i].0 as u64) && #[trigger] value_at(archive, entries_pos, i)
        == value_bytes(pairs, i) by {
        assert(entry_converts(record, pos, archive, i));
        assert(entry_ok(archive, entries_pos, i));
        vstd::utf8::decode_utf8_encode_utf8(record.value(pos, archive, i));
    }
}

/// The empty vector is archived as a map without entries, in which no key
/// is found.
pub proof fn lemma_empty_map(record: ArchivedHashMap, pos: int, archive: Seq<u8>, key: u32)
    requires
        archives(record, pos, archive, Seq::<(u32, Seq<char>)>::empty()),
    ensures
        record.len == 0,
        record.wf(pos, archive),
        record.lookup(pos, archive, key) is None,
        stored_pairs(record, pos, archive) == Seq::<(u32, Seq<char>)>::empty(),
{
    assert(stored_pairs(record, pos, archive) =~= Seq::<(u32, Seq<char>)>::empty());
}

/// In a map that is laid out, every entry can be read and has the bytes of
/// its pair's value.
proof fn lemma_laid_out_entry(archive: Seq<u8>, start: int, pairs: Seq<(u32, Seq<char>)>, i: int)
    requires
        map_laid_out(archive, start, pairs),
        archive.len() <= isize::MAX,
        0 <= i < pairs.len(),
    ensures
        entry_ok(archive, entries_start(start, pairs), i),
        value_at(archive, entries_start(start, pairs), i) == value_bytes(pairs, i),
{
    let n = pairs.len() as int;
    let entries_pos = entries_start(start, pairs);
    let record = value_record(start, pairs, i);
    let from = value_start(start, pairs, i);
    lemma_payload_len_grows(pairs, i + 1, n);
    lemma_payload_len_grows(pairs, 0, i);
    assert(key_at(archive, entries_pos, i) == Some(pairs[i].0 as u64));
    assert(value_record_at(archive, entries_pos, i) == Some(record));
    assert(archive.subrange(from, from + value_bytes(pairs, i).len()) == value_bytes(pairs, i));
    assert(0 <= from);
    assert(from + value_bytes(pairs, i).len() <= archive.len());
    assert(entry_pos(entries_pos, i) + 8 + record.offset == from);
    assert(record.len == value_bytes(pairs, i).len());
}

/// A map that is laid out with sound buckets holds its pairs.
proof fn lemma_laid_out_stores(
    archive: Seq<u8>,
    start: int,
    pairs: Seq<(u32, Seq<char>)>,
    buckets: Seq<usize>,
)
    requires
        map_laid_out(archive, start, pairs),
        buckets == assigned(hashes_of(pairs), pairs.len() as int),
        buckets.len() == pairs.len(),
        is_assignment(buckets),
        archive.len() <= isize::MAX,
    ensures
        map_stores(archive, buckets_start(start, pairs), entries_start(start, pairs), pairs),
{
    let n = pairs.len() as int;
    let buckets_pos = buckets_start(start, pairs);
    let entries_pos = entries_start(start, pairs);
    assert forall|i: int| 0 <= i < n implies #[trigger] entry_ok(archive, entries_pos, i) by {
        lemma_laid_out_entry(archive, start, pairs, i);
    }
    assert forall|i: int| 0 <= i < n implies #[trigger] value_at(archive, entries_pos, i)
        == value_bytes(pairs, i) by {
        lemma_laid_out_entry(archive, start, pairs, i);
    }
    assert forall|slot: int| 0 <= slot < n implies #[trigger] bucket_in_range(
        archive,
        buckets_pos,
        n,
        slot,
    ) by {
        assert(bucket_at(archive, buckets_pos, slot) == Some(buckets[slot]));
    }
    assert forall|i: int| 0 <= i < n implies #[trigger] bucket_holds(
        archive,
        buckets_pos,
        n,
        i,
    ) by {
        assert(slot_holds(buckets, i));
        let slot = choose|slot: int| 0 <= slot < buckets.len() && #[trigger] buckets[slot] == i;
        assert(bucket_at(archive, buckets_pos, slot) == Some(i as usize));
    }
}

} // verus!
