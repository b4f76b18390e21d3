use rkyv::collections::hash_index::HashBuilder;
use rkyv_wrappers::as_hashmap::{assign_buckets, AsHashMap};
use rkyv_wrappers::error::Error;
use rkyv_wrappers::hash_map::ArchivedHashMap;
use rkyv_wrappers::sink::Sink;
use std::hash::{Hash, Hasher};

fn pairs_of(items: &[(u32, &str)]) -> Vec<(u32, String)> {
    items.iter().map(|(k, v)| (*k, String::from(*v))).collect()
}

fn archive_map(pairs: &Vec<(u32, String)>, sink: &mut Sink) -> (usize, ArchivedHashMap) {
    let resolver = AsHashMap::serialize_with(pairs, sink).unwrap();
    let pos = sink.pos();
    let mut record = ArchivedHashMap::new();
    AsHashMap::resolve_with(pairs, pos, resolver, &mut record);
    (pos, record)
}

fn hash_of(key: u32) -> u64 {
    let mut hasher = HashBuilder::new();
    key.hash(&mut hasher);
    hasher.finish()
}

fn scalar(bytes: &[u8], pos: usize) -> u64 {
    let mut word = [0u8; 8];
    word.copy_from_slice(&bytes[pos..pos + 8]);
    u64::from_le_bytes(word)
}

#[test]
fn struct_with_hashmap() {
    let mut serializer = Sink::with_capacity(4096);
    let original = vec![(1, String::from("a")), (2, String::from("b"))];
    let resolver = AsHashMap::serialize_with(&original, &mut serializer).unwrap();
    let pos = serializer.pos();
    let mut output = ArchivedHashMap::new();
    AsHashMap::resolve_with(&original, pos, resolver, &mut output);
    let buffer = serializer.into_bytes();

    assert!(output.validate(pos, &buffer));
    assert_eq!(output.get(pos, &buffer, 1).unwrap(), "a".as_bytes());

    let deserialized = AsHashMap::deserialize_with(&output, pos, &buffer).unwrap();
    assert_eq!(deserialized, original);
}

#[test]
fn map_lookup_finds_every_key_and_no_other() {
    let original = pairs_of(&[(1, "a"), (2, "b")]);
    let mut sink = Sink::with_capacity(4096);
    let (pos, record) = archive_map(&original, &mut sink);
    let buffer = sink.into_bytes();
    assert!(record.validate(pos, &buffer));
    assert_eq!(record.len(), 2);
    assert_eq!(record.get(pos, &buffer, 1), Some("a".as_bytes()));
    assert_eq!(record.get(pos, &buffer, 2), Some("b".as_bytes()));
    assert_eq!(record.get(pos, &buffer, 3), None);
    assert!(record.contains_key(pos, &buffer, 2));
    assert!(!record.contains_key(pos, &buffer, 0));
    // The same lookup again gives the same.
    assert_eq!(record.get(pos, &buffer, 1), record.get(pos, &buffer, 1));
    assert_eq!(record.get(pos, &buffer, 3), record.get(pos, &buffer, 3));
}

#[test]
fn map_round_trips_many_pairs() {
    let original: Vec<(u32, String)> =
        (0..200u32).map(|i| (i * 7919 % 1000, format!("value {}", i))).collect();
    let mut sink = Sink::with_capacity(1 << 16);
    let (pos, record) = archive_map(&original, &mut sink);
    let buffer = sink.into_bytes();
    assert!(record.validate(pos, &buffer));
    for (key, value) in original.iter() {
        assert_eq!(record.get(pos, &buffer, *key), Some(value.as_bytes()));
    }
    for missing in 1000..1100u32 {
        assert_eq!(record.get(pos, &buffer, missing), None);
    }
    let rebuilt = AsHashMap::deserialize_with(&record, pos, &buffer).unwrap();
    assert_eq!(rebuilt, original);
}

#[test]
fn map_layout_is_values_then_buckets_then_entries() {
    let original = pairs_of(&[(7, "hello"), (9, ""), (8, "yo")]);
    let mut sink = Sink::with_capacity(256);
    sink.write(&[0xee; 3]).unwrap();
    let (pos, record) = archive_map(&original, &mut sink);
    let buffer = sink.into_bytes();

    // 7 bytes of values, 3 slots of 8 bytes, 3 entries of 24 bytes.
    assert_eq!(pos, 3 + 7 + 3 * 8 + 3 * 24);
    assert_eq!(buffer.len(), pos);
    assert_eq!(&buffer[3..10], "helloyo".as_bytes());
    let buckets_pos = 10;
    let entries_pos = 34;
    assert_eq!(record.len, 3);
    assert_eq!(record.buckets, buckets_pos as isize - pos as isize);
    assert_eq!(record.entries, entries_pos as isize - (pos as isize + 8));

    let hashes: Vec<u64> = original.iter().map(|(k, _)| hash_of(*k)).collect();
    let expected = assign_buckets(&hashes);
    for slot in 0..3 {
        assert_eq!(scalar(&buffer, buckets_pos + 8 * slot), expected[slot] as u64);
        assert_eq!(record.bucket_of(pos, &buffer, slot), expected[slot]);
    }

    let starts = [3u64, 8, 8];
    let lens = [5u64, 0, 2];
    for i in 0..3 {
        let entry = entries_pos + 24 * i;
        assert_eq!(scalar(&buffer, entry), original[i].0 as u64);
        let offset = scalar(&buffer, entry + 8) as i64;
        assert_eq!(offset, starts[i] as i64 - (entry as i64 + 8));
        assert_eq!(scalar(&buffer, entry + 16), lens[i]);
        assert_eq!(record.key_of(pos, &buffer, i), original[i].0 as u64);
        assert_eq!(record.value_of(pos, &buffer, i), original[i].1.as_bytes());
    }
}

#[test]
fn map_buckets_follow_the_hashes_of_the_keys() {
    let keys: Vec<u32> = (0..16u32).collect();
    let original: Vec<(u32, String)> = keys.iter().map(|k| (*k, String::new())).collect();
    let mut sink = Sink::with_capacity(1024);
    let (pos, record) = archive_map(&original, &mut sink);
    let buffer = sink.into_bytes();
    let stored: Vec<usize> = (0..16).map(|slot| record.bucket_of(pos, &buffer, slot)).collect();

    let hashed = assign_buckets(&keys.iter().map(|k| hash_of(*k)).collect());
    assert_eq!(stored, hashed);
    // The slots do not follow the keys themselves.
    let unhashed = assign_buckets(&keys.iter().map(|k| *k as u64).collect());
    assert_eq!(unhashed, (0..16usize).collect::<Vec<usize>>());
    assert_ne!(stored, unhashed);
}

#[test]
fn assign_buckets_takes_the_first_free_slot() {
    // Five slots. Hashes point at 2, 2, 4, 4, 2.
    let buckets = assign_buckets(&vec![2, 7, 4, 9, 12]);
    // Entry 0 in slot 2, entry 1 in slot 3, entry 2 in slot 4,
    // entry 3 round the end in slot 0, entry 4 in slot 1.
    assert_eq!(buckets, vec![3, 4, 0, 1, 2]);
    assert_eq!(assign_buckets(&Vec::new()), Vec::<usize>::new());
    assert_eq!(assign_buckets(&vec![u64::MAX]), vec![0]);
}

#[test]
fn get_with_hash_searches_from_the_slot_of_the_hash() {
    let original = pairs_of(&[(5, "first"), (5, "second"), (6, "other")]);
    let mut sink = Sink::with_capacity(512);
    let (pos, record) = archive_map(&original, &mut sink);
    let buffer = sink.into_bytes();
    assert!(record.validate(pos, &buffer));
    // Whatever the hash, a key that is there is found and one that is not
    // there is not.
    for hash in 0..6u64 {
        assert_eq!(record.get_with_hash(pos, &buffer, 6, hash), Some("other".as_bytes()));
        assert_eq!(record.get_with_hash(pos, &buffer, 4, hash), None);
        let found = record.get_with_hash(pos, &buffer, 5, hash).unwrap();
        assert!(found == "first".as_bytes() || found == "second".as_bytes());
    }
    // The search starts at the slot of the hash: the entry in that slot wins.
    for slot in 0..3usize {
        let entry = record.bucket_of(pos, &buffer, slot);
        if original[entry].0 == 5 {
            assert_eq!(
                record.get_with_hash(pos, &buffer, 5, slot as u64),
                Some(original[entry].1.as_bytes())
            );
        }
    }
}

#[test]
fn map_with_duplicate_keys_keeps_both_pairs() {
    let original = pairs_of(&[(5, "first"), (5, "second")]);
    let mut sink = Sink::with_capacity(512);
    let (pos, record) = archive_map(&original, &mut sink);
    let buffer = sink.into_bytes();
    let found = record.get(pos, &buffer, 5).unwrap();
    assert!(found == "first".as_bytes() || found == "second".as_bytes());
    assert_eq!(AsHashMap::deserialize_with(&record, pos, &buffer).unwrap(), original);
}

#[test]
fn empty_map_has_no_entry() {
    let original: Vec<(u32, String)> = Vec::new();
    let mut sink = Sink::with_capacity(0);
    let (pos, record) = archive_map(&original, &mut sink);
    let buffer = sink.into_bytes();
    assert_eq!(pos, 0);
    assert!(buffer.is_empty());
    assert_eq!(record.len(), 0);
    assert!(record.is_empty());
    assert!(record.validate(pos, &buffer));
    for key in [0u32, 1, 2, u32::MAX] {
        assert_eq!(record.get(pos, &buffer, key), None);
    }
    assert_eq!(AsHashMap::deserialize_with(&record, pos, &buffer).unwrap(), original);
}

#[test]
fn map_serialize_fails_when_the_sink_is_full() {
    let original = pairs_of(&[(1, "a"), (2, "b")]);
    // Two bytes of values and two times 32 bytes of slots and entries.
    let mut exact = Sink::with_capacity(66);
    assert!(AsHashMap::serialize_with(&original, &mut exact).is_ok());
    assert_eq!(exact.pos(), 66);

    let mut short = Sink::with_capacity(65);
    let result = AsHashMap::serialize_with(&original, &mut short);
    assert_eq!(result.err(), Some(Error::SinkFailure));
    assert_eq!(short.pos(), 0);
}

#[test]
fn map_record_is_relative_to_its_position() {
    let original = pairs_of(&[(10, "ten"), (20, "twenty"), (30, "thirty")]);
    let mut sink = Sink::with_capacity(512);
    let (pos, record) = archive_map(&original, &mut sink);
    let buffer = sink.into_bytes();

    let mut moved = vec![0xabu8; 13];
    moved.extend_from_slice(&buffer);
    moved.extend_from_slice(&[1, 2, 3]);
    assert!(record.validate(pos + 13, &moved));
    assert_eq!(record.get(pos + 13, &moved, 20), Some("twenty".as_bytes()));
    assert_eq!(AsHashMap::deserialize_with(&record, pos + 13, &moved).unwrap(), original);
    // At another position the record refers elsewhere.
    assert!(!record.validate(pos + 200, &moved));
}

#[test]
fn rearchived_map_stands_for_the_same_pairs() {
    let original = pairs_of(&[(3, "three"), (1, "one"), (2, "two")]);
    let mut first = Sink::with_capacity(512);
    let (first_pos, first_record) = archive_map(&original, &mut first);
    let first_buffer = first.into_bytes();
    let rebuilt = AsHashMap::deserialize_with(&first_record, first_pos, &first_buffer).unwrap();

    let mut second = Sink::with_capacity(512);
    second.write(&[0; 5]).unwrap();
    let (second_pos, second_record) = archive_map(&rebuilt, &mut second);
    let second_buffer = second.into_bytes();
    assert_ne!(first_buffer, second_buffer);
    assert_eq!(
        AsHashMap::deserialize_with(&second_record, second_pos, &second_buffer).unwrap(),
        original
    );
    for key in 0..5u32 {
        assert_eq!(
            second_record.get(second_pos, &second_buffer, key),
            first_record.get(first_pos, &first_buffer, key)
        );
    }
}

#[test]
fn map_deserialize_fails_on_a_value_that_is_no_utf8() {
    let original = pairs_of(&[(1, "a"), (2, "b")]);
    let mut sink = Sink::with_capacity(512);
    let (pos, record) = archive_map(&original, &mut sink);
    let mut buffer = sink.into_bytes();
    // The values are the first two bytes.
    buffer[1] = 0xff;
    assert!(record.validate(pos, &buffer));
    assert_eq!(record.get(pos, &buffer, 2), Some(&[0xffu8][..]));
    assert_eq!(
        AsHashMap::deserialize_with(&record, pos, &buffer).err(),
        Some(Error::ElementFailure)
    );
}

#[test]
fn map_deserialize_fails_on_a_key_that_is_no_u32() {
    let original = pairs_of(&[(1, "a")]);
    let mut sink = Sink::with_capacity(512);
    let (pos, record) = archive_map(&original, &mut sink);
    let mut buffer = sink.into_bytes();
    // One byte of value, one slot, then the entry with its key first.
    let key_pos = 1 + 8;
    assert_eq!(scalar(&buffer, key_pos), 1);
    buffer[key_pos + 4] = 1;
    assert!(record.validate(pos, &buffer));
    assert_eq!(
        AsHashMap::deserialize_with(&record, pos, &buffer).err(),
        Some(Error::ElementFailure)
    );
}

#[test]
fn map_deserialize_fails_on_entries_outside_the_archive() {
    let buffer = vec![0u8; 16];
    let record = ArchivedHashMap { buckets: -16, entries: -24, len: 1 };
    assert!(!record.validate_entries(16, &buffer));
    assert_eq!(
        AsHashMap::deserialize_with(&record, 16, &buffer).err(),
        Some(Error::ElementFailure)
    );
}
