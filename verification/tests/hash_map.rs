use rkyv_wrappers::hash_map::ArchivedHashMap;

fn put(buffer: &mut Vec<u8>, value: u64) {
    buffer.extend_from_slice(&value.to_le_bytes());
}

/// Two entries with the keys 4 and 6 and the values "x" and "yz"; the slots
/// hold the entries as given.
fn small_map(slots: [u64; 2]) -> (Vec<u8>, usize, ArchivedHashMap) {
    let mut buffer = Vec::new();
    buffer.extend_from_slice("xyz".as_bytes());
    let buckets_pos = buffer.len();
    put(&mut buffer, slots[0]);
    put(&mut buffer, slots[1]);
    let entries_pos = buffer.len();
    put(&mut buffer, 4);
    put(&mut buffer, (0i64 - (entries_pos as i64 + 8)) as u64);
    put(&mut buffer, 1);
    put(&mut buffer, 6);
    put(&mut buffer, (1i64 - (entries_pos as i64 + 32)) as u64);
    put(&mut buffer, 2);
    let pos = buffer.len();
    let record = ArchivedHashMap {
        buckets: buckets_pos as isize - pos as isize,
        entries: entries_pos as isize - (pos as isize + 8),
        len: 2,
    };
    (buffer, pos, record)
}

#[test]
fn hand_made_map_is_read() {
    let (buffer, pos, record) = small_map([1, 0]);
    assert!(record.validate(pos, &buffer));
    assert_eq!(record.bucket_of(pos, &buffer, 0), 1);
    assert_eq!(record.bucket_of(pos, &buffer, 1), 0);
    assert_eq!(record.key_of(pos, &buffer, 0), 4);
    assert_eq!(record.key_of(pos, &buffer, 1), 6);
    assert_eq!(record.value_of(pos, &buffer, 0), "x".as_bytes());
    assert_eq!(record.value_of(pos, &buffer, 1), "yz".as_bytes());
    assert_eq!(record.get(pos, &buffer, 4), Some("x".as_bytes()));
    assert_eq!(record.get(pos, &buffer, 6), Some("yz".as_bytes()));
    assert_eq!(record.get(pos, &buffer, 5), None);
    assert_eq!(record.get_with_hash(pos, &buffer, 6, 0), Some("yz".as_bytes()));
    assert_eq!(record.get_with_hash(pos, &buffer, 6, 1), Some("yz".as_bytes()));
}

#[test]
fn validate_rejects_a_slot_that_holds_no_entry() {
    let (buffer, pos, record) = small_map([0, 2]);
    assert!(record.validate_entries(pos, &buffer));
    assert!(!record.validate_buckets(pos, &buffer));
    assert!(!record.validate(pos, &buffer));
}

#[test]
fn validate_rejects_an_entry_that_is_in_no_slot() {
    let (buffer, pos, record) = small_map([1, 1]);
    assert!(record.validate_entries(pos, &buffer));
    assert!(!record.validate_buckets(pos, &buffer));
    assert!(!record.validate(pos, &buffer));
}

#[test]
fn validate_rejects_arrays_outside_the_archive() {
    let (buffer, pos, record) = small_map([0, 1]);
    assert!(record.validate(pos, &buffer));
    let longer = ArchivedHashMap { len: 3, ..record };
    assert!(!longer.validate_entries(pos, &buffer));
    assert!(!longer.validate(pos, &buffer));
    let before = ArchivedHashMap { buckets: record.buckets - 4, ..record };
    assert!(!before.validate_buckets(pos, &buffer));
    let early = ArchivedHashMap { entries: -(pos as isize) - 9, ..record };
    assert!(!early.validate_entries(pos, &buffer));
    assert!(!record.validate(usize::MAX - 8, &buffer));
}

#[test]
fn validate_rejects_a_value_outside_the_archive() {
    let (mut buffer, pos, record) = small_map([0, 1]);
    // The length of the second value.
    let len_pos = pos - 8;
    buffer[len_pos] = 200;
    assert!(!record.validate_entries(pos, &buffer));
}

#[test]
fn map_without_entries_is_sound_anywhere() {
    let record = ArchivedHashMap::new();
    assert_eq!(record, ArchivedHashMap { buckets: 0, entries: 0, len: 0 });
    assert!(record.validate(0, &[]));
    assert!(record.is_empty());
    assert_eq!(record.get(0, &[], 1), None);
}
