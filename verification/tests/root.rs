use rkyv_wrappers::as_hashmap::AsHashMap;
use rkyv_wrappers::bitvec::{ArchivedBitVec, BitVec, BitVecWrapper};
use rkyv_wrappers::error::Error;
use rkyv_wrappers::hash_map::ArchivedHashMap;
use rkyv_wrappers::root::{
    archive_bit_vec, archive_pairs, lookup_pair, restore_bit_vec, restore_pairs,
};
use rkyv_wrappers::shape::ArchivedShape;
use rkyv_wrappers::sink::Sink;
use rkyv_wrappers::vec::ArchivedVec;

fn five_bits() -> BitVec {
    let mut bits = BitVec::try_from_vec(vec![0b0001_1101]).unwrap();
    bits.truncate(5);
    bits
}

#[test]
fn bit_vec_archived_on_its_own_comes_back() {
    let original = five_bits();
    let mut sink = Sink::with_capacity(4096);
    let pos = archive_bit_vec(&original, &mut sink).unwrap();
    let buffer = sink.into_bytes();
    assert_eq!(pos, 1);
    assert_eq!(buffer.len(), 25);
    assert_eq!(
        ArchivedBitVec::read(&buffer, pos),
        Some(ArchivedBitVec { inner: ArchivedVec { offset: -1, len: 1 }, bit_len: 5 })
    );
    let rebuilt = restore_bit_vec(&buffer, pos).unwrap();
    assert_eq!(rebuilt.len(), 5);
    for (i, bit) in [true, false, true, true, true].iter().enumerate() {
        assert_eq!(rebuilt.get(i), Some(*bit));
    }
    assert_eq!(rebuilt.get(5), None);
}

#[test]
fn bit_vec_archive_needs_room_for_words_and_record() {
    let original = five_bits();
    assert_eq!(
        BitVecWrapper::describe_shape(&original),
        ArchivedShape { payload: 1, record: 24 }
    );
    let mut short = Sink::with_capacity(24);
    assert_eq!(archive_bit_vec(&original, &mut short), Err(Error::SinkFailure));
    assert_eq!(short.pos(), 0);
    let mut exact = Sink::with_capacity(25);
    assert_eq!(archive_bit_vec(&original, &mut exact), Ok(1));
}

#[test]
fn bit_vec_restore_fails_without_a_record() {
    assert_eq!(restore_bit_vec(&[0; 23], 0).err(), Some(Error::ElementFailure));
    assert_eq!(restore_bit_vec(&[0; 24], 1).err(), Some(Error::ElementFailure));
    // A record of no words and no bits.
    assert_eq!(restore_bit_vec(&[0; 24], 0).unwrap().len(), 0);
    // A record of no words and one bit.
    let mut broken = vec![0u8; 24];
    broken[16] = 1;
    assert_eq!(restore_bit_vec(&broken, 0).err(), Some(Error::ElementFailure));
}

#[test]
fn bit_vec_record_is_read_where_it_was_written() {
    let record = ArchivedBitVec { inner: ArchivedVec { offset: -9, len: 2 }, bit_len: 13 };
    let mut sink = Sink::with_capacity(64);
    sink.write(&[1, 2]).unwrap();
    record.write_record(&mut sink).unwrap();
    let buffer = sink.into_bytes();
    assert_eq!(&buffer[2..10], &(-9i64).to_le_bytes());
    assert_eq!(&buffer[10..18], &2u64.to_le_bytes());
    assert_eq!(&buffer[18..26], &13u64.to_le_bytes());
    assert_eq!(ArchivedBitVec::read(&buffer, 2), Some(record));
    assert_eq!(ArchivedBitVec::read(&buffer, 3), None);
    let mut short = Sink::with_capacity(23);
    assert_eq!(record.write_record(&mut short), Err(Error::SinkFailure));
}

#[test]
fn pairs_archived_on_their_own_come_back() {
    let original = vec![(1, String::from("a")), (2, String::from("b"))];
    let mut sink = Sink::with_capacity(4096);
    let pos = archive_pairs(&original, &mut sink).unwrap();
    let buffer = sink.into_bytes();
    assert_eq!(pos, 66);
    assert_eq!(buffer.len(), 90);
    assert_eq!(lookup_pair(&buffer, pos, 1), Ok(Some("a".as_bytes())));
    assert_eq!(lookup_pair(&buffer, pos, 2), Ok(Some("b".as_bytes())));
    assert_eq!(lookup_pair(&buffer, pos, 3), Ok(None));
    assert_eq!(restore_pairs(&buffer, pos), Ok(original));
}

#[test]
fn pairs_archive_needs_room_for_arrays_and_record() {
    let original = vec![(1, String::from("a")), (2, String::from("b"))];
    assert_eq!(
        AsHashMap::describe_shape(&original),
        Some(ArchivedShape { payload: 66, record: 24 })
    );
    assert_eq!(
        AsHashMap::describe_shape(&Vec::new()),
        Some(ArchivedShape { payload: 0, record: 24 })
    );
    let mut short = Sink::with_capacity(89);
    assert_eq!(archive_pairs(&original, &mut short), Err(Error::SinkFailure));
    assert_eq!(short.pos(), 0);
    let mut exact = Sink::with_capacity(90);
    assert_eq!(archive_pairs(&original, &mut exact), Ok(66));
}

#[test]
fn pairs_restore_fails_without_a_sound_map() {
    assert_eq!(restore_pairs(&[0; 23], 0), Err(Error::ElementFailure));
    assert_eq!(lookup_pair(&[0; 23], 0, 1), Err(Error::ElementFailure));
    // A record of no entries.
    assert_eq!(restore_pairs(&[0; 24], 0), Ok(Vec::new()));
    assert_eq!(lookup_pair(&[0; 24], 0, 1), Ok(None));
    // A record of one entry that lies outside the archive.
    let mut broken = vec![0u8; 24];
    broken[16] = 1;
    assert_eq!(restore_pairs(&broken, 0), Err(Error::ElementFailure));
    assert_eq!(lookup_pair(&broken, 0, 1), Err(Error::ElementFailure));
}

#[test]
fn map_record_is_read_where_it_was_written() {
    let record = ArchivedHashMap { buckets: -40, entries: -32, len: 1 };
    let mut sink = Sink::with_capacity(64);
    sink.write(&[7]).unwrap();
    record.write_record(&mut sink).unwrap();
    let buffer = sink.into_bytes();
    assert_eq!(&buffer[1..9], &(-40i64).to_le_bytes());
    assert_eq!(&buffer[9..17], &(-32i64).to_le_bytes());
    assert_eq!(&buffer[17..25], &1u64.to_le_bytes());
    assert_eq!(ArchivedHashMap::read(&buffer, 1), Some(record));
    assert_eq!(ArchivedHashMap::read(&buffer, 2), None);
    let mut short = Sink::with_capacity(23);
    assert_eq!(record.write_record(&mut short), Err(Error::SinkFailure));
}

#[test]
fn shifted_resolver_refers_to_the_moved_payload() {
    let original = vec![(1, String::from("one")), (2, String::from("two"))];
    let mut staging = Sink::with_capacity(256);
    let resolver = AsHashMap::serialize_with(&original, &mut staging).unwrap();
    let payload = staging.into_bytes();

    let mut buffer = vec![0x55u8; 19];
    buffer.extend_from_slice(&payload);
    let pos = buffer.len();
    let mut record = ArchivedHashMap::new();
    AsHashMap::resolve_with(&original, pos, resolver.shifted(19).unwrap(), &mut record);
    assert!(record.validate(pos, &buffer));
    assert_eq!(record.get(pos, &buffer, 2), Some("two".as_bytes()));
    assert_eq!(AsHashMap::deserialize_with(&record, pos, &buffer), Ok(original));

    let bits = five_bits();
    let mut staging = Sink::with_capacity(8);
    let resolver = BitVecWrapper::serialize_with(&bits, &mut staging).unwrap();
    assert!(resolver.shifted(isize::MAX as usize + 1).is_none());
    let resolver = BitVecWrapper::serialize_with(&bits, &mut staging).unwrap();
    let mut record = ArchivedBitVec::new();
    BitVecWrapper::resolve_with(&bits, 30, resolver.shifted(4).unwrap(), &mut record);
    assert_eq!(record.inner, ArchivedVec { offset: -25, len: 1 });
}
