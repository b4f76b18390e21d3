use rkyv_wrappers::bitvec::{ArchivedBitVec, BitVec, BitVecWrapper};
use rkyv_wrappers::error::Error;
use rkyv_wrappers::sink::Sink;
use rkyv_wrappers::vec::ArchivedVec;

fn bit_vec(words: Vec<u8>, len: usize) -> BitVec {
    let mut bits = BitVec::try_from_vec(words).unwrap();
    bits.truncate(len);
    bits
}

fn bools_of_vec(bits: &BitVec) -> Vec<bool> {
    (0..bits.len()).map(|i| bits.get(i).unwrap()).collect()
}

fn archive(bits: &BitVec, sink: &mut Sink) -> (usize, ArchivedBitVec) {
    let resolver = BitVecWrapper::serialize_with(bits, sink).unwrap();
    let pos = sink.pos();
    let mut record = ArchivedBitVec::new();
    BitVecWrapper::resolve_with(bits, pos, resolver, &mut record);
    (pos, record)
}

#[test]
fn bit_vec_reads_least_significant_bit_first() {
    let bits = bit_vec(vec![0b0001_1101], 8);
    assert_eq!(
        bools_of_vec(&bits),
        vec![true, false, true, true, true, false, false, false]
    );
    assert_eq!(bits.get(8), None);
    assert_eq!(bits.as_raw_slice(), &[0b0001_1101]);
}

#[test]
fn bit_vec_truncate_keeps_the_front() {
    let mut bits = bit_vec(vec![0xff, 0x01], 16);
    bits.truncate(9);
    assert_eq!(bits.len(), 9);
    assert_eq!(bits.get(8), Some(true));
    bits.truncate(12);
    assert_eq!(bits.len(), 9);
}

#[test]
fn bit_vec_keeps_the_words_that_hold_its_bits() {
    let mut bits = bit_vec(vec![0xff, 0x01, 0x07], 24);
    assert_eq!(bits.as_raw_slice(), &[0xff, 0x01, 0x07]);
    bits.truncate(17);
    assert_eq!(bits.as_raw_slice(), &[0xff, 0x01, 0x07]);
    bits.truncate(9);
    assert_eq!(bits.as_raw_slice(), &[0xff, 0x01]);
    bits.truncate(8);
    assert_eq!(bits.as_raw_slice(), &[0xff]);
    bits.truncate(0);
    assert_eq!(bits.len(), 0);
    assert!(bits.as_raw_slice().len() <= 1);
    assert!(BitVec::try_from_vec(Vec::new()).unwrap().as_raw_slice().is_empty());
}

#[test]
fn word_aligned_bit_vec_round_trips() {
    let original = bit_vec(vec![0b0001_1101], 8);
    let mut sink = Sink::with_capacity(4096);
    let (pos, record) = archive(&original, &mut sink);
    let buffer = sink.into_bytes();

    assert_eq!(record.len(), 8);
    assert_eq!(record.inner.len, 1);
    assert!(record.validate(pos, &buffer));
    let view = record.as_slice(pos, &buffer);
    assert_eq!(view.len(), 8);
    let seen: Vec<bool> = (0..view.len()).map(|i| view.get(i).unwrap()).collect();
    assert_eq!(
        seen,
        vec![true, false, true, true, true, false, false, false]
    );

    let rebuilt = BitVecWrapper::deserialize_with(&record, pos, &buffer).unwrap();
    assert_eq!(rebuilt.len(), 8);
    assert_eq!(bools_of_vec(&rebuilt), bools_of_vec(&original));
}

#[test]
fn unaligned_bit_vec_round_trips_without_padding() {
    // Five bits in one word; the three bits of padding are set.
    let original = bit_vec(vec![0b1111_1101], 5);
    let mut sink = Sink::with_capacity(4096);
    let (pos, record) = archive(&original, &mut sink);
    let buffer = sink.into_bytes();

    assert_eq!(buffer, vec![0b1111_1101]);
    assert_eq!(record.len(), 5);
    let view = record.as_slice(pos, &buffer);
    assert_eq!(view.len(), 5);
    assert_eq!(view.get(4), Some(true));
    assert_eq!(view.get(5), None);
    assert_eq!(view.get(7), None);

    let rebuilt = BitVecWrapper::deserialize_with(&record, pos, &buffer).unwrap();
    assert_eq!(rebuilt.len(), 5);
    assert_eq!(
        bools_of_vec(&rebuilt),
        vec![true, false, true, true, true]
    );
}

#[test]
fn bit_vec_record_is_relative_to_its_position() {
    let original = bit_vec(vec![0xa5, 0x03], 10);
    let mut sink = Sink::with_capacity(64);
    sink.write(&[9, 9, 9]).unwrap();
    let (pos, record) = archive(&original, &mut sink);
    assert_eq!(pos, 5);
    assert_eq!(record.inner, ArchivedVec { offset: -2, len: 2 });
    assert_eq!(record.bit_len, 10);

    // The same record, moved together with its words, reads the same bits.
    let mut moved = vec![0u8; 7];
    moved.extend_from_slice(&sink.into_bytes());
    let rebuilt = BitVecWrapper::deserialize_with(&record, pos + 7, &moved).unwrap();
    assert_eq!(bools_of_vec(&rebuilt), bools_of_vec(&original));
}

#[test]
fn rearchived_bit_vec_shows_the_same_bits() {
    let original = bit_vec(vec![0x3c, 0x5a, 0x01], 17);
    let mut first = Sink::with_capacity(32);
    let (first_pos, first_record) = archive(&original, &mut first);
    let first_buffer = first.into_bytes();
    let rebuilt = BitVecWrapper::deserialize_with(&first_record, first_pos, &first_buffer).unwrap();

    let mut second = Sink::with_capacity(32);
    second.write(&[0]).unwrap();
    let (second_pos, second_record) = archive(&rebuilt, &mut second);
    let second_buffer = second.into_bytes();
    let again =
        BitVecWrapper::deserialize_with(&second_record, second_pos, &second_buffer).unwrap();
    assert_eq!(bools_of_vec(&again), bools_of_vec(&original));
    assert_eq!(again.len(), 17);
}

#[test]
fn empty_bit_vec_archives_to_nothing() {
    let original = bit_vec(Vec::new(), 0);
    let mut sink = Sink::with_capacity(0);
    let (pos, record) = archive(&original, &mut sink);
    let buffer = sink.into_bytes();
    assert_eq!(pos, 0);
    assert!(buffer.is_empty());
    assert_eq!(record.len(), 0);
    assert_eq!(record.inner.len, 0);
    assert_eq!(record.as_slice(pos, &buffer).len(), 0);
    let rebuilt = BitVecWrapper::deserialize_with(&record, pos, &buffer).unwrap();
    assert_eq!(rebuilt.len(), 0);
}

#[test]
fn bit_vec_serialize_fails_when_the_sink_is_full() {
    let original = bit_vec(vec![1, 2, 3], 24);
    let mut sink = Sink::with_capacity(2);
    let result = BitVecWrapper::serialize_with(&original, &mut sink);
    assert_eq!(result.err(), Some(Error::SinkFailure));
    assert_eq!(sink.pos(), 0);
}

#[test]
fn bit_vec_deserialize_rejects_a_broken_record() {
    let buffer = vec![0xffu8, 0x01];
    // Words outside the archive.
    let outside = ArchivedBitVec { inner: ArchivedVec { offset: -1, len: 3 }, bit_len: 8 };
    assert!(!outside.validate(1, &buffer));
    assert_eq!(
        BitVecWrapper::deserialize_with(&outside, 1, &buffer).err(),
        Some(Error::ElementFailure)
    );
    // More bits than the words hold.
    let short = ArchivedBitVec { inner: ArchivedVec { offset: -2, len: 2 }, bit_len: 17 };
    assert!(!short.validate(2, &buffer));
    assert_eq!(
        BitVecWrapper::deserialize_with(&short, 2, &buffer).err(),
        Some(Error::ElementFailure)
    );
    let exact = ArchivedBitVec { inner: ArchivedVec { offset: -2, len: 2 }, bit_len: 16 };
    assert!(exact.validate(2, &buffer));
    assert_eq!(BitVecWrapper::deserialize_with(&exact, 2, &buffer).unwrap().len(), 16);
}
