use rkyv_wrappers::error::Error;
use rkyv_wrappers::sink::Sink;
use rkyv_wrappers::vec::ArchivedVec;

#[test]
fn array_is_written_as_it_is_and_referred_to_by_offset() {
    let mut sink = Sink::with_capacity(64);
    sink.write(&[0; 4]).unwrap();
    let resolver = ArchivedVec::serialize_from_slice(&[10, 20, 30], &mut sink).unwrap();
    sink.write(&[0; 2]).unwrap();
    let pos = sink.pos();
    let mut record = ArchivedVec { offset: 0, len: 0 };
    ArchivedVec::resolve_from_len(3, pos, resolver, &mut record);
    assert_eq!(pos, 9);
    assert_eq!(record, ArchivedVec { offset: -5, len: 3 });

    let buffer = sink.into_bytes();
    assert!(record.validate(pos, &buffer));
    assert_eq!(record.as_slice(pos, &buffer), &[10, 20, 30]);
    assert_eq!(record.get(pos, &buffer), Some(&[10u8, 20, 30][..]));
    assert_eq!(record.get(pos - 5, &buffer), None);
    assert_eq!(record.get(pos + 1, &buffer), Some(&[20u8, 30, 0][..]));
}

#[test]
fn array_record_is_resolved_from_its_slice() {
    let mut sink = Sink::with_capacity(8);
    let words = [1u8, 2, 3, 4, 5];
    let resolver = ArchivedVec::serialize_from_slice(&words, &mut sink).unwrap();
    let mut record = ArchivedVec { offset: 0, len: 0 };
    ArchivedVec::resolve_from_slice(&words, 100, resolver, &mut record);
    assert_eq!(record, ArchivedVec { offset: -100, len: 5 });
}

#[test]
fn array_serialize_fails_when_the_sink_is_full() {
    let mut sink = Sink::with_capacity(2);
    let result = ArchivedVec::serialize_from_slice(&[1, 2, 3], &mut sink);
    assert_eq!(result.err(), Some(Error::SinkFailure));
    assert_eq!(sink.pos(), 0);
}

#[test]
fn array_record_is_read_where_it_was_written() {
    let record = ArchivedVec { offset: -21, len: 7 };
    let mut sink = Sink::with_capacity(40);
    sink.write(&[5; 3]).unwrap();
    record.write_record(&mut sink).unwrap();
    let buffer = sink.into_bytes();
    assert_eq!(buffer.len(), 19);
    assert_eq!(&buffer[3..11], &(-21i64).to_le_bytes());
    assert_eq!(&buffer[11..19], &7u64.to_le_bytes());
    assert_eq!(ArchivedVec::read(&buffer, 3), Some(record));
    assert_eq!(ArchivedVec::read(&buffer, 4), None);
    assert_eq!(ArchivedVec::read(&buffer, usize::MAX), None);

    let mut short = Sink::with_capacity(15);
    assert_eq!(record.write_record(&mut short), Err(Error::SinkFailure));
    assert_eq!(short.pos(), 0);
}
