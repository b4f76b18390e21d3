//! A value archived on its own.
//!
//! The whole protocol in one call each way: the payload of the value is
//! appended to the sink, its record is resolved for the position that the
//! sink has reached and appended there. To read the value back, the record
//! is read at that position and followed.

use crate::as_hashmap::{
    archived_size, archives, entry_converts, lemma_map_stores_extended, pairs_view, stored_pairs,
    AsHashMap,
};
use crate::bitvec::{
    bit_vec_record_at, encode_bit_vec_record, lemma_bit_vec_record_at_appended,
    lemma_resolved_archives, ArchivedBitVec, BitVec, BitVecWrapper, BIT_VEC_RECORD_SIZE,
};
use crate::error::Error;
use crate::hash_map::{
    encode_map_record, lemma_map_record_at_appended, map_record_at, ArchivedHashMap,
    MAP_RECORD_SIZE,
};
use crate::scalar::{
    extends, lemma_decode_encode, lemma_extends_append, lemma_extends_transitive, to_unsigned,
};
use crate::sink::Sink;
use vstd::prelude::*;

verus! {

/// Archives `field` at the end of the sink and returns the position of its
/// record. Fails with `SinkFailure`, and writes nothing, where the words and
/// the record do not fit.
pub fn archive_bit_vec(field: &BitVec, serializer: &mut Sink) -> (r: Result<usize, Error>)
    ensures
        final(serializer).capacity() == old(serializer).capacity(),
        r is Ok <==> old(serializer).written().len() + field.words().len() + BIT_VEC_RECORD_SIZE
            <= old(serializer).capacity(),
        r matches Ok(pos) ==> {
            &&& extends(final(serializer).written(), old(serializer).written())
            &&& pos == old(serializer).written().len() + field.words().len()
            &&& final(serializer).written().len() == pos + BIT_VEC_RECORD_SIZE
            &&& bit_vec_record_at(final(serializer).written(), pos as int) is Some
            &&& bit_vec_record_at(final(serializer).written(), pos as int).unwrap().archives(
                pos as int,
                final(serializer).written(),
                *field,
            )
        },
        r matches Err(e) ==> {
            &&& e == Error::SinkFailure
            &&& final(serializer).written() == old(serializer).written()
        },
{
    let ghost initial = serializer.written();
    let shape = BitVecWrapper::describe_shape(field);
    let room: usize = serializer.remaining();
    if shape.payload > room || shape.record > room - shape.payload {
        return Err(Error::SinkFailure);
    }
    let resolver = match BitVecWrapper::serialize_with(field, serializer) {
        Ok(resolver) => resolver,
        Err(e) => {
            return Err(e);
        },
    };
    let pos: usize = serializer.pos();
    let mut record = ArchivedBitVec::new();
    BitVecWrapper::resolve_with(field, pos, resolver, &mut record);
    match record.write_record(serializer) {
        Ok(()) => {},
        Err(e) => {
            return Err(e);
        },
    }
    proof {
        let archive = serializer.written();
        lemma_decode_encode(to_unsigned(record.inner.offset as i64));
        lemma_decode_encode(record.inner.len as u64);
        lemma_decode_encode(record.bit_len as u64);
        lemma_resolved_archives(*field, record, pos as int, initial, encode_bit_vec_record(record));
        lemma_bit_vec_record_at_appended(initial + field.words(), record, Seq::empty());
        assert(initial + field.words() + encode_bit_vec_record(record) + Seq::<u8>::empty()
            =~= archive);
        lemma_extends_append(initial, field.words() + encode_bit_vec_record(record));
        assert(initial + (field.words() + encode_bit_vec_record(record)) =~= archive);
    }
    Ok(pos)
}

/// Rebuilds the bit vector whose record stands at `pos`. Fails with
/// `ElementFailure` where no record can be read there, or the record cannot
/// be followed.
pub fn restore_bit_vec(archive: &[u8], pos: usize) -> (r: Result<BitVec, Error>)
    ensures
        r is Ok <==> bit_vec_record_at(archive@, pos as int) is Some && bit_vec_record_at(
            archive@,
            pos as int,
        ).unwrap().wf(pos as int, archive@) && 8 * bit_vec_record_at(
            archive@,
            pos as int,
        ).unwrap().inner.len <= usize::MAX / 8,
        r matches Ok(v) ==> v.wf() && v@ == bit_vec_record_at(archive@, pos as int).unwrap().bits(
            pos as int,
            archive@,
        ),
        r matches Err(e) ==> e == Error::ElementFailure,
{
    match ArchivedBitVec::read(archive, pos) {
        Some(record) => BitVecWrapper::deserialize_with(&record, pos, archive),
        None => Err(Error::ElementFailure),
    }
}

/// Archives `field` at the end of the sink and returns the position of its
/// record. Fails with `SinkFailure`, and writes nothing, where the archived
/// form and the record do not fit.
pub fn archive_pairs(field: &Vec<(u32, String)>, serializer: &mut Sink) -> (r: Result<
    usize,
    Error,
>)
    ensures
        final(serializer).capacity() == old(serializer).capacity(),
        r is Ok <==> old(serializer).written().len() + archived_size(pairs_view(field@))
            + MAP_RECORD_SIZE <= old(serializer).capacity(),
        r matches Ok(pos) ==> {
            &&& extends(final(serializer).written(), old(serializer).written())
            &&& pos == old(serializer).written().len() + archived_size(pairs_view(field@))
            &&& final(serializer).written().len() == pos + MAP_RECORD_SIZE
            &&& map_record_at(final(serializer).written(), pos as int) is Some
            &&& archives(
                map_record_at(final(serializer).written(), pos as int).unwrap(),
                pos as int,
                final(serializer).written(),
                pairs_view(field@),
            )
        },
        r matches Err(e) ==> {
            &&& e == Error::SinkFailure
            &&& final(serializer).written() == old(serializer).written()
        },
{
    let ghost initial = serializer.written();
    let ghost pairs = pairs_view(field@);
    let room: usize = serializer.remaining();
    match AsHashMap::describe_shape(field) {
        Some(shape) => {
            if shape.payload > room || shape.record > room - shape.payload {
                return Err(Error::SinkFailure);
            }
        },
        None => {
            return Err(Error::SinkFailure);
        },
    }
    let resolver = match AsHashMap::serialize_with(field, serializer) {
        Ok(resolver) => resolver,
        Err(e) => {
            return Err(e);
        },
    };
    let ghost with_payload = serializer.written();
    let pos: usize = serializer.pos();
    let mut record = ArchivedHashMap::new();
    AsHashMap::resolve_with(field, pos, resolver, &mut record);
    match record.write_record(serializer) {
        Ok(()) => {},
        Err(e) => {
            return Err(e);
        },
    }
    proof {
        let archive = serializer.written();
        lemma_decode_encode(to_unsigned(record.buckets as i64));
        lemma_decode_encode(to_unsigned(record.entries as i64));
        lemma_decode_encode(record.len as u64);
        lemma_extends_append(with_payload, encode_map_record(record));
        lemma_extends_transitive(archive, with_payload, initial);
        lemma_map_stores_extended(
            with_payload,
            archive,
            record.buckets_pos(pos as int),
            record.entries_pos(pos as int),
            pairs,
        );
        lemma_map_record_at_appended(with_payload, record, Seq::empty());
        assert(with_payload + encode_map_record(record) + Seq::<u8>::empty() =~= archive);
    }
    Ok(pos)
}

/// Rebuilds the pairs of the map whose record stands at `pos`. Fails with
/// `ElementFailure` where no record can be read there, an entry cannot be
/// read, or an entry cannot be turned back into a pair.
pub fn restore_pairs(archive: &[u8], pos: usize) -> (r: Result<Vec<(u32, String)>, Error>)
    ensures
        r is Ok <==> map_record_at(archive@, pos as int) is Some && map_record_at(
            archive@,
            pos as int,
        ).unwrap().readable(pos as int, archive@) && forall|i: int|
            0 <= i < map_record_at(archive@, pos as int).unwrap().len ==> #[trigger] entry_converts(
                map_record_at(archive@, pos as int).unwrap(),
                pos as int,
                archive@,
                i,
            ),
        r matches Ok(pairs) ==> pairs_view(pairs@) == stored_pairs(
            map_record_at(archive@, pos as int).unwrap(),
            pos as int,
            archive@,
        ),
        r matches Err(e) ==> e == Error::ElementFailure,
{
    match ArchivedHashMap::read(archive, pos) {
        Some(record) => AsHashMap::deserialize_with(&record, pos, archive),
        None => Err(Error::ElementFailure),
    }
}

/// Looks `key` up in the map whose record stands at `pos`: the bytes of its
/// value, or nothing where no entry has the key. Fails with `ElementFailure`
/// where no record can be read there or the map cannot be looked up in.
pub fn lookup_pair<'a>(archive: &'a [u8], pos: usize, key: u32) -> (r: Result<
    Option<&'a [u8]>,
    Error,
>)
    ensures
        r is Ok <==> map_record_at(archive@, pos as int) is Some && map_record_at(
            archive@,
            pos as int,
        ).unwrap().wf(pos as int, archive@),
        r matches Ok(found) ==> {
            let lookup = map_record_at(archive@, pos as int).unwrap().lookup(
                pos as int,
                archive@,
                key,
            );
            match found {
                Some(bytes) => lookup == Some(bytes@),
                None => lookup is None,
            }
        },
        r matches Err(e) ==> e == Error::ElementFailure,
{
    match ArchivedHashMap::read(archive, pos) {
        Some(record) => {
            if record.validate(pos, archive) {
                Ok(record.get(pos, archive, key))
            } else {
                Err(Error::ElementFailure)
            }
        },
        None => Err(Error::ElementFailure),
    }
}

} // verus!
