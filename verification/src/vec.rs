//! The archived array of bytes.
//!
//! An array is archived in two parts. Its bytes are appended to the sink as
//! they are. The record that stands for it holds the offset from its own
//! position to the first of those bytes, and their number. The bit vector
//! keeps its words in such an array, the map the bytes of its values.

use crate::error::Error;
use crate::rel_ptr::{in_archive, locate, offset_between, offset_from_to};
use crate::scalar::{
    encode_u64, extends, isize_at, lemma_decode_encode, lemma_extends_subrange,
    lemma_scalar_at_appended, lemma_scalar_at_extended, lemma_scalar_at_shifted,
    lemma_signed_unsigned, read_isize, read_usize, to_unsigned, usize_at, write_isize, write_u64,
};
use crate::sink::Sink;
use vstd::prelude::*;
use vstd::slice::slice_subrange;

verus! {

/// The number of bytes that the record of an array takes.
pub const VEC_RECORD_SIZE: usize = 16;

/// Where the bytes of an array were written, kept until the position of the
/// record that refers to them is known.
pub struct VecResolver {
    pos: usize,
}

impl VecResolver {
    #[verifier::type_invariant]
    spec fn inv(&self) -> bool {
        self.pos <= isize::MAX
    }

    /// The position of the first byte of the array.
    pub closed spec fn position(&self) -> int {
        self.pos as int
    }

    /// The resolver of the same bytes after they were moved on by `by`;
    /// none where no offset could reach them there.
    pub fn shifted(self, by: usize) -> (r: Option<VecResolver>)
        ensures
            r is Some <==> self.position() + by <= isize::MAX,
            r matches Some(moved) ==> moved.position() == self.position() + by,
    {
        proof {
            use_type_invariant(&self);
        }
        if by > isize::MAX as usize - self.pos {
            None
        } else {
            Some(VecResolver { pos: self.pos + by })
        }
    }
}

/// The record of an archived array.
#[derive(Clone, Copy, Debug, PartialEq, Eq)]
pub struct ArchivedVec {
    /// The distance from the record's position to the first byte.
    pub offset: isize,
    /// The number of bytes.
    pub len: usize,
}

/// The record that starts at `pos` in `archive`, where one can be read.
pub open spec fn vec_record_at(archive: Seq<u8>, pos: int) -> Option<ArchivedVec> {
    match (isize_at(archive, pos), usize_at(archive, pos + 8)) {
        (Some(offset), Some(len)) => Some(ArchivedVec { offset, len }),
        _ => None,
    }
}

/// The sixteen bytes of a record.
pub open spec fn encode_vec_record(record: ArchivedVec) -> Seq<u8> {
    encode_u64(to_unsigned(record.offset as i64)) + encode_u64(record.len as u64)
}

/// A record that was appended to an archive is read back at the position
/// where it starts, whatever follows it.
pub proof fn lemma_vec_record_at_appended(before: Seq<u8>, record: ArchivedVec, after: Seq<u8>)
    ensures
        vec_record_at(before + encode_vec_record(record) + after, before.len() as int) == Some(
            record,
        ),
{
    let first = encode_u64(to_unsigned(record.offset as i64));
    let second = encode_u64(record.len as u64);
    let archive = before + encode_vec_record(record) + after;
    lemma_signed_unsigned(record.offset as i64);
    lemma_decode_encode(to_unsigned(record.offset as i64));
    lemma_decode_encode(record.len as u64);
    lemma_scalar_at_appended(before, to_unsigned(record.offset as i64), second + after);
    lemma_scalar_at_appended(before + first, record.len as u64, after);
    assert(archive =~= before + first + (second + after));
    assert(archive =~= (before + first) + second + after);
}

/// A record and the bytes that it refers to stay where they are when bytes
/// are appended to the archive.
pub proof fn lemma_vec_record_at_extended(archive: Seq<u8>, longer: Seq<u8>, pos: int)
    requires
        extends(longer, archive),
        vec_record_at(archive, pos) is Some,
    ensures
        vec_record_at(longer, pos) == vec_record_at(archive, pos),
        vec_record_at(archive, pos).unwrap().wf(pos, archive) ==> {
            &&& vec_record_at(archive, pos).unwrap().wf(pos, longer)
            &&& vec_record_at(archive, pos).unwrap().bytes(pos, longer) == vec_record_at(
                archive,
                pos,
            ).unwrap().bytes(pos, archive)
        },
{
    lemma_scalar_at_extended(archive, longer, pos);
    lemma_scalar_at_extended(archive, longer, pos + 8);
    let record = vec_record_at(archive, pos).unwrap();
    if record.wf(pos, archive) {
        lemma_extends_subrange(
            longer,
            archive,
            pos + record.offset,
            pos + record.offset + record.len,
        );
    }
}

/// A record and the bytes that it refers to are found, behind a prefix, as
/// far on as the prefix is long.
pub proof fn lemma_vec_record_at_shifted(prefix: Seq<u8>, archive: Seq<u8>, pos: int)
    requires
        0 <= pos,
        vec_record_at(archive, pos) is Some,
    ensures
        vec_record_at(prefix + archive, prefix.len() + pos) == vec_record_at(archive, pos),
        vec_record_at(archive, pos).unwrap().wf(pos, archive) ==> {
            &&& vec_record_at(archive, pos).unwrap().wf(prefix.len() + pos, prefix + archive)
            &&& vec_record_at(archive, pos).unwrap().bytes(prefix.len() + pos, prefix + archive)
                == vec_record_at(archive, pos).unwrap().bytes(pos, archive)
        },
{
    lemma_scalar_at_shifted(prefix, archive, pos);
    lemma_scalar_at_shifted(prefix, archive, pos + 8);
    let record = vec_record_at(archive, pos).unwrap();
    if record.wf(pos, archive) {
        record.lemma_bytes_shifted(prefix, archive, pos);
    }
}

impl ArchivedVec {
    /// The bytes that a record refers to are the same when the record and
    /// the archive are moved on together.
    pub proof fn lemma_bytes_shifted(&self, prefix: Seq<u8>, archive: Seq<u8>, pos: int)
        requires
            self.wf(pos, archive),
        ensures
            self.wf(prefix.len() + pos, prefix + archive),
            self.bytes(prefix.len() + pos, prefix + archive) == self.bytes(pos, archive),
    {
        assert(self.bytes(prefix.len() + pos, prefix + archive) =~= self.bytes(pos, archive));
    }

    /// Whether the bytes that the record, standing at `pos`, refers to lie
    /// inside `archive`.
    pub open spec fn wf(&self, pos: int, archive: Seq<u8>) -> bool {
        in_archive(pos, self.offset as int, self.len as int, archive.len() as int)
    }

    /// The bytes that the record, standing at `pos`, refers to.
    pub open spec fn bytes(&self, pos: int, archive: Seq<u8>) -> Seq<u8> {
        archive.subrange(pos + self.offset, pos + self.offset + self.len)
    }

    /// Appends the bytes of `slice` to the sink and returns where they start.
    /// Fails with `SinkFailure`, and writes nothing, where they do not fit.
    pub fn serialize_from_slice(slice: &[u8], serializer: &mut Sink) -> (r: Result<
        VecResolver,
        Error,
    >)
        ensures
            final(serializer).capacity() == old(serializer).capacity(),
            r is Ok <==> old(serializer).written().len() + slice@.len() <= old(
                serializer,
            ).capacity(),
            r matches Ok(resolver) ==> {
                &&& resolver.position() == old(serializer).written().len()
                &&& final(serializer).written() == old(serializer).written() + slice@
            },
            r matches Err(e) ==> {
                &&& e == Error::SinkFailure
                &&& final(serializer).written() == old(serializer).written()
            },
    {
        let pos: usize = serializer.pos();
        match serializer.write(slice) {
            Ok(()) => Ok(VecResolver { pos }),
            Err(e) => Err(e),
        }
    }

    /// Fills in the record of an array of `len` bytes whose resolver is
    /// `resolver`, for a record that stands at `pos`.
    pub fn resolve_from_len(len: usize, pos: usize, resolver: VecResolver, out: &mut ArchivedVec)
        requires
            pos <= isize::MAX,
        ensures
            final(out).len == len,
            pos + final(out).offset == resolver.position(),
            Some(final(out).offset) == offset_from_to(pos as int, resolver.position()),
    {
        proof {
            use_type_invariant(&resolver);
        }
        match offset_between(pos, resolver.pos) {
            Some(offset) => {
                out.offset = offset;
                out.len = len;
            },
            None => {
                vstd::pervasive::unreached::<()>();
            },
        }
    }

    /// Fills in the record of the array `slice`.
    pub fn resolve_from_slice(
        slice: &[u8],
        pos: usize,
        resolver: VecResolver,
        out: &mut ArchivedVec,
    )
        requires
            pos <= isize::MAX,
        ensures
            final(out).len == slice@.len(),
            pos + final(out).offset == resolver.position(),
            Some(final(out).offset) == offset_from_to(pos as int, resolver.position()),
    {
        Self::resolve_from_len(slice.len(), pos, resolver, out)
    }

    /// Tells whether the bytes that the record refers to lie inside
    /// `archive`.
    pub fn validate(&self, pos: usize, archive: &[u8]) -> (ok: bool)
        ensures
            ok == self.wf(pos as int, archive@),
    {
        locate(pos, self.offset, self.len, archive.len()).is_some()
    }

    /// The bytes that the record refers to, borrowed from the archive.
    pub fn as_slice<'a>(&self, pos: usize, archive: &'a [u8]) -> (bytes: &'a [u8])
        requires
            self.wf(pos as int, archive@),
        ensures
            bytes@ == self.bytes(pos as int, archive@),
    {
        match locate(pos, self.offset, self.len, archive.len()) {
            Some(start) => slice_subrange(archive, start, start + self.len),
            None => vstd::pervasive::unreached(),
        }
    }

    /// The bytes that the record refers to, or nothing where they do not lie
    /// inside the archive.
    pub fn get<'a>(&self, pos: usize, archive: &'a [u8]) -> (r: Option<&'a [u8]>)
        ensures
            r is Some <==> self.wf(pos as int, archive@),
            r matches Some(bytes) ==> bytes@ == self.bytes(pos as int, archive@),
    {
        match locate(pos, self.offset, self.len, archive.len()) {
            Some(start) => Some(slice_subrange(archive, start, start + self.len)),
            None => None,
        }
    }

    /// Appends the record itself: its offset, then its length.
    pub fn write_record(&self, serializer: &mut Sink) -> (r: Result<(), Error>)
        ensures
            final(serializer).capacity() == old(serializer).capacity(),
            r is Ok <==> old(serializer).written().len() + VEC_RECORD_SIZE <= old(
                serializer,
            ).capacity(),
            r is Ok ==> final(serializer).written() == old(serializer).written()
                + encode_vec_record(*self),
            r matches Err(e) ==> {
                &&& e == Error::SinkFailure
                &&& final(serializer).written() == old(serializer).written()
            },
    {
        if serializer.remaining() < VEC_RECORD_SIZE {
            return Err(Error::SinkFailure);
        }
        let ghost before = serializer.written();
        proof {
            lemma_decode_encode(to_unsigned(self.offset as i64));
            lemma_decode_encode(self.len as u64);
        }
        match write_isize(serializer, self.offset) {
            Ok(()) => {},
            Err(e) => {
                return Err(e);
            },
        }
        match write_u64(serializer, self.len as u64) {
            Ok(()) => {},
            Err(e) => {
                return Err(e);
            },
        }
        assert(serializer.written() =~= before + encode_vec_record(*self));
        Ok(())
    }

    /// Reads the record that starts at `pos`.
    pub fn read(archive: &[u8], pos: usize) -> (r: Option<ArchivedVec>)
        ensures
            r == vec_record_at(archive@, pos as int),
    {
        if archive.len() < VEC_RECORD_SIZE || pos > archive.len() - VEC_RECORD_SIZE {
            return None;
        }
        let offset = read_isize(archive, pos);
        let len = read_usize(archive, pos + 8);
        match (offset, len) {
            (Some(offset), Some(len)) => Some(ArchivedVec { offset, len }),
            _ => None,
        }
    }
}

} // verus!
