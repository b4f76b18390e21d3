//! The bit vector adapter.
//!
//! A bit vector is archived as the array of the words that back it, together
//! with its exact length in bits. The length is kept apart because the words
//! hold a whole number of bytes: the bits of the last word beyond the length
//! are padding and never read as data.

use crate::error::Error;
use crate::scalar::{
    encode_u64, lemma_decode_encode, lemma_scalar_at_appended, read_usize, to_unsigned, usize_at,
    write_u64,
};
use crate::shape::ArchivedShape;
use crate::sink::Sink;
use crate::vec::{
    encode_vec_record, lemma_vec_record_at_appended, vec_record_at, ArchivedVec, VecResolver,
};
use vstd::prelude::*;

verus! {

/// The number of bits in one word.
pub const WORD_BITS: usize = 8;

/// A growable vector of bits, backed by words of eight bits each, the least
/// significant bit of a word first.
#[verifier::external_body]
pub struct BitVec {
    inner: ::bitvec::vec::BitVec<u8, ::bitvec::order::Lsb0>,
}

/// The bits that a bit vector holds, in order.
pub uninterp spec fn bits_of(v: BitVec) -> Seq<bool>;

/// The words that back a bit vector, as its raw slice shows them.
pub uninterp spec fn words_of(v: BitVec) -> Seq<u8>;

/// Bit `i` of `word`, counted from the least significant.
pub open spec fn word_bit(word: u8, i: u8) -> bool {
    (word >> i) & 1u8 == 1u8
}

/// All the bits of `words`, word after word.
pub open spec fn unpack(words: Seq<u8>) -> Seq<bool> {
    Seq::new(8 * words.len(), |i: int| word_bit(words[i / 8], (i % 8) as u8))
}

/// `BitVec::len`: the number of bits.
#[verifier::external_body]
fn raw_len(v: &BitVec) -> (n: usize)
    ensures
        n == bits_of(*v).len(),
{
    v.inner.len()
}

/// `BitVec::as_raw_slice`: the backing words, which are enough to hold the
/// bits.
#[verifier::external_body]
fn raw_slice(v: &BitVec) -> (words: &[u8])
    ensures
        words@ == words_of(*v),
        bits_of(*v).len() <= 8 * words@.len(),
{
    v.inner.as_raw_slice()
}

/// `BitVec::try_from_vec`: the bit vector that spans every bit of `words`,
/// with `words` as its backing; none where the bits are more than a bit
/// vector can hold, which is an eighth of `usize::MAX`.
#[verifier::external_body]
fn raw_from_vec(words: Vec<u8>) -> (r: Option<BitVec>)
    requires
        8 * words@.len() <= usize::MAX,
    ensures
        r is Some <==> 8 * words@.len() <= usize::MAX / 8,
        r matches Some(v) ==> bits_of(v) == unpack(words@) && words_of(v) == words@,
{
    match ::bitvec::vec::BitVec::try_from_vec(words) {
        Ok(inner) => Some(BitVec { inner }),
        Err(_) => None,
    }
}

/// `BitVec::truncate`: keeps the first `new_len` bits where there are more,
/// and changes nothing otherwise. The backing words that remain are the
/// first of those before, and still hold the bits.
#[verifier::external_body]
fn raw_truncate(v: &mut BitVec, new_len: usize)
    ensures
        bits_of(*final(v)) == if new_len < bits_of(*old(v)).len() {
            bits_of(*old(v)).take(new_len as int)
        } else {
            bits_of(*old(v))
        },
        words_of(*final(v)).len() <= words_of(*old(v)).len(),
        words_of(*final(v)) == words_of(*old(v)).take(words_of(*final(v)).len() as int),
        bits_of(*final(v)).len() <= 8 * words_of(*final(v)).len(),
    no_unwind
{
    v.inner.truncate(new_len)
}

/// Indexing a `BitVec`: the bit at `i`.
#[verifier::external_body]
fn raw_bit(v: &BitVec, i: usize) -> (bit: bool)
    requires
        i < bits_of(*v).len(),
    ensures
        bit == bits_of(*v)[i as int],
{
    v.inner[i]
}

impl View for BitVec {
    type V = Seq<bool>;

    open spec fn view(&self) -> Seq<bool> {
        bits_of(*self)
    }
}

impl BitVec {
    #[verifier::type_invariant]
    spec fn inv(&self) -> bool {
        self.wf()
    }

    /// The words that back the bit vector.
    pub open spec fn words(&self) -> Seq<u8> {
        words_of(*self)
    }

    /// What holds of every bit vector: its bits are the first bits of its
    /// words, and its words are no more than a bit vector can span.
    pub open spec fn wf(&self) -> bool {
        &&& self@.len() <= 8 * self.words().len()
        &&& self@ == unpack(self.words()).take(self@.len() as int)
        &&& 8 * self.words().len() <= usize::MAX / 8
    }

    /// The bit vector that spans every bit of `words`; none where the words
    /// are more than a bit vector can span.
    pub fn try_from_vec(words: Vec<u8>) -> (r: Option<BitVec>)
        ensures
            r is Some <==> 8 * words@.len() <= usize::MAX / 8,
            r matches Some(v) ==> v.wf() && v@ == unpack(words@) && v.words() == words@,
    {
        if words.len() > usize::MAX / 8 / 8 {
            return None;
        }
        let r = raw_from_vec(words);
        proof {
            if r is Some {
                let v = r->0;
                assert(v@ =~= unpack(v.words()).take(v@.len() as int));
            }
        }
        r
    }

    /// The number of bits.
    pub fn len(&self) -> (n: usize)
        ensures
            self.wf(),
            n == self@.len(),
    {
        proof {
            use_type_invariant(self);
        }
        raw_len(self)
    }

    /// The words that back the bit vector, padding included.
    pub fn as_raw_slice(&self) -> (words: &[u8])
        ensures
            self.wf(),
            words@ == self.words(),
    {
        proof {
            use_type_invariant(self);
        }
        raw_slice(self)
    }

    /// The bit at `i`, or nothing where the vector is shorter.
    pub fn get(&self, i: usize) -> (bit: Option<bool>)
        ensures
            bit == (if i < self@.len() {
                Some(self@[i as int])
            } else {
                None
            }),
    {
        if i < raw_len(self) {
            Some(raw_bit(self, i))
        } else {
            None
        }
    }

    /// Keeps the first `new_len` bits where there are more, and changes
    /// nothing otherwise.
    pub fn truncate(&mut self, new_len: usize)
        ensures
            final(self).wf(),
            final(self)@ == (if new_len < old(self)@.len() {
                old(self)@.take(new_len as int)
            } else {
                old(self)@
            }),
    {
        proof {
            use_type_invariant(&*self);
        }
        let ghost before = *self;
        raw_truncate(self, new_len);
        proof {
            let kept = self.words();
            assert forall|i: int| 0 <= i < self@.len() implies self@[i] == unpack(kept)[i] by {
                assert(before@[i] == unpack(before.words())[i]);
                assert(kept[i / 8] == before.words()[i / 8]);
            }
            assert(self@ =~= unpack(kept).take(self@.len() as int));
        }
    }
}

/// A view of the first bits of some archived words. It borrows the words and
/// never shows a bit beyond its length.
pub struct BitSlice<'a> {
    words: &'a [u8],
    len: usize,
}

impl<'a> View for BitSlice<'a> {
    type V = Seq<bool>;

    closed spec fn view(&self) -> Seq<bool> {
        unpack(self.words@).take(self.len as int)
    }
}

impl<'a> BitSlice<'a> {
    #[verifier::type_invariant]
    spec fn inv(&self) -> bool {
        self.len <= 8 * self.words@.len()
    }

    /// The number of bits in view.
    pub fn len(&self) -> (n: usize)
        ensures
            n == self@.len(),
    {
        proof {
            use_type_invariant(self);
        }
        self.len
    }

    /// The bit at `i`, or nothing where the view is shorter.
    pub fn get(&self, i: usize) -> (bit: Option<bool>)
        ensures
            bit == (if i < self@.len() {
                Some(self@[i as int])
            } else {
                None
            }),
    {
        proof {
            use_type_invariant(self);
        }
        if i < self.len {
            let word: u8 = self.words[i / WORD_BITS];
            let shift: u8 = (i % WORD_BITS) as u8;
            Some((word >> shift) & 1u8 == 1u8)
        } else {
            None
        }
    }
}

/// The number of bytes that the record of a bit vector takes.
pub const BIT_VEC_RECORD_SIZE: usize = 24;

/// The record of an archived bit vector.
#[derive(Clone, Copy, Debug, PartialEq, Eq)]
pub struct ArchivedBitVec {
    /// The record of the words; it stands where this record stands.
    pub inner: ArchivedVec,
    /// The exact number of bits.
    pub bit_len: usize,
}

/// The record that starts at `pos` in `archive`, where one can be read.
pub open spec fn bit_vec_record_at(archive: Seq<u8>, pos: int) -> Option<ArchivedBitVec> {
    match (vec_record_at(archive, pos), usize_at(archive, pos + 16)) {
        (Some(inner), Some(bit_len)) => Some(ArchivedBitVec { inner, bit_len }),
        _ => None,
    }
}

/// The twenty-four bytes of a record.
pub open spec fn encode_bit_vec_record(record: ArchivedBitVec) -> Seq<u8> {
    encode_vec_record(record.inner) + encode_u64(record.bit_len as u64)
}

/// A record that was appended to an archive is read back at the position
/// where it starts, whatever follows it.
pub proof fn lemma_bit_vec_record_at_appended(
    before: Seq<u8>,
    record: ArchivedBitVec,
    after: Seq<u8>,
)
    ensures
        bit_vec_record_at(before + encode_bit_vec_record(record) + after, before.len() as int)
            == Some(record),
{
    let first = encode_vec_record(record.inner);
    let second = encode_u64(record.bit_len as u64);
    let archive = before + encode_bit_vec_record(record) + after;
    lemma_decode_encode(to_unsigned(record.inner.offset as i64));
    lemma_decode_encode(record.inner.len as u64);
    lemma_vec_record_at_appended(before, record.inner, second + after);
    lemma_scalar_at_appended(before + first, record.bit_len as u64, after);
    assert(archive =~= before + first + (second + after));
    assert(archive =~= (before + first) + second + after);
}

impl ArchivedBitVec {
    /// Whether the record, standing at `pos`, refers to words inside
    /// `archive` that are enough for its bits.
    pub open spec fn wf(&self, pos: int, archive: Seq<u8>) -> bool {
        &&& self.inner.wf(pos, archive)
        &&& self.bit_len <= 8 * self.inner.len
    }

    /// The bits that the record, standing at `pos`, refers to: the first
    /// `bit_len` bits of its words.
    pub open spec fn bits(&self, pos: int, archive: Seq<u8>) -> Seq<bool> {
        unpack(self.inner.bytes(pos, archive)).take(self.bit_len as int)
    }

    /// Whether the record, standing at `pos` in `archive`, is the archived
    /// form of `v`: it refers to the words of `v` and has the length of `v`.
    pub open spec fn archives(&self, pos: int, archive: Seq<u8>, v: BitVec) -> bool {
        &&& self.inner.wf(pos, archive)
        &&& self.inner.bytes(pos, archive) == v.words()
        &&& self.bit_len == v@.len()
    }

    /// Appends the record itself: the record of the words, then the number
    /// of bits. Fails with `SinkFailure`, and writes nothing, where it does
    /// not fit.
    pub fn write_record(&self, serializer: &mut Sink) -> (r: Result<(), Error>)
        ensures
            final(serializer).capacity() == old(serializer).capacity(),
            r is Ok <==> old(serializer).written().len() + BIT_VEC_RECORD_SIZE <= old(
                serializer,
            ).capacity(),
            r is Ok ==> final(serializer).written() == old(serializer).written()
                + encode_bit_vec_record(*self),
            r matches Err(e) ==> {
                &&& e == Error::SinkFailure
                &&& final(serializer).written() == old(serializer).written()
            },
    {
        if serializer.remaining() < BIT_VEC_RECORD_SIZE {
            return Err(Error::SinkFailure);
        }
        let ghost before = serializer.written();
        proof {
            lemma_decode_encode(to_unsigned(self.inner.offset as i64));
            lemma_decode_encode(self.inner.len as u64);
        }
        match self.inner.write_record(serializer) {
            Ok(()) => {},
            Err(e) => {
                return Err(e);
            },
        }
        match write_u64(serializer, self.bit_len as u64) {
            Ok(()) => {},
            Err(e) => {
                return Err(e);
            },
        }
        assert(serializer.written() =~= before + encode_bit_vec_record(*self));
        Ok(())
    }

    /// Reads the record that starts at `pos`.
    pub fn read(archive: &[u8], pos: usize) -> (r: Option<ArchivedBitVec>)
        ensures
            r == bit_vec_record_at(archive@, pos as int),
    {
        if archive.len() < BIT_VEC_RECORD_SIZE || pos > archive.len() - BIT_VEC_RECORD_SIZE {
            return None;
        }
        match (ArchivedVec::read(archive, pos), read_usize(archive, pos + 16)) {
            (Some(inner), Some(bit_len)) => Some(ArchivedBitVec { inner, bit_len }),
            _ => None,
        }
    }

    /// An empty record, to be filled in by `resolve_with`.
    pub fn new() -> (record: ArchivedBitVec)
        ensures
            record == (ArchivedBitVec { inner: ArchivedVec { offset: 0, len: 0 }, bit_len: 0 }),
    {
        ArchivedBitVec { inner: ArchivedVec { offset: 0, len: 0 }, bit_len: 0 }
    }

    /// The exact number of bits.
    pub fn len(&self) -> (n: usize)
        ensures
            n == self.bit_len,
    {
        self.bit_len
    }

    /// Tells whether the record refers to words inside `archive` that are
    /// enough for its bits.
    pub fn validate(&self, pos: usize, archive: &[u8]) -> (ok: bool)
        ensures
            ok == self.wf(pos as int, archive@),
    {
        self.inner.validate(pos, archive) && self.bit_len / WORD_BITS <= self.inner.len && (
        self.bit_len % WORD_BITS == 0 || self.bit_len / WORD_BITS < self.inner.len)
    }

    /// The bits of the archived bit vector, viewed in place.
    pub fn as_slice<'a>(&self, pos: usize, archive: &'a [u8]) -> (bits: BitSlice<'a>)
        requires
            self.wf(pos as int, archive@),
        ensures
            bits@ == self.bits(pos as int, archive@),
    {
        BitSlice { words: self.inner.as_slice(pos, archive), len: self.bit_len }
    }
}

/// The adapter that archives a bit vector as its words and its length.
pub struct BitVecWrapper;

impl BitVecWrapper {
    /// The room that the archived form of `field` takes: one byte for each
    /// of its words, and the record.
    pub fn describe_shape(field: &BitVec) -> (shape: ArchivedShape)
        ensures
            shape.payload == field.words().len(),
            shape.record == BIT_VEC_RECORD_SIZE,
    {
        ArchivedShape { payload: field.as_raw_slice().len(), record: BIT_VEC_RECORD_SIZE }
    }

    /// Appends the words of `field`, padding included, to the sink and
    /// returns where they start. Fails with `SinkFailure`, and writes
    /// nothing, where they do not fit.
    pub fn serialize_with(field: &BitVec, serializer: &mut Sink) -> (r: Result<VecResolver, Error>)
        ensures
            final(serializer).capacity() == old(serializer).capacity(),
            r is Ok <==> old(serializer).written().len() + field.words().len() <= old(
                serializer,
            ).capacity(),
            r matches Ok(resolver) ==> {
                &&& resolver.position() == old(serializer).written().len()
                &&& final(serializer).written() == old(serializer).written() + field.words()
            },
            r matches Err(e) ==> {
                &&& e == Error::SinkFailure
                &&& final(serializer).written() == old(serializer).written()
            },
    {
        ArchivedVec::serialize_from_slice(field.as_raw_slice(), serializer)
    }

    /// Fills in the record of `field` for a record that stands at `pos`: the
    /// offset to the words and their number, and the exact number of bits.
    pub fn resolve_with(field: &BitVec, pos: usize, resolver: VecResolver, out: &mut ArchivedBitVec)
        requires
            pos <= isize::MAX,
        ensures
            final(out).bit_len == field@.len(),
            final(out).inner.len == field.words().len(),
            pos + final(out).inner.offset == resolver.position(),
    {
        ArchivedVec::resolve_from_slice(field.as_raw_slice(), pos, resolver, &mut out.inner);
        out.bit_len = field.len();
    }

    /// Rebuilds the bit vector that the record, standing at `pos`, refers
    /// to: its words as a bit vector, cut to the exact length. Fails with
    /// `ElementFailure` where the words do not lie inside the archive, are
    /// too few for the length, or are more than a bit vector can span.
    pub fn deserialize_with(field: &ArchivedBitVec, pos: usize, archive: &[u8]) -> (r: Result<
        BitVec,
        Error,
    >)
        ensures
            r is Ok <==> field.wf(pos as int, archive@) && 8 * field.inner.len <= usize::MAX / 8,
            r matches Ok(v) ==> v.wf() && v@ == field.bits(pos as int, archive@),
            r matches Err(e) ==> e == Error::ElementFailure,
    {
        if !field.validate(pos, archive) {
            return Err(Error::ElementFailure);
        }
        let words = vstd::slice::slice_to_vec(field.inner.as_slice(pos, archive));
        match BitVec::try_from_vec(words) {
            Some(mut bits) => {
                bits.truncate(field.bit_len);
                Ok(bits)
            },
            None => Err(Error::ElementFailure),
        }
    }
}

/// What `serialize_with` and `resolve_with` leave behind is the archived
/// form of the bit vector: where the words of `v` follow `before` in the
/// archive and the record refers to the end of `before`, the record archives
/// `v`, whatever comes after the words.
pub proof fn lemma_resolved_archives(
    v: BitVec,
    record: ArchivedBitVec,
    pos: int,
    before: Seq<u8>,
    after: Seq<u8>,
)
    requires
        record.bit_len == v@.len(),
        record.inner.len == v.words().len(),
        pos + record.inner.offset == before.len(),
    ensures
        record.archives(pos, before + v.words() + after, v),
{
    let archive = before + v.words() + after;
    assert(record.inner.bytes(pos, archive) =~= v.words());
}

/// The archived form of a bit vector stays its archived form when the record
/// and the archive are moved on together.
pub proof fn lemma_bit_vec_relocated(
    v: BitVec,
    record: ArchivedBitVec,
    pos: int,
    archive: Seq<u8>,
    prefix: Seq<u8>,
)
    requires
        record.archives(pos, archive, v),
    ensures
        record.archives(prefix.len() + pos, prefix + archive, v),
        record.bits(prefix.len() + pos, prefix + archive) == record.bits(pos, archive),
{
    record.inner.lemma_bytes_shifted(prefix, archive, pos);
}

/// Round trip: the archived form of a bit vector shows exactly its bits, as
/// many as it has, whether or not they fill its last word.
pub proof fn lemma_bit_vec_round_trip(v: BitVec, record: ArchivedBitVec, pos: int, archive: Seq<u8>)
    requires
        v.wf(),
        record.archives(pos, archive, v),
    ensures
        record.wf(pos, archive),
        record.bits(pos, archive) == v@,
        record.bits(pos, archive).len() == v@.len(),
        8 * record.inner.len <= usize::MAX / 8,
{
}

/// Archiving again: where a bit vector was rebuilt from one archive and
/// archived into another, both archives show the same bits.
pub proof fn lemma_bit_vec_rearchived(
    rebuilt: BitVec,
    first: ArchivedBitVec,
    first_pos: int,
    first_archive: Seq<u8>,
    second: ArchivedBitVec,
    second_pos: int,
    second_archive: Seq<u8>,
)
    requires
        rebuilt.wf(),
        rebuilt@ == first.bits(first_pos, first_archive),
        second.archives(second_pos, second_archive, rebuilt),
    ensures
        second.bits(second_pos, second_archive) == first.bits(first_pos, first_archive),
{
    lemma_bit_vec_round_trip(rebuilt, second, second_pos, second_archive);
}

/// The empty bit vector is archived as no words and no bits.
pub proof fn lemma_empty_bit_vec(v: BitVec, record: ArchivedBitVec, pos: int, archive: Seq<u8>)
    requires
        v.wf(),
        v.words().len() == 0,
        record.archives(pos, archive, v),
    ensures
        record.bit_len == 0,
        record.inner.len == 0,
        record.bits(pos, archive) == Seq::<bool>::empty(),
{
}

} // verus!
