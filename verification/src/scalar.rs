//! Scalars in an archive.
//!
//! Every length, index, key and offset in an archive is one scalar: eight
//! bytes, least significant first. Offsets are signed and stored in two's
//! complement.

use crate::error::Error;
use crate::sink::Sink;
use vstd::prelude::*;

verus! {

/// The number of bytes that one scalar takes.
pub const SCALAR_SIZE: usize = 8;

/// The eight bytes of `x`, least significant first.
pub closed spec fn encode_u64(x: u64) -> Seq<u8> {
    seq![
        (x % 0x100) as u8,
        (x / 0x100 % 0x100) as u8,
        (x / 0x1_0000 % 0x100) as u8,
        (x / 0x100_0000 % 0x100) as u8,
        (x / 0x1_0000_0000 % 0x100) as u8,
        (x / 0x100_0000_0000 % 0x100) as u8,
        (x / 0x1_0000_0000_0000 % 0x100) as u8,
        (x / 0x100_0000_0000_0000 % 0x100) as u8,
    ]
}

/// The number that the first eight bytes of `bytes` stand for.
pub closed spec fn decode_u64(bytes: Seq<u8>) -> u64
    recommends
        bytes.len() >= 8,
{
    (bytes[0] as int + bytes[1] as int * 0x100 + bytes[2] as int * 0x1_0000 + bytes[3] as int
        * 0x100_0000 + bytes[4] as int * 0x1_0000_0000 + bytes[5] as int * 0x100_0000_0000
        + bytes[6] as int * 0x1_0000_0000_0000 + bytes[7] as int * 0x100_0000_0000_0000) as u64
}

/// The unsigned number whose bytes stand for `x` in two's complement.
pub open spec fn to_unsigned(x: i64) -> u64 {
    if x >= 0 {
        x as u64
    } else {
        (x + 0x1_0000_0000_0000_0000) as u64
    }
}

/// The signed number that `x` stands for in two's complement.
pub open spec fn to_signed(x: u64) -> i64 {
    if x <= i64::MAX {
        x as i64
    } else {
        (x - 0x1_0000_0000_0000_0000) as i64
    }
}

/// The scalar that starts at `pos` in `archive`, where eight bytes are there.
pub open spec fn scalar_at(archive: Seq<u8>, pos: int) -> Option<u64> {
    if 0 <= pos && pos + 8 <= archive.len() {
        Some(decode_u64(archive.subrange(pos, pos + 8)))
    } else {
        None
    }
}

/// The length or index that starts at `pos`, where the scalar there fits one.
pub open spec fn usize_at(archive: Seq<u8>, pos: int) -> Option<usize> {
    match scalar_at(archive, pos) {
        Some(x) => if x <= usize::MAX {
            Some(x as usize)
        } else {
            None
        },
        None => None,
    }
}

/// The offset that starts at `pos`, where the scalar there fits one.
pub open spec fn isize_at(archive: Seq<u8>, pos: int) -> Option<isize> {
    match scalar_at(archive, pos) {
        Some(x) => if isize::MIN <= to_signed(x) <= isize::MAX {
            Some(to_signed(x) as isize)
        } else {
            None
        },
        None => None,
    }
}

/// Decoding undoes encoding.
pub proof fn lemma_decode_encode(x: u64)
    ensures
        encode_u64(x).len() == 8,
        decode_u64(encode_u64(x)) == x,
{
    let b0: u64 = x % 0x100;
    let b1: u64 = x / 0x100 % 0x100;
    let b2: u64 = x / 0x1_0000 % 0x100;
    let b3: u64 = x / 0x100_0000 % 0x100;
    let b4: u64 = x / 0x1_0000_0000 % 0x100;
    let b5: u64 = x / 0x100_0000_0000 % 0x100;
    let b6: u64 = x / 0x1_0000_0000_0000 % 0x100;
    let b7: u64 = x / 0x100_0000_0000_0000 % 0x100;
    assert(b0 + b1 * 0x100 + b2 * 0x1_0000 + b3 * 0x100_0000 + b4 * 0x1_0000_0000 + b5
        * 0x100_0000_0000 + b6 * 0x1_0000_0000_0000 + b7 * 0x100_0000_0000_0000 == x)
        by (bit_vector)
        requires
            b0 == x % 0x100,
            b1 == x / 0x100 % 0x100,
            b2 == x / 0x1_0000 % 0x100,
            b3 == x / 0x100_0000 % 0x100,
            b4 == x / 0x1_0000_0000 % 0x100,
            b5 == x / 0x100_0000_0000 % 0x100,
            b6 == x / 0x1_0000_0000_0000 % 0x100,
            b7 == x / 0x100_0000_0000_0000 % 0x100,
    ;
}

/// The signed reading undoes the unsigned one.
pub proof fn lemma_signed_unsigned(x: i64)
    ensures
        to_signed(to_unsigned(x)) == x,
{
}

/// A scalar that was appended to an archive is read back at the position
/// where it starts, whatever follows it.
pub proof fn lemma_scalar_at_appended(before: Seq<u8>, x: u64, after: Seq<u8>)
    ensures
        scalar_at(before + encode_u64(x) + after, before.len() as int) == Some(x),
{
    let archive = before + encode_u64(x) + after;
    let pos = before.len() as int;
    lemma_decode_encode(x);
    assert(archive.subrange(pos, pos + 8) =~= encode_u64(x));
}

/// Whether `longer` is `archive` with bytes appended.
pub open spec fn extends(longer: Seq<u8>, archive: Seq<u8>) -> bool {
    archive.len() <= longer.len() && longer.take(archive.len() as int) == archive
}

/// Appending bytes extends an archive.
pub proof fn lemma_extends_append(archive: Seq<u8>, bytes: Seq<u8>)
    ensures
        extends(archive + bytes, archive),
{
    assert((archive + bytes).take(archive.len() as int) =~= archive);
}

/// What extends an extension extends the archive.
pub proof fn lemma_extends_transitive(longest: Seq<u8>, longer: Seq<u8>, archive: Seq<u8>)
    requires
        extends(longest, longer),
        extends(longer, archive),
    ensures
        extends(longest, archive),
{
    assert(longest.take(archive.len() as int) =~= longer.take(archive.len() as int)) by {
        assert forall|i: int| 0 <= i < archive.len() implies longest[i] == longer[i] by {
            assert(longest.take(longer.len() as int)[i] == longer[i]);
        }
    }
}

/// The bytes of an archive stay where they are when bytes are appended.
pub proof fn lemma_extends_subrange(longer: Seq<u8>, archive: Seq<u8>, from: int, to: int)
    requires
        extends(longer, archive),
        0 <= from <= to <= archive.len(),
    ensures
        longer.subrange(from, to) == archive.subrange(from, to),
{
    assert(longer.subrange(from, to) =~= longer.take(archive.len() as int).subrange(from, to));
}

/// What an archive holds at a position stays there when bytes are appended.
pub proof fn lemma_scalar_at_extended(archive: Seq<u8>, longer: Seq<u8>, pos: int)
    requires
        extends(longer, archive),
        scalar_at(archive, pos) is Some,
    ensures
        scalar_at(longer, pos) == scalar_at(archive, pos),
        usize_at(longer, pos) == usize_at(archive, pos),
        isize_at(longer, pos) == isize_at(archive, pos),
{
    assert(longer.subrange(pos, pos + 8) =~= longer.take(archive.len() as int).subrange(
        pos,
        pos + 8,
    ));
}

/// What an archive holds at a position it holds, behind a prefix, as far on
/// as the prefix is long.
pub proof fn lemma_scalar_at_shifted(prefix: Seq<u8>, archive: Seq<u8>, pos: int)
    requires
        0 <= pos,
    ensures
        scalar_at(prefix + archive, prefix.len() + pos) == scalar_at(archive, pos),
        usize_at(prefix + archive, prefix.len() + pos) == usize_at(archive, pos),
        isize_at(prefix + archive, prefix.len() + pos) == isize_at(archive, pos),
{
    if pos + 8 <= archive.len() {
        assert((prefix + archive).subrange(prefix.len() + pos, prefix.len() + pos + 8)
            =~= archive.subrange(pos, pos + 8));
    }
}

/// The eight bytes of `x`.
pub fn u64_to_bytes(x: u64) -> (bytes: Vec<u8>)
    ensures
        bytes@ == encode_u64(x),
{
    let mut bytes: Vec<u8> = Vec::new();
    bytes.push((x % 0x100) as u8);
    bytes.push((x / 0x100 % 0x100) as u8);
    bytes.push((x / 0x1_0000 % 0x100) as u8);
    bytes.push((x / 0x100_0000 % 0x100) as u8);
    bytes.push((x / 0x1_0000_0000 % 0x100) as u8);
    bytes.push((x / 0x100_0000_0000 % 0x100) as u8);
    bytes.push((x / 0x1_0000_0000_0000 % 0x100) as u8);
    bytes.push((x / 0x100_0000_0000_0000 % 0x100) as u8);
    assert(bytes@ =~= encode_u64(x));
    bytes
}

/// The unsigned number whose bytes stand for `x`.
pub fn i64_to_unsigned(x: i64) -> (u: u64)
    ensures
        u == to_unsigned(x),
{
    if x >= 0 {
        x as u64
    } else {
        u64::MAX - ((-(x + 1)) as u64)
    }
}

/// The signed number that `x` stands for.
pub fn u64_to_signed(x: u64) -> (s: i64)
    ensures
        s == to_signed(x),
{
    if x <= i64::MAX as u64 {
        x as i64
    } else {
        -((u64::MAX - x) as i64) - 1
    }
}

/// Reads the scalar that starts at `pos`, or nothing where the archive ends
/// before its eighth byte.
pub fn read_u64(archive: &[u8], pos: usize) -> (r: Option<u64>)
    ensures
        r == scalar_at(archive@, pos as int),
{
    if archive.len() < SCALAR_SIZE || pos > archive.len() - SCALAR_SIZE {
        return None;
    }
    let ghost bytes = archive@.subrange(pos as int, pos + 8);
    let b0: u64 = archive[pos] as u64;
    let b1: u64 = archive[pos + 1] as u64;
    let b2: u64 = archive[pos + 2] as u64;
    let b3: u64 = archive[pos + 3] as u64;
    let b4: u64 = archive[pos + 4] as u64;
    let b5: u64 = archive[pos + 5] as u64;
    let b6: u64 = archive[pos + 6] as u64;
    let b7: u64 = archive[pos + 7] as u64;
    assert(bytes[0] == b0 && bytes[1] == b1 && bytes[2] == b2 && bytes[3] == b3 && bytes[4] == b4
        && bytes[5] == b5 && bytes[6] == b6 && bytes[7] == b7);
    Some(
        b0 + b1 * 0x100 + b2 * 0x1_0000 + b3 * 0x100_0000 + b4 * 0x1_0000_0000 + b5
            * 0x100_0000_0000 + b6 * 0x1_0000_0000_0000 + b7 * 0x100_0000_0000_0000,
    )
}

/// Reads the length or index that starts at `pos`.
pub fn read_usize(archive: &[u8], pos: usize) -> (r: Option<usize>)
    ensures
        r == usize_at(archive@, pos as int),
{
    match read_u64(archive, pos) {
        Some(x) => if x <= usize::MAX as u64 {
            Some(x as usize)
        } else {
            None
        },
        None => None,
    }
}

/// Reads the offset that starts at `pos`.
pub fn read_isize(archive: &[u8], pos: usize) -> (r: Option<isize>)
    ensures
        r == isize_at(archive@, pos as int),
{
    match read_u64(archive, pos) {
        Some(x) => {
            let s: i64 = u64_to_signed(x);
            if isize::MIN as i64 <= s && s <= isize::MAX as i64 {
                Some(s as isize)
            } else {
                None
            }
        },
        None => None,
    }
}

/// Appends `x` as one scalar.
pub fn write_u64(sink: &mut Sink, x: u64) -> (r: Result<(), Error>)
    ensures
        final(sink).capacity() == old(sink).capacity(),
        r is Ok <==> old(sink).written().len() + 8 <= old(sink).capacity(),
        r is Ok ==> final(sink).written() == old(sink).written() + encode_u64(x),
        r is Err ==> r == Err::<(), Error>(Error::SinkFailure),
        r is Err ==> final(sink).written() == old(sink).written(),
{
    let bytes = u64_to_bytes(x);
    sink.write(bytes.as_slice())
}

/// Appends the offset `x` as one scalar.
pub fn write_isize(sink: &mut Sink, x: isize) -> (r: Result<(), Error>)
    ensures
        final(sink).capacity() == old(sink).capacity(),
        r is Ok <==> old(sink).written().len() + 8 <= old(sink).capacity(),
        r is Ok ==> final(sink).written() == old(sink).written() + encode_u64(
            to_unsigned(x as i64),
        ),
        r is Err ==> r == Err::<(), Error>(Error::SinkFailure),
        r is Err ==> final(sink).written() == old(sink).written(),
{
    write_u64(sink, i64_to_unsigned(x as i64))
}

} // verus!
