//! Relative offsets.
//!
//! A record never holds the position of what it refers to. It holds the
//! signed distance from the position of its own field to that position, so
//! that an archive means the same wherever it is put.

use rkyv::rel_ptr::{signed_offset, OffsetError};
use vstd::prelude::*;

verus! {

#[verifier::external_type_specification]
#[verifier::external_body]
pub struct ExOffsetError(OffsetError);

/// `rkyv::rel_ptr::signed_offset` gives the distance from `from` to `to`
/// where an `isize` can hold it, and fails where none can.
pub assume_specification[ rkyv::rel_ptr::signed_offset ](from: usize, to: usize) -> (r: Result<
    isize,
    OffsetError,
>)
    ensures
        r is Ok <==> isize::MIN <= to - from <= isize::MAX,
        r matches Ok(offset) ==> offset == to - from,
;

/// The offset that a field at `from` holds to refer to `to`, where there is
/// one.
pub open spec fn offset_from_to(from: int, to: int) -> Option<isize> {
    if isize::MIN <= to - from <= isize::MAX {
        Some((to - from) as isize)
    } else {
        None
    }
}

/// The position that a field at `field_pos` refers to by `offset`, where it
/// is a position at all.
pub open spec fn target_of(field_pos: int, offset: int) -> Option<usize> {
    if 0 <= field_pos + offset <= usize::MAX {
        Some((field_pos + offset) as usize)
    } else {
        None
    }
}

/// Whether `len` bytes that a field at `field_pos` refers to by `offset` lie
/// inside an archive of `archive_len` bytes.
pub open spec fn in_archive(field_pos: int, offset: int, len: int, archive_len: int) -> bool {
    0 <= field_pos + offset && 0 <= len && field_pos + offset + len <= archive_len
}

/// Following an offset leads to the position that it was made for.
pub proof fn lemma_target_of_offset(from: usize, to: usize)
    requires
        offset_from_to(from as int, to as int) is Some,
    ensures
        target_of(from as int, offset_from_to(from as int, to as int).unwrap() as int) == Some(
            to,
        ),
{
}

/// Moving a field and what it refers to by the same distance leaves the
/// offset between them as it was.
pub proof fn lemma_offset_relocates(from: int, to: int, shift: int)
    ensures
        offset_from_to(from + shift, to + shift) == offset_from_to(from, to),
{
}

/// Positions inside one archive are never too far apart for an offset.
pub proof fn lemma_offset_exists(from: int, to: int)
    requires
        0 <= from <= isize::MAX,
        0 <= to <= isize::MAX,
    ensures
        offset_from_to(from, to) is Some,
{
}

/// The offset from `from` to `to`.
pub fn offset_between(from: usize, to: usize) -> (r: Option<isize>)
    ensures
        r == offset_from_to(from as int, to as int),
{
    match signed_offset(from, to) {
        Ok(offset) => Some(offset),
        Err(_) => None,
    }
}

/// The position that a field at `field_pos` refers to by `offset`.
pub fn target(field_pos: usize, offset: isize) -> (r: Option<usize>)
    ensures
        r == target_of(field_pos as int, offset as int),
{
    if offset >= 0 {
        let forward: usize = offset as usize;
        if forward > usize::MAX - field_pos {
            None
        } else {
            Some(field_pos + forward)
        }
    } else {
        let back: usize = (-(offset + 1)) as usize;
        if back >= field_pos {
            None
        } else {
            Some(field_pos - back - 1)
        }
    }
}

/// The position of `len` bytes that a field at `field_pos` refers to by
/// `offset`, where all of them lie inside an archive of `archive_len` bytes.
pub fn locate(field_pos: usize, offset: isize, len: usize, archive_len: usize) -> (r: Option<
    usize,
>)
    ensures
        r is Some <==> in_archive(field_pos as int, offset as int, len as int, archive_len as int),
        r matches Some(start) ==> start == field_pos + offset,
{
    match target(field_pos, offset) {
        Some(start) => if start <= archive_len && len <= archive_len - start {
            Some(start)
        } else {
            None
        },
        None => None,
    }
}

} // verus!
