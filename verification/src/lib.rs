//! Archive adapters with verified contracts.
//!
//! An adapter stores a value in an archive in a shape that differs from the
//! value's own: a vector of key/value pairs as a map that is looked up in
//! place, a bit vector as an array of words with an exact bit length. Every
//! adapter follows the same protocol:
//!
//! - `describe_shape` tells how much room the archived form takes;
//! - `serialize_with` appends the payload to a [`sink::Sink`] and returns a
//!   resolver, which remembers where the payload went;
//! - `resolve_with` turns the resolver into the record of the value, once
//!   the position of the record is known: the record refers to the payload
//!   by offsets relative to its own position;
//! - `deserialize_with` follows a record and rebuilds the value.
//!
//! An archive holds no position, only offsets, so it means the same wherever
//! it is put. What is read from an archive is never trusted: a record is
//! either validated before it is followed, or followed by a function that
//! fails where it leads outside the archive.
//!
//! The modules, from the ground up: [`scalar`] and [`rel_ptr`] for the
//! numbers and offsets in an archive, [`sink`] for what archives are written
//! to, [`vec`] for the archived array of bytes, [`bitvec`] and
//! [`as_hashmap`] with [`hash_map`] for the two adapters, and [`root`] for
//! archiving one value on its own.

pub mod as_hashmap;
pub mod bitvec;
pub mod error;
pub mod hash_map;
pub mod rel_ptr;
pub mod root;
pub mod scalar;
pub mod shape;
pub mod sink;
pub mod vec;
