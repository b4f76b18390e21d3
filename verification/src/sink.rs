//! The byte sink that archives are written to.
//!
//! A [`Sink`] is a buffer of fixed capacity that is filled from the front. It
//! knows its position, takes bytes at that position only, and refuses bytes
//! that do not fit, leaving what was written before untouched.

use crate::error::Error;
use rkyv::ser::serializers::{BufferSerializer, BufferSerializerError};
use rkyv::ser::Serializer;
use vstd::prelude::*;

verus! {

#[verifier::external_type_specification]
#[verifier::external_body]
#[verifier::reject_recursive_types(T)]
pub struct ExBufferSerializer<T>(BufferSerializer<T>);

#[verifier::external_type_specification]
#[verifier::external_body]
pub struct ExBufferSerializerError(BufferSerializerError);

/// The whole buffer that a serializer writes into, written part and rest.
pub uninterp spec fn buffer_of(s: BufferSerializer<Vec<u8>>) -> Seq<u8>;

/// The position at which a serializer writes next.
pub uninterp spec fn position_of(s: BufferSerializer<Vec<u8>>) -> nat;

/// `BufferSerializer::new`: a serializer over the given buffer, positioned
/// at its start.
#[verifier::external_body]
fn buffer_new(buffer: Vec<u8>) -> (s: BufferSerializer<Vec<u8>>)
    ensures
        buffer_of(s) == buffer@,
        position_of(s) == 0,
{
    BufferSerializer::new(buffer)
}

/// `Serializer::pos` of a `BufferSerializer`: the position it stands at.
#[verifier::external_body]
fn buffer_pos(s: &BufferSerializer<Vec<u8>>) -> (pos: usize)
    ensures
        pos == position_of(*s),
{
    s.pos()
}

/// `Serializer::write` of a `BufferSerializer`: where the bytes fit between
/// the position and the end of the buffer they are copied there and the
/// position moves past them; where they do not, the call fails and changes
/// nothing. The sum of position and length must not overflow.
#[verifier::external_body]
fn buffer_write(s: &mut BufferSerializer<Vec<u8>>, bytes: &[u8]) -> (r: Result<
    (),
    BufferSerializerError,
>)
    requires
        position_of(*old(s)) + bytes@.len() <= usize::MAX,
    ensures
        r is Ok <==> position_of(*old(s)) + bytes@.len() <= buffer_of(*old(s)).len(),
        r is Ok ==> position_of(*final(s)) == position_of(*old(s)) + bytes@.len(),
        r is Ok ==> buffer_of(*final(s)) == buffer_of(*old(s)).take(position_of(*old(s)) as int)
            + bytes@ + buffer_of(*old(s)).skip((position_of(*old(s)) + bytes@.len()) as int),
        r is Err ==> position_of(*final(s)) == position_of(*old(s)),
        r is Err ==> buffer_of(*final(s)) == buffer_of(*old(s)),
    no_unwind
{
    s.write(bytes)
}

/// `BufferSerializer::into_inner`: the buffer, as it now is.
#[verifier::external_body]
fn buffer_into_inner(s: BufferSerializer<Vec<u8>>) -> (buffer: Vec<u8>)
    ensures
        buffer@ == buffer_of(s),
{
    s.into_inner()
}

/// An append-only byte sink of fixed capacity.
pub struct Sink {
    inner: BufferSerializer<Vec<u8>>,
    capacity: usize,
}

impl Sink {
    #[verifier::type_invariant]
    spec fn inv(&self) -> bool {
        &&& position_of(self.inner) <= buffer_of(self.inner).len()
        &&& self.capacity == buffer_of(self.inner).len()
        &&& self.capacity <= isize::MAX
    }

    /// The bytes written so far.
    pub closed spec fn written(&self) -> Seq<u8> {
        buffer_of(self.inner).take(position_of(self.inner) as int)
    }

    /// The number of bytes that the sink can hold in all.
    pub closed spec fn capacity(&self) -> nat {
        buffer_of(self.inner).len()
    }

    /// An empty sink that can hold `capacity` bytes.
    pub fn with_capacity(capacity: usize) -> (sink: Sink)
        requires
            capacity <= isize::MAX,
        ensures
            sink.written() == Seq::<u8>::empty(),
            sink.capacity() == capacity,
    {
        let buffer: Vec<u8> = vec![0u8; capacity];
        Sink { inner: buffer_new(buffer), capacity }
    }

    /// The position at which the next byte will be written.
    pub fn pos(&self) -> (pos: usize)
        ensures
            pos == self.written().len(),
            pos <= self.capacity() <= isize::MAX,
    {
        proof {
            use_type_invariant(self);
        }
        buffer_pos(&self.inner)
    }

    /// The number of bytes that still fit.
    pub fn remaining(&self) -> (n: usize)
        ensures
            n == self.capacity() - self.written().len(),
    {
        proof {
            use_type_invariant(self);
        }
        self.capacity - buffer_pos(&self.inner)
    }

    /// Appends `bytes`, or fails with `SinkFailure` and changes nothing where
    /// they do not fit.
    pub fn write(&mut self, bytes: &[u8]) -> (r: Result<(), Error>)
        ensures
            final(self).capacity() == old(self).capacity(),
            r is Ok <==> old(self).written().len() + bytes@.len() <= old(self).capacity(),
            r is Ok ==> final(self).written() == old(self).written() + bytes@,
            r is Err ==> r == Err::<(), Error>(Error::SinkFailure),
            r is Err ==> final(self).written() == old(self).written(),
    {
        proof {
            use_type_invariant(&*self);
        }
        if bytes.len() > self.remaining() {
            return Err(Error::SinkFailure);
        }
        match buffer_write(&mut self.inner, bytes) {
            Ok(()) => Ok(()),
            Err(_) => Err(Error::SinkFailure),
        }
    }

    /// Ends writing and hands out the bytes written.
    pub fn into_bytes(self) -> (bytes: Vec<u8>)
        ensures
            bytes@ == self.written(),
    {
        proof {
            use_type_invariant(&self);
        }
        let pos: usize = buffer_pos(&self.inner);
        let mut buffer = buffer_into_inner(self.inner);
        buffer.truncate(pos);
        buffer
    }
}

} // verus!
