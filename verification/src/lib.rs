//! Writer-style serializers and deserializers for byte-oriented sinks.
//!
//! The crate provides the [`SerWrite`] trait for sinks of bytes, a [`SliceWriter`]
//! writing into a mutable slice, implementations of [`SerWrite`] for several
//! containers, a compact JSON serializer and deserializer ([`json`]) and a
//! MessagePack serializer and deserializer ([`msgpack`]).
use vstd::prelude::*;
use vstd::string::StringSliceAdditionalSpecFns;

pub mod bounded;
pub mod foreign;
pub mod json;
pub mod msgpack;
mod slice_fmt;
mod text;

verus! {

/// A simple error type that can be used for [`SerWrite::Error`] implementations.
#[derive(Debug, Clone, Copy, PartialEq, Eq, Hash)]
#[non_exhaustive]
pub enum SerError {
    /// Buffer is full
    BufferFull,
}

impl SerError {
    /// The human readable description of the error.
    pub fn as_str(&self) -> (r: &'static str)
        ensures
            r@ == "buffer is full"@,
    {
        match self {
            SerError::BufferFull => "buffer is full",
        }
    }

    /// The human readable description of the error as an owned string.
    pub fn to_string(&self) -> (r: String)
        ensures
            r@ == "buffer is full"@,
    {
        self.as_str().to_owned()
    }
}

/// Serializers should write data to the implementations of this trait.
///
/// The abstract state of a writer is the sequence of bytes written to it so far.
pub trait SerWrite {
    /// An error type returned from the trait methods.
    type Error;

    /// The bytes written to the sink so far.
    spec fn written(&self) -> Seq<u8>;

    /// Write **all** bytes from `buf` to the internal buffer.
    ///
    /// Otherwise return an error.
    fn write(&mut self, buf: &[u8]) -> (r: Result<(), Self::Error>)
        ensures
            r is Ok ==> final(self).written() == old(self).written() + buf@,
    ;

    /// Write a single `byte` to the internal buffer.
    ///
    /// Return an error if the operation could not succeed.
    fn write_byte(&mut self, byte: u8) -> (r: Result<(), Self::Error>)
        ensures
            r is Ok ==> final(self).written() == old(self).written().push(byte),
    {
        let buf = [byte];
        let r = self.write(buf.as_slice());
        proof {
            assert(buf@ =~= seq![byte]);
        }
        r
    }

    /// Write a **whole** string to the internal buffer.
    ///
    /// Otherwise return an error.
    fn write_str(&mut self, s: &str) -> (r: Result<(), Self::Error>)
        ensures
            r is Ok ==> final(self).written() == old(self).written() + s.spec_bytes(),
    {
        self.write(s.as_bytes())
    }
}

impl<T: SerWrite> SerWrite for &mut T {
    type Error = T::Error;

    open spec fn written(&self) -> Seq<u8> {
        (**self).written()
    }

    fn write(&mut self, buf: &[u8]) -> (r: Result<(), Self::Error>) {
        (**self).write(buf)
    }

    fn write_byte(&mut self, byte: u8) -> (r: Result<(), Self::Error>) {
        (**self).write_byte(byte)
    }

    fn write_str(&mut self, s: &str) -> (r: Result<(), Self::Error>) {
        (**self).write_str(s)
    }
}

/// A simple slice writer.
///
/// The first `len` bytes of `buf` hold what has been written.
#[derive(Debug, PartialEq)]
pub struct SliceWriter<'a> {
    pub buf: &'a mut [u8],
    pub len: usize,
}

impl<'a> SliceWriter<'a> {
    /// Whether the populated length lies within the buffer. Every operation of
    /// the writer keeps it, and [`SliceWriter::new`], [`SliceWriter::clear`]
    /// and [`SliceWriter::split`] establish it.
    pub open spec fn well_formed(&self) -> bool {
        self.len <= self.buf@.len()
    }

    /// Create a new instance
    pub fn new(buf: &'a mut [u8]) -> (r: Self)
        ensures
            r.len == 0,
            r.buf@ == old(buf)@,
            r.well_formed(),
    {
        SliceWriter { buf, len: 0 }
    }

    /// Return populated length
    pub fn len(&self) -> (r: usize)
        ensures
            r == self.len,
    {
        self.len
    }

    /// Return whether the output is not populated.
    pub fn is_empty(&self) -> (r: bool)
        ensures
            r == (self.len == 0),
    {
        self.len == 0
    }

    /// Return total capacity of the container
    pub fn capacity(&self) -> (r: usize)
        ensures
            r == old(self.buf)@.len(),
    {
        self.buf.len()
    }

    /// Return remaining free capacity
    pub fn rem_capacity(&self) -> (r: usize)
        requires
            self.well_formed(),
        ensures
            r == old(self.buf)@.len() - self.len,
    {
        self.buf.len() - self.len
    }

    /// Reset cursor to the beginning of a container slice
    pub fn clear(&mut self)
        ensures
            final(self).len == 0,
            final(self).buf@ == old(self).buf@,
            final(self).well_formed(),
    {
        self.len = 0;
    }

    /// Split the underlying buffer and return the portion of the populated buffer
    /// with an underlying buffer's borrowed lifetime.
    ///
    /// Once a [`SliceWriter`] is dropped the slice stays borrowed as long as the
    /// original container lives.
    pub fn split(self) -> (r: (&'a mut [u8], Self))
        requires
            self.well_formed(),
        ensures
            r.0@ == old(self.buf)@.take(self.len as int),
            r.1.buf@ == old(self.buf)@.skip(self.len as int),
            r.1.len == 0,
            r.1.well_formed(),
    {
        let len = self.len;
        let buf = self.buf;
        let (res, rest) = buf.split_at_mut(len);
        (res, SliceWriter { buf: rest, len: 0 })
    }
}

impl<'a> SerWrite for SliceWriter<'a> {
    type Error = SerError;

    open spec fn written(&self) -> Seq<u8> {
        self.buf@.take(self.len as int)
    }

    fn write(&mut self, buf: &[u8]) -> (r: Result<(), SerError>)
        ensures
            r is Ok <==> old(self).len <= old(self).buf@.len() && old(self).len + buf@.len()
                <= old(self).buf@.len(),
            r is Ok ==> final(self).len == old(self).len + buf@.len(),
            r is Ok ==> final(self).buf@ == old(self).buf@.take(old(self).len as int) + buf@
                + old(self).buf@.skip(old(self).len + buf@.len()),
            r is Err ==> *final(self) == *old(self) && r == Err::<(), SerError>(
                SerError::BufferFull,
            ),
            old(self).well_formed() ==> final(self).well_formed(),
    {
        if self.len <= self.buf.len() && buf.len() <= self.buf.len() - self.len {
            let mut i: usize = 0;
            let ghost start = self.len as int;
            while i < buf.len()
                invariant
                    i <= buf.len(),
                    self.len + buf.len() <= self.buf.len(),
                    self.buf@.len() == old(self).buf@.len(),
                    self.len == old(self).len,
                    start == self.len,
                    forall|j: int| 0 <= j < start ==> self.buf@[j] == old(self).buf@[j],
                    forall|j: int|
                        start + buf@.len() <= j < self.buf@.len() ==> self.buf@[j] == old(
                            self,
                        ).buf@[j],
                    forall|j: int| 0 <= j < i ==> self.buf@[start + j] == buf@[j],
                decreases buf.len() - i,
            {
                self.buf[self.len + i] = buf[i];
                i += 1;
            }
            self.len = self.len + buf.len();
            assert(self.buf@ =~= old(self).buf@.take(start) + buf@ + old(self).buf@.skip(
                start + buf@.len(),
            ));
            assert(self.buf@.take(self.len as int) =~= old(self).buf@.take(start) + buf@);
            Ok(())
        } else {
            Err(SerError::BufferFull)
        }
    }

    fn write_byte(&mut self, byte: u8) -> (r: Result<(), SerError>)
        ensures
            r is Ok <==> old(self).len < old(self).buf@.len(),
            r is Ok ==> final(self).len == old(self).len + 1,
            r is Ok ==> final(self).buf@ == old(self).buf@.take(old(self).len as int) + seq![byte]
                + old(self).buf@.skip(old(self).len + 1),
            r is Err ==> *final(self) == *old(self) && r == Err::<(), SerError>(
                SerError::BufferFull,
            ),
            old(self).well_formed() ==> final(self).well_formed(),
    {
        let buf = [byte];
        proof {
            assert(buf@ =~= seq![byte]);
        }
        self.write(buf.as_slice())
    }

    fn write_str(&mut self, s: &str) -> (r: Result<(), SerError>)
        ensures
            r is Ok <==> old(self).len <= old(self).buf@.len() && old(self).len + s.spec_bytes().len()
                <= old(self).buf@.len(),
            r is Ok ==> final(self).len == old(self).len + s.spec_bytes().len(),
            r is Ok ==> final(self).buf@ == old(self).buf@.take(old(self).len as int) + s.spec_bytes()
                + old(self).buf@.skip(old(self).len + s.spec_bytes().len()),
            r is Err ==> *final(self) == *old(self) && r == Err::<(), SerError>(
                SerError::BufferFull,
            ),
            old(self).well_formed() ==> final(self).well_formed(),
    {
        self.write(s.as_bytes())
    }
}

/// The unit error value of `core::fmt`.
#[verifier::external_type_specification]
#[verifier::external_body]
pub struct ExFmtError(core::fmt::Error);

/// Produces the unit error value `core::fmt::Error`; nothing is claimed of it.
#[verifier::external_body]
fn fmt_error() -> core::fmt::Error {
    core::fmt::Error
}

impl<'a> AsRef<[u8]> for SliceWriter<'a> {
    /// Returns a populated portion of the slice
    fn as_ref(&self) -> (r: &[u8])
        ensures
            r@ == old(self.buf)@.take(
                if self.len <= old(self.buf)@.len() {
                    self.len as int
                } else {
                    old(self.buf)@.len() as int
                },
            ),
    {
        let end = if self.len <= self.buf.len() {
            self.len
        } else {
            self.buf.len()
        };
        vstd::slice::slice_subrange(&*self.buf, 0, end)
    }
}

impl<'a> AsMut<[u8]> for SliceWriter<'a> {
    /// Returns a populated portion of the slice
    fn as_mut(&mut self) -> (r: &mut [u8])
        ensures
            ({
                let end = if old(self).len <= old(self).buf@.len() {
                    old(self).len as int
                } else {
                    old(self).buf@.len() as int
                };
                &&& r@ == old(self).buf@.take(end)
                &&& final(self).len == old(self).len
                &&& final(self).buf@ == final(r)@ + old(self).buf@.skip(end)
            }),
    {
        let end = if self.len <= self.buf.len() {
            self.len
        } else {
            self.buf.len()
        };
        let (head, _tail) = self.buf.split_at_mut(end);
        head
    }
}

} // verus!
