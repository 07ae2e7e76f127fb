//! [`SerWrite`] sinks appending to the vectors of `arrayvec`, `heapless`,
//! `smallvec` and `tinyvec`.
//!
//! Each sink holds the outside vector together with a ghost record of the
//! bytes the vector holds. The functions that call the outside vector are
//! trusted: each states how the call changes that record, as the outside
//! source shows it. Everything above them is verified.
use vstd::prelude::*;

use crate::{SerError, SerWrite};

verus! {

/// `arrayvec::ArrayVec`: a vector of at most `CAP` items stored inline.
#[verifier::external_type_specification]
#[verifier::external_body]
#[verifier::reject_recursive_types(T)]
pub struct ExArrayVec<T, const CAP: usize>(arrayvec::ArrayVec<T, CAP>);

/// A sink appending to an `arrayvec::ArrayVec<u8, CAP>`: a write that does not
/// fit in the remaining capacity is refused and leaves the vector unchanged.
pub struct ArrayVecWriter<const CAP: usize> {
    vec: arrayvec::ArrayVec<u8, CAP>,
    held: Ghost<Seq<u8>>,
}

impl<const CAP: usize> ArrayVecWriter<CAP> {
    /// `ArrayVec::new`: an empty vector. It panics for a capacity above
    /// `u32::MAX`, which it cannot count.
    #[verifier::external_body]
    fn empty() -> (r: Self)
        requires
            CAP <= u32::MAX,
        ensures
            r.held@ == Seq::<u8>::empty(),
    {
        ArrayVecWriter { vec: arrayvec::ArrayVec::new(), held: Ghost(Seq::empty()) }
    }

    /// `ArrayVec::try_extend_from_slice`: appends the bytes when they fit in
    /// the remaining capacity, and otherwise fails and changes nothing.
    #[verifier::external_body]
    fn try_extend(&mut self, buf: &[u8]) -> (r: bool)
        ensures
            r <==> old(self).held@.len() + buf@.len() <= CAP,
            r ==> final(self).held@ == old(self).held@ + buf@,
            !r ==> final(self).held@ == old(self).held@,
    {
        self.vec.try_extend_from_slice(buf).is_ok()
    }

    /// `ArrayVec::try_push`: appends the byte when the vector is not full, and
    /// otherwise fails and changes nothing.
    #[verifier::external_body]
    fn try_push(&mut self, byte: u8) -> (r: bool)
        ensures
            r <==> old(self).held@.len() < CAP,
            r ==> final(self).held@ == old(self).held@.push(byte),
            !r ==> final(self).held@ == old(self).held@,
    {
        self.vec.try_push(byte).is_ok()
    }

    /// `ArrayVec::as_slice`: the bytes the vector holds.
    #[verifier::external_body]
    fn bytes(&self) -> (r: &[u8])
        ensures
            r@ == self.held@,
    {
        self.vec.as_slice()
    }

    /// An empty sink.
    pub fn new() -> (r: Self)
        requires
            CAP <= u32::MAX,
        ensures
            r.written() == Seq::<u8>::empty(),
    {
        Self::empty()
    }

    /// The bytes written so far.
    pub fn as_slice(&self) -> (r: &[u8])
        ensures
            r@ == self.written(),
    {
        self.bytes()
    }

    /// The vector that holds the bytes written.
    pub fn into_inner(self) -> arrayvec::ArrayVec<u8, CAP> {
        self.vec
    }
}

impl<const CAP: usize> SerWrite for ArrayVecWriter<CAP> {
    type Error = SerError;

    closed spec fn written(&self) -> Seq<u8> {
        self.held@
    }

    fn write(&mut self, buf: &[u8]) -> (r: Result<(), SerError>)
        ensures
            r is Ok <==> (*old(self)).written().len() + buf@.len() <= CAP,
            r is Err ==> (*final(self)).written() == (*old(self)).written() && r == Err::<(), SerError>(
                SerError::BufferFull,
            ),
    {
        if self.try_extend(buf) {
            Ok(())
        } else {
            Err(SerError::BufferFull)
        }
    }

    fn write_byte(&mut self, byte: u8) -> (r: Result<(), SerError>)
        ensures
            r is Ok <==> (*old(self)).written().len() < CAP,
            r is Err ==> (*final(self)).written() == (*old(self)).written() && r == Err::<(), SerError>(
                SerError::BufferFull,
            ),
    {
        if self.try_push(byte) {
            Ok(())
        } else {
            Err(SerError::BufferFull)
        }
    }
}



/// A `heapless::Vec<u8, CAP>`, a vector of at most `CAP` bytes stored inline.
/// Its storage type is private to `heapless` and cannot be declared, so the
/// vector is held here out of the verifier's sight.
#[verifier::external_body]
struct HeaplessVec<const CAP: usize>(heapless::Vec<u8, CAP>);

/// A sink appending to a `heapless::Vec<u8, CAP>`: a write that does not fit
/// in the remaining capacity is refused and leaves the vector unchanged.
pub struct HeaplessWriter<const CAP: usize> {
    vec: HeaplessVec<CAP>,
    held: Ghost<Seq<u8>>,
}

impl<const CAP: usize> HeaplessWriter<CAP> {
    /// `heapless::Vec::new`: an empty vector.
    #[verifier::external_body]
    fn empty() -> (r: Self)
        ensures
            r.held@ == Seq::<u8>::empty(),
    {
        HeaplessWriter { vec: HeaplessVec(heapless::Vec::new()), held: Ghost(Seq::empty()) }
    }

    /// `heapless::Vec::extend_from_slice`: appends the bytes when they fit in
    /// the remaining capacity, and otherwise fails and changes nothing.
    #[verifier::external_body]
    fn try_extend(&mut self, buf: &[u8]) -> (r: bool)
        ensures
            r <==> old(self).held@.len() + buf@.len() <= CAP,
            r ==> final(self).held@ == old(self).held@ + buf@,
            !r ==> final(self).held@ == old(self).held@,
    {
        self.vec.0.extend_from_slice(buf).is_ok()
    }

    /// `heapless::Vec::push`: appends the byte when the vector is not full,
    /// and otherwise fails and changes nothing.
    #[verifier::external_body]
    fn try_push(&mut self, byte: u8) -> (r: bool)
        ensures
            r <==> old(self).held@.len() < CAP,
            r ==> final(self).held@ == old(self).held@.push(byte),
            !r ==> final(self).held@ == old(self).held@,
    {
        self.vec.0.push(byte).is_ok()
    }

    /// `heapless::Vec::as_slice`: the bytes the vector holds.
    #[verifier::external_body]
    fn bytes(&self) -> (r: &[u8])
        ensures
            r@ == self.held@,
    {
        self.vec.0.as_slice()
    }

    /// An empty sink.
    pub fn new() -> (r: Self)
        ensures
            r.written() == Seq::<u8>::empty(),
    {
        Self::empty()
    }

    /// The bytes written so far.
    pub fn as_slice(&self) -> (r: &[u8])
        ensures
            r@ == self.written(),
    {
        self.bytes()
    }
}

impl<const CAP: usize> SerWrite for HeaplessWriter<CAP> {
    type Error = SerError;

    closed spec fn written(&self) -> Seq<u8> {
        self.held@
    }

    fn write(&mut self, buf: &[u8]) -> (r: Result<(), SerError>)
        ensures
            r is Ok <==> (*old(self)).written().len() + buf@.len() <= CAP,
            r is Err ==> (*final(self)).written() == (*old(self)).written() && r == Err::<(), SerError>(
                SerError::BufferFull,
            ),
    {
        if self.try_extend(buf) {
            Ok(())
        } else {
            Err(SerError::BufferFull)
        }
    }

    fn write_byte(&mut self, byte: u8) -> (r: Result<(), SerError>)
        ensures
            r is Ok <==> (*old(self)).written().len() < CAP,
            r is Err ==> (*final(self)).written() == (*old(self)).written() && r == Err::<(), SerError>(
                SerError::BufferFull,
            ),
    {
        if self.try_push(byte) {
            Ok(())
        } else {
            Err(SerError::BufferFull)
        }
    }
}

/// `tinyvec::ArrayVec`: a vector stored inline in the array type `A`.
#[verifier::external_type_specification]
#[verifier::external_body]
#[verifier::reject_recursive_types(A)]
pub struct ExTinyArrayVec<A>(tinyvec::ArrayVec<A>);

/// The number of bytes a `tinyvec::ArrayVec<[u8; CAP]>` can hold: it counts
/// its length in a `u16`.
pub open spec fn tiny_capacity(cap: usize) -> nat {
    if cap <= u16::MAX {
        cap as nat
    } else {
        u16::MAX as nat
    }
}

/// A sink appending to a `tinyvec::ArrayVec<[u8; CAP]>`: a write that does
/// not fit in the remaining capacity is refused and leaves the vector
/// unchanged.
#[verifier::reject_recursive_types(CAP)]
pub struct TinyArrayVecWriter<const CAP: usize> {
    vec: tinyvec::ArrayVec<[u8; CAP]>,
    held: Ghost<Seq<u8>>,
}

impl<const CAP: usize> TinyArrayVecWriter<CAP> {
    /// `tinyvec::ArrayVec::new`: an empty vector.
    #[verifier::external_body]
    fn empty() -> (r: Self)
        ensures
            r.held@ == Seq::<u8>::empty(),
    {
        TinyArrayVecWriter { vec: tinyvec::ArrayVec::new(), held: Ghost(Seq::empty()) }
    }

    /// `tinyvec::ArrayVec::capacity`: the length of the array, at most `u16::MAX`.
    #[verifier::external_body]
    fn capacity(&self) -> (r: usize)
        ensures
            r == tiny_capacity(CAP),
    {
        self.vec.capacity()
    }

    /// `tinyvec::ArrayVec::len`: the number of bytes held, never above the capacity.
    #[verifier::external_body]
    fn len(&self) -> (r: usize)
        ensures
            r == self.held@.len(),
            r <= tiny_capacity(CAP),
    {
        self.vec.len()
    }

    /// `tinyvec::ArrayVec::extend_from_slice`: appends bytes that fit in the
    /// capacity. It panics on bytes that do not.
    #[verifier::external_body]
    fn extend(&mut self, buf: &[u8])
        requires
            old(self).held@.len() + buf@.len() <= tiny_capacity(CAP),
        ensures
            final(self).held@ == old(self).held@ + buf@,
    {
        self.vec.extend_from_slice(buf)
    }

    /// `tinyvec::ArrayVec::push`: appends a byte to a vector that is not full.
    /// It panics on a full vector.
    #[verifier::external_body]
    fn push(&mut self, byte: u8)
        requires
            old(self).held@.len() < tiny_capacity(CAP),
        ensures
            final(self).held@ == old(self).held@.push(byte),
    {
        self.vec.push(byte)
    }

    /// `tinyvec::ArrayVec::as_slice`: the bytes the vector holds.
    #[verifier::external_body]
    fn bytes(&self) -> (r: &[u8])
        ensures
            r@ == self.held@,
    {
        self.vec.as_slice()
    }

    /// An empty sink.
    pub fn new() -> (r: Self)
        ensures
            r.written() == Seq::<u8>::empty(),
    {
        Self::empty()
    }

    /// The bytes written so far.
    pub fn as_slice(&self) -> (r: &[u8])
        ensures
            r@ == self.written(),
    {
        self.bytes()
    }

    /// The vector that holds the bytes written.
    pub fn into_inner(self) -> tinyvec::ArrayVec<[u8; CAP]> {
        self.vec
    }
}

impl<const CAP: usize> SerWrite for TinyArrayVecWriter<CAP> {
    type Error = SerError;

    closed spec fn written(&self) -> Seq<u8> {
        self.held@
    }

    /// Refuses bytes beyond the capacity, which `tinyvec` counts up to
    /// `u16::MAX` at most.
    fn write(&mut self, buf: &[u8]) -> (r: Result<(), SerError>)
        ensures
            r is Ok <==> (*old(self)).written().len() + buf@.len() <= tiny_capacity(CAP),
            r is Err ==> (*final(self)).written() == (*old(self)).written() && r == Err::<(), SerError>(
                SerError::BufferFull,
            ),
    {
        let cap = self.capacity();
        let len = self.len();
        if buf.len() <= cap - len {
            self.extend(buf);
            Ok(())
        } else {
            Err(SerError::BufferFull)
        }
    }

    fn write_byte(&mut self, byte: u8) -> (r: Result<(), SerError>)
        ensures
            r is Ok <==> (*old(self)).written().len() < tiny_capacity(CAP),
            r is Err ==> (*final(self)).written() == (*old(self)).written() && r == Err::<(), SerError>(
                SerError::BufferFull,
            ),
    {
        let cap = self.capacity();
        let len = self.len();
        if len < cap {
            self.push(byte);
            Ok(())
        } else {
            Err(SerError::BufferFull)
        }
    }
}

/// `tinyvec::SliceVec`: a vector stored in a borrowed slice.
#[verifier::external_type_specification]
#[verifier::external_body]
#[verifier::reject_recursive_types(T)]
pub struct ExSliceVec<'s, T>(tinyvec::SliceVec<'s, T>);

/// A sink appending to a `tinyvec::SliceVec<u8>` over a borrowed slice: a
/// write that does not fit in the rest of the slice is refused and leaves the
/// vector unchanged.
pub struct SliceVecWriter<'s> {
    vec: tinyvec::SliceVec<'s, u8>,
    held: Ghost<Seq<u8>>,
    cap: Ghost<nat>,
}

impl<'s> SliceVecWriter<'s> {
    /// `tinyvec::SliceVec::from_slice_len`: the vector over `data` that holds
    /// its first `len` bytes. It panics when `len` exceeds the slice.
    #[verifier::external_body]
    fn wrap(data: &'s mut [u8], len: usize) -> (r: Self)
        requires
            len <= old(data)@.len(),
        ensures
            r.held@ == old(data)@.take(len as int),
            r.cap@ == old(data)@.len(),
    {
        let held = Ghost(data@.take(len as int));
        let cap = Ghost(data@.len());
        SliceVecWriter { vec: tinyvec::SliceVec::from_slice_len(data, len), held, cap }
    }

    /// `tinyvec::SliceVec::capacity`: the length of the slice.
    #[verifier::external_body]
    fn capacity(&self) -> (r: usize)
        ensures
            r == self.cap@,
    {
        self.vec.capacity()
    }

    /// `tinyvec::SliceVec::len`: the number of bytes held, never above the capacity.
    #[verifier::external_body]
    fn len(&self) -> (r: usize)
        ensures
            r == self.held@.len(),
            r <= self.cap@,
    {
        self.vec.len()
    }

    /// `tinyvec::SliceVec::extend_from_slice`: appends bytes that fit in the
    /// capacity. It panics on bytes that do not.
    #[verifier::external_body]
    fn extend(&mut self, buf: &[u8])
        requires
            old(self).held@.len() + buf@.len() <= old(self).cap@,
        ensures
            final(self).held@ == old(self).held@ + buf@,
            final(self).cap@ == old(self).cap@,
    {
        self.vec.extend_from_slice(buf)
    }

    /// `tinyvec::SliceVec::as_slice`: the bytes the vector holds.
    #[verifier::external_body]
    fn bytes(&self) -> (r: &[u8])
        ensures
            r@ == self.held@,
    {
        self.vec.as_slice()
    }

    /// A sink over `data` that already holds its first `len` bytes.
    pub fn from_slice_len(data: &'s mut [u8], len: usize) -> (r: Self)
        requires
            len <= old(data)@.len(),
        ensures
            r.written() == old(data)@.take(len as int),
            r.capacity_spec() == old(data)@.len(),
    {
        Self::wrap(data, len)
    }

    /// The number of bytes the slice can hold.
    pub closed spec fn capacity_spec(&self) -> nat {
        self.cap@
    }

    /// The bytes written so far.
    pub fn as_slice(&self) -> (r: &[u8])
        ensures
            r@ == self.written(),
    {
        self.bytes()
    }

    /// The vector that holds the bytes written.
    pub fn into_inner(self) -> tinyvec::SliceVec<'s, u8> {
        self.vec
    }
}

impl<'s> SerWrite for SliceVecWriter<'s> {
    type Error = SerError;

    closed spec fn written(&self) -> Seq<u8> {
        self.held@
    }

    fn write(&mut self, buf: &[u8]) -> (r: Result<(), SerError>)
        ensures
            r is Ok <==> (*old(self)).written().len() + buf@.len() <= old(self).capacity_spec(),
            final(self).capacity_spec() == old(self).capacity_spec(),
            r is Err ==> (*final(self)).written() == (*old(self)).written() && r == Err::<(), SerError>(
                SerError::BufferFull,
            ),
    {
        let cap = self.capacity();
        let len = self.len();
        if buf.len() <= cap - len {
            self.extend(buf);
            Ok(())
        } else {
            Err(SerError::BufferFull)
        }
    }
}

/// A `smallvec::SmallVec<[u8; CAP]>`, a vector stored inline until it
/// outgrows `CAP` bytes, then on the heap. The type is bounded by a trait of
/// `smallvec`, which the verifier refuses to declare, so the vector is held
/// here out of its sight.
#[verifier::external_body]
struct SmallVecBytes<const CAP: usize>(smallvec::SmallVec<[u8; CAP]>);

/// A sink appending to a `smallvec::SmallVec<[u8; CAP]>`, which grows onto the
/// heap: a write fails only when the room for it cannot be reserved, and then
/// leaves the vector unchanged.
///
/// `room` is a number of bytes the vector can take without growing.
#[verifier::reject_recursive_types(CAP)]
pub struct SmallVecWriter<const CAP: usize> {
    vec: SmallVecBytes<CAP>,
    held: Ghost<Seq<u8>>,
    room: Ghost<nat>,
}

impl<const CAP: usize> SmallVecWriter<CAP> {
    /// `smallvec::SmallVec::new`: an empty vector.
    #[verifier::external_body]
    fn empty() -> (r: Self)
        ensures
            r.held@ == Seq::<u8>::empty(),
            r.room@ == 0,
    {
        SmallVecWriter { vec: SmallVecBytes(smallvec::SmallVec::new()), held: Ghost(Seq::empty()), room: Ghost(0) }
    }

    /// `smallvec::SmallVec::try_reserve`: makes room for `n` more bytes, or
    /// fails. The bytes held do not change either way; whether it succeeds
    /// depends on the allocator.
    #[verifier::external_body]
    fn try_reserve(&mut self, n: usize) -> (r: bool)
        ensures
            final(self).held@ == old(self).held@,
            r ==> final(self).room@ == n,
            !r ==> final(self).room@ == 0,
    {
        self.vec.0.try_reserve(n).is_ok()
    }

    /// `smallvec::SmallVec::extend_from_slice`: appends bytes for which room
    /// was made, so that the vector does not grow.
    #[verifier::external_body]
    fn extend(&mut self, buf: &[u8])
        requires
            buf@.len() <= old(self).room@,
        ensures
            final(self).held@ == old(self).held@ + buf@,
            final(self).room@ == old(self).room@ - buf@.len(),
    {
        self.vec.0.extend_from_slice(buf)
    }

    /// `smallvec::SmallVec::push`: appends a byte for which room was made, so
    /// that the vector does not grow.
    #[verifier::external_body]
    fn push(&mut self, byte: u8)
        requires
            1 <= old(self).room@,
        ensures
            final(self).held@ == old(self).held@.push(byte),
            final(self).room@ == old(self).room@ - 1,
    {
        self.vec.0.push(byte)
    }

    /// `smallvec::SmallVec::as_slice`: the bytes the vector holds.
    #[verifier::external_body]
    fn bytes(&self) -> (r: &[u8])
        ensures
            r@ == self.held@,
    {
        self.vec.0.as_slice()
    }

    /// An empty sink.
    pub fn new() -> (r: Self)
        ensures
            r.written() == Seq::<u8>::empty(),
    {
        Self::empty()
    }

    /// The bytes written so far.
    pub fn as_slice(&self) -> (r: &[u8])
        ensures
            r@ == self.written(),
    {
        self.bytes()
    }

}

impl<const CAP: usize> SerWrite for SmallVecWriter<CAP> {
    type Error = SerError;

    closed spec fn written(&self) -> Seq<u8> {
        self.held@
    }

    fn write(&mut self, buf: &[u8]) -> (r: Result<(), SerError>)
        ensures
            r is Err ==> (*final(self)).written() == (*old(self)).written() && r == Err::<(), SerError>(
                SerError::BufferFull,
            ),
    {
        if self.try_reserve(buf.len()) {
            self.extend(buf);
            Ok(())
        } else {
            Err(SerError::BufferFull)
        }
    }

    fn write_byte(&mut self, byte: u8) -> (r: Result<(), SerError>)
        ensures
            r is Err ==> (*final(self)).written() == (*old(self)).written() && r == Err::<(), SerError>(
                SerError::BufferFull,
            ),
    {
        if self.try_reserve(1) {
            self.push(byte);
            Ok(())
        } else {
            Err(SerError::BufferFull)
        }
    }
}

/// A `tinyvec::TinyVec<[u8; CAP]>`, a vector stored inline until it outgrows
/// `CAP` bytes, then in a `Vec` on the heap. The type is bounded by a trait of
/// `tinyvec`, which the verifier refuses to declare, so the vector is held here
/// out of its sight.
#[verifier::external_body]
struct TinyVecBytes<const CAP: usize>(tinyvec::TinyVec<[u8; CAP]>);

/// A sink appending to a `tinyvec::TinyVec<[u8; CAP]>`, which grows onto the
/// heap: a write fails only when the room for it cannot be reserved, and then
/// leaves the vector unchanged.
///
/// `room` is a number of bytes the vector can take without growing.
#[verifier::reject_recursive_types(CAP)]
pub struct TinyVecWriter<const CAP: usize> {
    vec: TinyVecBytes<CAP>,
    held: Ghost<Seq<u8>>,
    room: Ghost<nat>,
}

impl<const CAP: usize> TinyVecWriter<CAP> {
    /// `tinyvec::TinyVec::new`: an empty vector.
    #[verifier::external_body]
    fn empty() -> (r: Self)
        ensures
            r.held@ == Seq::<u8>::empty(),
            r.room@ == 0,
    {
        TinyVecWriter { vec: TinyVecBytes(tinyvec::TinyVec::new()), held: Ghost(Seq::empty()), room: Ghost(0) }
    }

    /// `tinyvec::TinyVec::len`: the number of bytes held.
    #[verifier::external_body]
    fn len(&self) -> (r: usize)
        ensures
            r == self.held@.len(),
    {
        self.vec.0.len()
    }

    /// `tinyvec::TinyVec::try_reserve`: makes room for `n` more bytes, or
    /// fails. The bytes held do not change either way; whether it succeeds
    /// depends on the allocator. Moving the bytes to the heap adds `n` to
    /// their number, which must not overflow.
    #[verifier::external_body]
    fn try_reserve(&mut self, n: usize) -> (r: bool)
        requires
            old(self).held@.len() + n <= usize::MAX,
        ensures
            final(self).held@ == old(self).held@,
            r ==> final(self).room@ == n,
            !r ==> final(self).room@ == 0,
    {
        self.vec.0.try_reserve(n).is_ok()
    }

    /// `tinyvec::TinyVec::extend_from_slice`: appends bytes for which room was
    /// made, so that the vector does not grow.
    #[verifier::external_body]
    fn extend(&mut self, buf: &[u8])
        requires
            buf@.len() <= old(self).room@,
        ensures
            final(self).held@ == old(self).held@ + buf@,
            final(self).room@ == old(self).room@ - buf@.len(),
    {
        self.vec.0.extend_from_slice(buf)
    }

    /// `tinyvec::TinyVec::as_slice`: the bytes the vector holds.
    #[verifier::external_body]
    fn bytes(&self) -> (r: &[u8])
        ensures
            r@ == self.held@,
    {
        self.vec.0.as_slice()
    }

    /// An empty sink.
    pub fn new() -> (r: Self)
        ensures
            r.written() == Seq::<u8>::empty(),
    {
        Self::empty()
    }

    /// The bytes written so far.
    pub fn as_slice(&self) -> (r: &[u8])
        ensures
            r@ == self.written(),
    {
        self.bytes()
    }

}

impl<const CAP: usize> SerWrite for TinyVecWriter<CAP> {
    type Error = SerError;

    closed spec fn written(&self) -> Seq<u8> {
        self.held@
    }

    /// Refuses bytes whose number added to those held would overflow a `usize`.
    fn write(&mut self, buf: &[u8]) -> (r: Result<(), SerError>)
        ensures
            r is Err ==> (*final(self)).written() == (*old(self)).written() && r == Err::<(), SerError>(
                SerError::BufferFull,
            ),
    {
        let len = self.len();
        if buf.len() > usize::MAX - len {
            return Err(SerError::BufferFull);
        }
        if self.try_reserve(buf.len()) {
            self.extend(buf);
            Ok(())
        } else {
            Err(SerError::BufferFull)
        }
    }
}

} // verus!
