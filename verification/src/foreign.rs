//! Implementations of [`SerWrite`] for standard containers.
use std::collections::TryReserveError;
use std::collections::VecDeque;
use std::vec::Vec;
use vstd::prelude::*;

use crate::{SerError, SerWrite};

verus! {

impl SerWrite for Vec<u8> {
    type Error = SerError;

    open spec fn written(&self) -> Seq<u8> {
        self@
    }

    fn write(&mut self, buf: &[u8]) -> (r: Result<(), SerError>)
        ensures
            r is Err ==> final(self)@ == old(self)@ && r == Err::<(), SerError>(
                SerError::BufferFull,
            ),
    {
        match self.try_reserve(buf.len()) {
            Ok(()) => {},
            Err(_) => return Err(SerError::BufferFull),
        }
        let ghost start = self@;
        let mut i: usize = 0;
        while i < buf.len()
            invariant
                i <= buf@.len(),
                self@ == start + buf@.take(i as int),
            decreases buf.len() - i,
        {
            self.push(buf[i]);
            i += 1;
            assert(self@ =~= start + buf@.take(i as int));
        }
        assert(buf@.take(i as int) =~= buf@);
        Ok(())
    }

    fn write_byte(&mut self, byte: u8) -> (r: Result<(), SerError>)
        ensures
            r is Err ==> final(self)@ == old(self)@ && r == Err::<(), SerError>(
                SerError::BufferFull,
            ),
    {
        match self.try_reserve(1) {
            Ok(()) => {},
            Err(_) => return Err(SerError::BufferFull),
        }
        self.push(byte);
        Ok(())
    }
}

/// `VecDeque::try_reserve`: reserving capacity leaves the content of the deque
/// unchanged. Whether the reservation succeeds depends on the allocator and is
/// not stated.
#[verifier::external_body]
fn vec_deque_try_reserve(deque: &mut VecDeque<u8>, additional: usize) -> (r: Result<
    (),
    TryReserveError,
>)
    ensures
        final(deque)@ == old(deque)@,
{
    deque.try_reserve(additional)
}

impl SerWrite for VecDeque<u8> {
    type Error = SerError;

    open spec fn written(&self) -> Seq<u8> {
        self@
    }

    fn write(&mut self, buf: &[u8]) -> (r: Result<(), SerError>)
        ensures
            r is Err ==> final(self)@ == old(self)@ && r == Err::<(), SerError>(
                SerError::BufferFull,
            ),
    {
        match vec_deque_try_reserve(self, buf.len()) {
            Ok(()) => {},
            Err(_) => return Err(SerError::BufferFull),
        }
        let ghost start = self@;
        let mut i: usize = 0;
        while i < buf.len()
            invariant
                i <= buf@.len(),
                self@ == start + buf@.take(i as int),
            decreases buf.len() - i,
        {
            self.push_back(buf[i]);
            i += 1;
            assert(self@ =~= start + buf@.take(i as int));
        }
        assert(buf@.take(i as int) =~= buf@);
        Ok(())
    }

    fn write_byte(&mut self, byte: u8) -> (r: Result<(), SerError>)
        ensures
            r is Err ==> final(self)@ == old(self)@ && r == Err::<(), SerError>(
                SerError::BufferFull,
            ),
    {
        match vec_deque_try_reserve(self, 1) {
            Ok(()) => {},
            Err(_) => return Err(SerError::BufferFull),
        }
        self.push_back(byte);
        Ok(())
    }
}

} // verus!
