//! Formatting into a [`SliceWriter`] through [`core::fmt::Write`].
//!
//! The impl lives apart from [`SerWrite`]: both traits name a method `write_str`,
//! and here only the one of `core::fmt::Write` is in scope.
use vstd::prelude::*;
use vstd::string::StringSliceAdditionalSpecFns;

use crate::SliceWriter;

verus! {

impl<'a> core::fmt::Write for SliceWriter<'a> {
    fn write_str(&mut self, s: &str) -> (r: core::fmt::Result)
        ensures
            r is Ok <==> old(self).len <= old(self).buf@.len() && old(self).len + s.spec_bytes().len()
                <= old(self).buf@.len(),
            r is Ok ==> final(self).len == old(self).len + s.spec_bytes().len(),
            r is Ok ==> final(self).buf@ == old(self).buf@.take(old(self).len as int) + s.spec_bytes()
                + old(self).buf@.skip(old(self).len + s.spec_bytes().len()),
            r is Err ==> *final(self) == *old(self),
    {
        match crate::SerWrite::write(self, s.as_bytes()) {
            Ok(()) => Ok(()),
            Err(_) => Err(crate::fmt_error()),
        }
    }
}

} // verus!
