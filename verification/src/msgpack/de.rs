//! MessagePack deserializer.
//!
//! The [`Deserializer`] reads MessagePack messages from a slice of bytes.
//! Strings and binary data are returned as references into the input slice.
use vstd::prelude::*;
use vstd::string::StringSliceAdditionalSpecFns;

use super::magick;
use super::magick::{
    ARRAY_16, ARRAY_32, BIN_16, BIN_32, BIN_8, EXT_16, EXT_32, EXT_8, FALSE, FIXARRAY,
    FIXARRAY_MAX, FIXEXT_1, FIXEXT_16, FIXEXT_2, FIXEXT_4, FIXEXT_8, FIXMAP, FIXMAP_MAX, FIXSTR,
    FIXSTR_MAX, FLOAT_32, FLOAT_64, INT_16, INT_32, INT_64, INT_8, MAP_16, MAP_32, MAX_POSFIXINT,
    NEGFIXINT, NIL, RESERVED, STR_16, STR_32, STR_8, TRUE, UINT_16, UINT_32, UINT_64, UINT_8,
};
use crate::text::str_from_utf8;

verus! {

/// Deserialization result
pub type Result<T> = core::result::Result<T, Error>;

/// Deserialization error
#[derive(Debug, PartialEq, Eq, Clone)]
#[non_exhaustive]
pub enum Error {
    /// EOF while parsing
    UnexpectedEof,
    /// Reserved code was detected
    ReservedCode,
    /// Unsopported extension was detected
    UnsupportedExt,
    /// Number could not be coerced
    InvalidInteger,
    /// Invalid type
    InvalidType,
    /// Invalid unicode code point
    InvalidUnicodeCodePoint,
    /// Expected an integer type
    ExpectedInteger,
    /// Expected a number type
    ExpectedNumber,
    /// Expected a string
    ExpectedString,
    /// Expected a binary type
    ExpectedBin,
    /// Expected NIL type
    ExpectedNil,
    /// Expected an array type
    ExpectedArray,
    /// Expected a map type
    ExpectedMap,
    /// Expected a map or an array type
    ExpectedStruct,
    /// Expected struct or variant identifier
    ExpectedIdentifier,
    /// Trailing unserialized array elements
    TrailingElements,
    /// Invalid length
    InvalidLength,
    /// An error passed down from a deserialized type
    DeserializeError(String),
}

impl Error {
    /// The human readable description of an error that is not passed down
    /// from a deserialized type.
    pub fn description(&self) -> (r: Option<&'static str>)
        ensures
            r is None <==> self is DeserializeError,
            self is UnexpectedEof ==> (r matches Some(s) && s@ == "Unexpected end of MessagePack input"@),
            self is ReservedCode ==> (r matches Some(s) && s@ == "Reserved MessagePack code in input"@),
            self is UnsupportedExt ==> (r matches Some(s) && s@ == "Unsupported MessagePack extension code in input"@),
            self is InvalidInteger ==> (r matches Some(s) && s@ == "Could not coerce integer to a deserialized type"@),
            self is InvalidType ==> (r matches Some(s) && s@ == "Invalid type"@),
            self is InvalidUnicodeCodePoint ==> (r matches Some(s) && s@ == "Invalid unicode code point"@),
            self is ExpectedInteger ==> (r matches Some(s) && s@ == "Expected MessagePack integer"@),
            self is ExpectedNumber ==> (r matches Some(s) && s@ == "Expected MessagePack number"@),
            self is ExpectedString ==> (r matches Some(s) && s@ == "Expected MessagePack string"@),
            self is ExpectedBin ==> (r matches Some(s) && s@ == "Expected MessagePack bin"@),
            self is ExpectedNil ==> (r matches Some(s) && s@ == "Expected MessagePack nil"@),
            self is ExpectedArray ==> (r matches Some(s) && s@ == "Expected MessagePack array"@),
            self is ExpectedMap ==> (r matches Some(s) && s@ == "Expected MessagePack map"@),
            self is ExpectedStruct ==> (r matches Some(s) && s@ == "Expected MessagePack map or array"@),
            self is ExpectedIdentifier ==> (r matches Some(s) && s@ == "Expected a struct field or enum variant identifier"@),
            self is TrailingElements ==> (r matches Some(s) && s@ == "Too many elements for a deserialized type"@),
            self is InvalidLength ==> (r matches Some(s) && s@ == "Invalid length"@),
    {
        match self {
            Error::UnexpectedEof => Some("Unexpected end of MessagePack input"),
            Error::ReservedCode => Some("Reserved MessagePack code in input"),
            Error::UnsupportedExt => Some("Unsupported MessagePack extension code in input"),
            Error::InvalidInteger => Some("Could not coerce integer to a deserialized type"),
            Error::InvalidType => Some("Invalid type"),
            Error::InvalidUnicodeCodePoint => Some("Invalid unicode code point"),
            Error::ExpectedInteger => Some("Expected MessagePack integer"),
            Error::ExpectedNumber => Some("Expected MessagePack number"),
            Error::ExpectedString => Some("Expected MessagePack string"),
            Error::ExpectedBin => Some("Expected MessagePack bin"),
            Error::ExpectedNil => Some("Expected MessagePack nil"),
            Error::ExpectedArray => Some("Expected MessagePack array"),
            Error::ExpectedMap => Some("Expected MessagePack map"),
            Error::ExpectedStruct => Some("Expected MessagePack map or array"),
            Error::ExpectedIdentifier => Some("Expected a struct field or enum variant identifier"),
            Error::TrailingElements => Some("Too many elements for a deserialized type"),
            Error::InvalidLength => Some("Invalid length"),
            Error::DeserializeError(_) => None,
        }
    }
}

/// MessagePack deserializer.
///
/// * deserializes data from a slice,
/// * returns borrowed references to `&str` and `&[u8]` data,
/// * reads structs from MessagePack maps or arrays,
/// * reads integers from any MessagePack integer type as long as the number fits.
///
/// The abstract state is the current input slice and a cursor into it.
pub struct Deserializer<'de> {
    input: &'de [u8],
    index: usize,
}

impl<'de> Deserializer<'de> {
    /// The current input slice.
    pub closed spec fn input_seq(&self) -> Seq<u8> {
        self.input@
    }

    /// The cursor into the current input slice.
    pub closed spec fn cursor(&self) -> int {
        self.index as int
    }

    /// Whether the cursor lies within the input slice or at its end.
    pub open spec fn in_bounds(&self) -> bool {
        0 <= self.cursor() <= self.input_seq().len()
    }

    /// The cursor is never negative.
    pub proof fn lemma_cursor_nonneg(&self)
        ensures
            0 <= self.cursor(),
    {
    }

    /// The unparsed bytes of the input, empty when the cursor is past its end.
    pub open spec fn rest(&self) -> Seq<u8> {
        if self.cursor() <= self.input_seq().len() {
            self.input_seq().skip(self.cursor())
        } else {
            Seq::empty()
        }
    }

    /// Create a new decoder instance by providing a slice from which to
    /// deserialize messages.
    pub fn from_slice(input: &'de [u8]) -> (r: Self)
        ensures
            r.input_seq() == input@,
            r.cursor() == 0,
    {
        Deserializer { input, index: 0 }
    }

    /// Consume the deserializer and return the number of unparsed bytes in
    /// the input slice on success.
    ///
    /// If the input cursor points outside the input slice, an error
    /// `Error::UnexpectedEof` is returned.
    pub fn end(self) -> (r: Result<usize>)
        ensures
            self.cursor() <= self.input_seq().len() ==> r == Ok::<usize, Error>(
                (self.input_seq().len() - self.cursor()) as usize,
            ),
            self.cursor() > self.input_seq().len() ==> r == Err::<usize, Error>(
                Error::UnexpectedEof,
            ),
    {
        if self.index <= self.input.len() {
            Ok(self.input.len() - self.index)
        } else {
            Err(Error::UnexpectedEof)
        }
    }

    /// Return the remaining number of unparsed bytes in the input slice.
    ///
    /// Returns 0 when the input cursor points either at the end or beyond
    /// the end of the input slice.
    pub fn remaining_len(&self) -> (r: usize)
        ensures
            r == self.rest().len(),
    {
        if self.index <= self.input.len() {
            self.input.len() - self.index
        } else {
            0
        }
    }

    /// Peek at the next byte code and return it on success, otherwise return
    /// `Err(Error::UnexpectedEof)` if there are no more unparsed bytes
    /// remaining in the input slice.
    pub fn peek(&self) -> (r: Result<u8>)
        ensures
            self.input_seq().len() <= usize::MAX,
            self.cursor() < self.input_seq().len() ==> r == Ok::<u8, Error>(
                self.input_seq()[self.cursor()],
            ),
            self.cursor() >= self.input_seq().len() ==> r == Err::<u8, Error>(
                Error::UnexpectedEof,
            ),
    {
        if self.index < self.input.len() {
            Ok(self.input[self.index])
        } else {
            Err(Error::UnexpectedEof)
        }
    }

    /// Advance the input cursor by `len` bytes.
    ///
    /// _Note_: this function only increases a cursor without any checks!
    pub fn eat_some(&mut self, len: usize)
        requires
            old(self).cursor() + len <= usize::MAX,
        ensures
            final(self).input_seq() == old(self).input_seq(),
            final(self).cursor() == old(self).cursor() + len,
    {
        self.index += len;
    }

    /// Return a reference to the unparsed portion of the input slice on success.
    ///
    /// If the input cursor points outside the input slice, an error
    /// `Error::UnexpectedEof` is returned.
    pub fn input_ref(&self) -> (r: Result<&[u8]>)
        ensures
            self.cursor() <= self.input_seq().len() ==> (r matches Ok(s) && s@ == self.rest()),
            self.cursor() > self.input_seq().len() ==> (r matches Err(e) && e
                == Error::UnexpectedEof),
    {
        if self.index <= self.input.len() {
            Ok(vstd::slice::slice_subrange(self.input, self.index, self.input.len()))
        } else {
            Err(Error::UnexpectedEof)
        }
    }

    /// Split the unparsed portion of the input slice between `0..len` and on success
    /// return it with the lifetime of the original slice container.
    ///
    /// Drop already parsed bytes and the new unparsed input slice will begin at `len`.
    pub fn split_input(&mut self, len: usize) -> (r: Result<&'de [u8]>)
        ensures
            r is Ok <==> old(self).cursor() <= old(self).input_seq().len() && len <= old(
                self,
            ).rest().len(),
            r matches Ok(res) ==> {
                &&& res@ == old(self).rest().take(len as int)
                &&& final(self).input_seq() == old(self).rest().skip(len as int)
                &&& final(self).cursor() == 0
                &&& final(self).rest() == old(self).rest().skip(len as int)
            },
            r matches Err(e) ==> e == Error::UnexpectedEof && *final(self) == *old(self),
    {
        if self.index <= self.input.len() && len <= self.input.len() - self.index {
            let start = self.index;
            let res = vstd::slice::slice_subrange(self.input, start, start + len);
            let rest = vstd::slice::slice_subrange(self.input, start + len, self.input.len());
            self.input = rest;
            self.index = 0;
            proof {
                assert(res@ =~= old(self).rest().take(len as int));
                assert(rest@ =~= old(self).rest().skip(len as int));
                assert(self.rest() =~= rest@);
            }
            Ok(res)
        } else {
            Err(Error::UnexpectedEof)
        }
    }

    /// Fetch the next byte from input or return an `Err::UnexpectedEof` error.
    pub fn fetch(&mut self) -> (r: Result<u8>)
        ensures
            final(self).input_seq() == old(self).input_seq(),
            old(self).cursor() < old(self).input_seq().len() ==> r == Ok::<u8, Error>(
                old(self).input_seq()[old(self).cursor()],
            ) && final(self).cursor() == old(self).cursor() + 1,
            old(self).cursor() >= old(self).input_seq().len() ==> r == Err::<u8, Error>(
                Error::UnexpectedEof,
            ) && final(self).cursor() == old(self).cursor(),
    {
        if self.index < self.input.len() {
            let c = self.input[self.index];
            self.index += 1;
            Ok(c)
        } else {
            Err(Error::UnexpectedEof)
        }
    }

    /// Fetch the next `N` bytes from input or return an `Err::UnexpectedEof` error.
    fn fetch_array<const N: usize>(&mut self) -> (r: Result<[u8; N]>)
        ensures
            final(self).input_seq() == old(self).input_seq(),
            fits(old(self).input_seq(), old(self).cursor(), N as int) ==> (r matches Ok(a) && a@
                == old(self).input_seq().subrange(old(self).cursor(), old(self).cursor() + N)
                && final(self).cursor() == old(self).cursor() + N),
            !fits(old(self).input_seq(), old(self).cursor(), N as int) ==> r == Err::<
                [u8; N],
                Error,
            >(Error::UnexpectedEof) && final(self).cursor() == old(self).cursor(),
    {
        let index = self.index;
        if index <= self.input.len() && N <= self.input.len() - index {
            let mut res: [u8; N] = [0u8; N];
            let mut k: usize = 0;
            while k < N
                invariant
                    k <= N,
                    index + N <= self.input.len(),
                    forall|j: int| 0 <= j < k ==> res@[j] == self.input@[index + j],
                decreases N - k,
            {
                res[k] = self.input[index + k];
                k += 1;
            }
            assert(res@ =~= self.input@.subrange(index as int, index + N));
            self.eat_some(N);
            Ok(res)
        } else {
            Err(Error::UnexpectedEof)
        }
    }
}

impl<'de> Deserializer<'de> {
    fn fetch_u8(&mut self) -> (r: Result<u8>)
        ensures
            fetched(*old(self), *final(self), 1, mapped(r, |v: u8| v as int), false),
    {
        let a = self.fetch_array::<1>()?;
        let v = be_uint(a.as_slice());
        proof { lemma_pow256_values(); }
        Ok(v as u8)
    }

    fn fetch_i8(&mut self) -> (r: Result<i8>)
        ensures
            fetched(*old(self), *final(self), 1, mapped(r, |v: i8| v as int), true),
    {
        let a = self.fetch_array::<1>()?;
        let v = be_uint(a.as_slice());
        proof { lemma_pow256_values(); }
        if v < 0x80 {
            Ok(v as i8)
        } else {
            Ok(((v as i16) - 0x100) as i8)
        }
    }

    fn fetch_u16(&mut self) -> (r: Result<u16>)
        ensures
            fetched(*old(self), *final(self), 2, mapped(r, |v: u16| v as int), false),
    {
        let a = self.fetch_array::<2>()?;
        let v = be_uint(a.as_slice());
        proof { lemma_pow256_values(); }
        Ok(v as u16)
    }

    fn fetch_i16(&mut self) -> (r: Result<i16>)
        ensures
            fetched(*old(self), *final(self), 2, mapped(r, |v: i16| v as int), true),
    {
        let a = self.fetch_array::<2>()?;
        let v = be_uint(a.as_slice());
        proof { lemma_pow256_values(); }
        if v < 0x8000 {
            Ok(v as i16)
        } else {
            Ok(((v as i32) - 0x10000) as i16)
        }
    }

    fn fetch_u32(&mut self) -> (r: Result<u32>)
        ensures
            fetched(*old(self), *final(self), 4, mapped(r, |v: u32| v as int), false),
    {
        let a = self.fetch_array::<4>()?;
        let v = be_uint(a.as_slice());
        proof { lemma_pow256_values(); }
        Ok(v as u32)
    }

    fn fetch_i32(&mut self) -> (r: Result<i32>)
        ensures
            fetched(*old(self), *final(self), 4, mapped(r, |v: i32| v as int), true),
    {
        let a = self.fetch_array::<4>()?;
        let v = be_uint(a.as_slice());
        proof { lemma_pow256_values(); }
        if v < 0x8000_0000 {
            Ok(v as i32)
        } else {
            Ok(((v as i64) - 0x1_0000_0000) as i32)
        }
    }

    fn fetch_u64(&mut self) -> (r: Result<u64>)
        ensures
            fetched(*old(self), *final(self), 8, mapped(r, |v: u64| v as int), false),
    {
        let a = self.fetch_array::<8>()?;
        let v = be_uint(a.as_slice());
        Ok(v)
    }

    fn fetch_i64(&mut self) -> (r: Result<i64>)
        ensures
            fetched(*old(self), *final(self), 8, mapped(r, |v: i64| v as int), true),
    {
        let a = self.fetch_array::<8>()?;
        let v = be_uint(a.as_slice());
        proof { lemma_pow256_values(); }
        if v < 0x8000_0000_0000_0000 {
            Ok(v as i64)
        } else {
            Ok(((v - 0x8000_0000_0000_0000) as i64) + i64::MIN)
        }
    }
}

impl<'de> Deserializer<'de> {
    /// Read a MessagePack integer of any width and return its value.
    pub fn parse_integer(&mut self) -> (r: Result<i128>)
        ensures
            parsed(*old(self), *final(self), spec_integer(old(self).rest()), mapped(r, |v: i128| v as int)),
    {
        let ghost t = self.rest();
        let ghost s = self.input_seq();
        let ghost i = self.cursor();
        assert(t.skip(0) =~= t);
        let c = self.fetch()?;
        proof { lemma_fetched_rest(*old(self), *self, 1, t, 0); }
        let ghost mid = *self;
        let n: i128 = if c <= MAX_POSFIXINT {
            c as i128
        } else if c >= NEGFIXINT {
            c as i128 - 256
        } else if c == UINT_8 {
            let v = self.fetch_u8();
            proof { lemma_fetched_rest(mid, *self, 1, t, 1); }
            v? as i128
        } else if c == UINT_16 {
            let v = self.fetch_u16();
            proof { lemma_fetched_rest(mid, *self, 2, t, 1); }
            v? as i128
        } else if c == UINT_32 {
            let v = self.fetch_u32();
            proof { lemma_fetched_rest(mid, *self, 4, t, 1); }
            v? as i128
        } else if c == UINT_64 {
            let v = self.fetch_u64();
            proof { lemma_fetched_rest(mid, *self, 8, t, 1); }
            v? as i128
        } else if c == INT_8 {
            let v = self.fetch_i8();
            proof { lemma_fetched_rest(mid, *self, 1, t, 1); }
            v? as i128
        } else if c == INT_16 {
            let v = self.fetch_i16();
            proof { lemma_fetched_rest(mid, *self, 2, t, 1); }
            v? as i128
        } else if c == INT_32 {
            let v = self.fetch_i32();
            proof { lemma_fetched_rest(mid, *self, 4, t, 1); }
            v? as i128
        } else if c == INT_64 {
            let v = self.fetch_i64();
            proof { lemma_fetched_rest(mid, *self, 8, t, 1); }
            v? as i128
        } else {
            return Err(Error::ExpectedInteger);
        };
        Ok(n)
    }
}

/// A number read by [`Deserializer::parse_number`]: an integer, the bits of a
/// single or double precision float, or `nil` (read as NaN by float readers).
#[derive(Debug, Clone, Copy, PartialEq, Eq)]
pub enum Number {
    Integer(i128),
    Float32(u32),
    Float64(u64),
    Nil,
}

impl<'de> Deserializer<'de> {
    /// Read a MessagePack integer and check that it lies in `lo..=hi`,
    /// otherwise fail with `Error::InvalidInteger`.
    fn parse_integer_within(&mut self, lo: i128, hi: i128) -> (r: Result<i128>)
        ensures
            parsed(*old(self), *final(self), within(spec_integer(old(self).rest()), lo as int, hi as int), mapped(r, |v: i128| v as int)),
            r matches Ok(v) ==> lo <= v <= hi,
    {
        let v = self.parse_integer()?;
        if lo <= v && v <= hi {
            Ok(v)
        } else {
            Err(Error::InvalidInteger)
        }
    }

    /// Read a MessagePack integer that fits in `u8`.
    pub fn parse_u8(&mut self) -> (r: Result<u8>)
        ensures
            parsed(*old(self), *final(self), within(spec_integer(old(self).rest()), 0, 0xff), mapped(r, |v: u8| v as int)),
    {
        let v = self.parse_integer_within(0, 0xff)?;
        Ok(v as u8)
    }

    /// Read a MessagePack integer that fits in `u16`.
    pub fn parse_u16(&mut self) -> (r: Result<u16>)
        ensures
            parsed(*old(self), *final(self), within(spec_integer(old(self).rest()), 0, 0xffff), mapped(r, |v: u16| v as int)),
    {
        let v = self.parse_integer_within(0, 0xffff)?;
        Ok(v as u16)
    }

    /// Read a MessagePack integer that fits in `u32`.
    pub fn parse_u32(&mut self) -> (r: Result<u32>)
        ensures
            parsed(*old(self), *final(self), within(spec_integer(old(self).rest()), 0, 0xffff_ffff), mapped(r, |v: u32| v as int)),
    {
        let v = self.parse_integer_within(0, 0xffff_ffff)?;
        Ok(v as u32)
    }

    /// Read a MessagePack integer that fits in `u64`.
    pub fn parse_u64(&mut self) -> (r: Result<u64>)
        ensures
            parsed(*old(self), *final(self), within(spec_integer(old(self).rest()), 0, 0xffff_ffff_ffff_ffff), mapped(r, |v: u64| v as int)),
    {
        let v = self.parse_integer_within(0, 0xffff_ffff_ffff_ffff)?;
        Ok(v as u64)
    }

    /// Read a MessagePack integer that fits in `i8`.
    pub fn parse_i8(&mut self) -> (r: Result<i8>)
        ensures
            parsed(*old(self), *final(self), within(spec_integer(old(self).rest()), -0x80, 0x7f), mapped(r, |v: i8| v as int)),
    {
        let v = self.parse_integer_within(-0x80, 0x7f)?;
        Ok(v as i8)
    }

    /// Read a MessagePack integer that fits in `i16`.
    pub fn parse_i16(&mut self) -> (r: Result<i16>)
        ensures
            parsed(*old(self), *final(self), within(spec_integer(old(self).rest()), -0x8000, 0x7fff), mapped(r, |v: i16| v as int)),
    {
        let v = self.parse_integer_within(-0x8000, 0x7fff)?;
        Ok(v as i16)
    }

    /// Read a MessagePack integer that fits in `i32`.
    pub fn parse_i32(&mut self) -> (r: Result<i32>)
        ensures
            parsed(*old(self), *final(self), within(spec_integer(old(self).rest()), -0x8000_0000, 0x7fff_ffff), mapped(r, |v: i32| v as int)),
    {
        let v = self.parse_integer_within(-0x8000_0000, 0x7fff_ffff)?;
        Ok(v as i32)
    }

    /// Read a MessagePack integer that fits in `i64`.
    pub fn parse_i64(&mut self) -> (r: Result<i64>)
        ensures
            parsed(*old(self), *final(self), within(spec_integer(old(self).rest()), -0x8000_0000_0000_0000, 0x7fff_ffff_ffff_ffff), mapped(r, |v: i64| v as int)),
    {
        let v = self.parse_integer_within(-0x8000_0000_0000_0000, 0x7fff_ffff_ffff_ffff)?;
        Ok(v as i64)
    }

    /// Read any MessagePack number: an integer, a float or `nil`.
    pub fn parse_number(&mut self) -> (r: Result<Number>)
        ensures
            parsed(*old(self), *final(self), spec_number(old(self).rest()), r),
    {
        let ghost t = self.rest();
        let c = self.peek()?;
        proof { assert(t.skip(0) =~= t); }
        if c == FLOAT_32 {
            self.eat_some(1);
            proof { lemma_fetched_rest(*old(self), *self, 1, t, 0); }
            let ghost mid = *self;
            let v = self.fetch_u32();
            proof { lemma_fetched_rest(mid, *self, 4, t, 1); }
            Ok(Number::Float32(v?))
        } else if c == FLOAT_64 {
            self.eat_some(1);
            proof { lemma_fetched_rest(*old(self), *self, 1, t, 0); }
            let ghost mid = *self;
            let v = self.fetch_u64();
            proof { lemma_fetched_rest(mid, *self, 8, t, 1); }
            Ok(Number::Float64(v?))
        } else if c == NIL {
            self.eat_some(1);
            proof { lemma_fetched_rest(*old(self), *self, 1, t, 0); }
            Ok(Number::Nil)
        } else {
            match self.parse_integer() {
                Ok(v) => Ok(Number::Integer(v)),
                Err(Error::ExpectedInteger) => Err(Error::ExpectedNumber),
                Err(e) => Err(e),
            }
        }
    }

    /// Read a MessagePack boolean.
    pub fn parse_bool(&mut self) -> (r: Result<bool>)
        ensures
            parsed(*old(self), *final(self), spec_bool(old(self).rest()), r),
    {
        let ghost t = self.rest();
        proof { assert(t.skip(0) =~= t); }
        let c = self.fetch()?;
        proof { lemma_fetched_rest(*old(self), *self, 1, t, 0); }
        if c == TRUE {
            Ok(true)
        } else if c == FALSE {
            Ok(false)
        } else {
            Err(Error::InvalidType)
        }
    }

    /// Read a MessagePack `nil`.
    pub fn parse_nil(&mut self) -> (r: Result<()>)
        ensures
            parsed(*old(self), *final(self), spec_nil(old(self).rest()), r),
    {
        let ghost t = self.rest();
        proof { assert(t.skip(0) =~= t); }
        let c = self.fetch()?;
        proof { lemma_fetched_rest(*old(self), *self, 1, t, 0); }
        if c == NIL {
            Ok(())
        } else {
            Err(Error::ExpectedNil)
        }
    }
}

impl<'de> Deserializer<'de> {
    /// Fetch a big-endian unsigned integer of `width` bytes (1, 2 or 4).
    fn fetch_uint(&mut self, width: usize) -> (r: Result<u32>)
        requires
            width == 1 || width == 2 || width == 4,
        ensures
            fetched(*old(self), *final(self), width as nat, mapped(r, |v: u32| v as int), false),
    {
        if width == 1 {
            let v = self.fetch_u8()?;
            Ok(v as u32)
        } else if width == 2 {
            let v = self.fetch_u16()?;
            Ok(v as u32)
        } else {
            self.fetch_u32()
        }
    }

    /// Read the rest of a length header: the marker `c` has been fetched already.
    /// The `count` markers from `fix` on hold the length themselves, `m8` (if
    /// any), `m16` and `m32` are followed by the length in 1, 2 or 4 bytes.
    fn header_len(&mut self, c: u8, fix: u8, count: u8, m8: Option<u8>, m16: u8, m32: u8, err: Error, Ghost(t): Ghost<Seq<u8>>) -> (r: Result<usize>)
        requires
            old(self).rest() == t.skip(1),
            old(self).in_bounds(),
            1 <= t.len(),
            t[0] == c,
            fix as int + count as int <= 0xff,
        ensures
            parsed_tail(*final(self), t, spec_header_len(t, fix, count, m8, m16, m32, err), mapped(r, |v: usize| v as int)),
    {
        if fix <= c && c < fix + count {
            proof { assert(t.skip(1) == old(self).rest()); }
            Ok((c - fix) as usize)
        } else {
            let width: usize = if m8 == Some(c) {
                1
            } else if c == m16 {
                2
            } else if c == m32 {
                4
            } else {
                return Err(err);
            };
            let ghost mid = *self;
            let v = self.fetch_uint(width);
            proof { lemma_fetched_rest(mid, *self, width as int, t, 1); }
            let v = v?;
            Ok(v as usize)
        }
    }

    /// Read a MessagePack string and return it as a reference into the input.
    pub fn parse_str(&mut self) -> (r: Result<&'de str>)
        ensures
            parsed(*old(self), *final(self), spec_str(old(self).rest()), mapped(r, |v: &str| v.spec_bytes())),
    {
        let ghost t = self.rest();
        proof { assert(t.skip(0) =~= t); }
        let c = self.fetch()?;
        proof { lemma_fetched_rest(*old(self), *self, 1, t, 0); }
        let len = self.header_len(c, FIXSTR, 0x20, Some(STR_8), STR_16, STR_32, Error::ExpectedString, Ghost(t))?;
        let ghost j = spec_header_len(t, FIXSTR, 0x20, Some(STR_8), STR_16, STR_32, Error::ExpectedString)->Ok_0.1;
        let ghost mid = *self;
        let bytes = self.split_input(len);
        proof { lemma_split_tail(mid, *self, t, j, len as int, bytes); }
        let bytes = bytes?;
        match str_from_utf8(bytes) {
            Ok(s) => Ok(s),
            Err(_) => Err(Error::InvalidUnicodeCodePoint),
        }
    }

    /// Read a MessagePack binary and return it as a reference into the input.
    pub fn parse_bytes(&mut self) -> (r: Result<&'de [u8]>)
        ensures
            parsed(*old(self), *final(self), spec_bin(old(self).rest()), mapped(r, |v: &[u8]| v@)),
    {
        let ghost t = self.rest();
        proof { assert(t.skip(0) =~= t); }
        let c = self.fetch()?;
        proof { lemma_fetched_rest(*old(self), *self, 1, t, 0); }
        let len = self.header_len(c, BIN_8, 0, Some(BIN_8), BIN_16, BIN_32, Error::ExpectedBin, Ghost(t))?;
        let ghost j = spec_header_len(t, BIN_8, 0, Some(BIN_8), BIN_16, BIN_32, Error::ExpectedBin)->Ok_0.1;
        let ghost mid = *self;
        let bytes = self.split_input(len);
        proof { lemma_split_tail(mid, *self, t, j, len as int, bytes); }
        let bytes = bytes?;
        Ok(bytes)
    }

    /// Read a MessagePack string holding exactly one character.
    pub fn parse_char(&mut self) -> (r: Result<char>)
        ensures
            parsed(*old(self), *final(self), spec_char(old(self).rest()), r),
    {
        let s = self.parse_str()?;
        proof { vstd::utf8::encode_utf8_decode_utf8(s@); }
        match crate::text::char_from_str(s) {
            Some(c) => Ok(c),
            None => Err(Error::InvalidLength),
        }
    }

    /// Read the header of a MessagePack array and return the number of its elements.
    pub fn parse_array_len(&mut self) -> (r: Result<usize>)
        ensures
            parsed(*old(self), *final(self), spec_header_len(old(self).rest(), FIXARRAY, 0x10, None, ARRAY_16, ARRAY_32, Error::ExpectedArray), mapped(r, |v: usize| v as int)),
    {
        let ghost t = self.rest();
        proof { assert(t.skip(0) =~= t); }
        let c = self.fetch()?;
        proof { lemma_fetched_rest(*old(self), *self, 1, t, 0); }
        self.header_len(c, FIXARRAY, 0x10, None, ARRAY_16, ARRAY_32, Error::ExpectedArray, Ghost(t))
    }

    /// Read the header of a MessagePack map and return the number of its entries.
    pub fn parse_map_len(&mut self) -> (r: Result<usize>)
        ensures
            parsed(*old(self), *final(self), spec_header_len(old(self).rest(), FIXMAP, 0x10, None, MAP_16, MAP_32, Error::ExpectedMap), mapped(r, |v: usize| v as int)),
    {
        let ghost t = self.rest();
        proof { assert(t.skip(0) =~= t); }
        let c = self.fetch()?;
        proof { lemma_fetched_rest(*old(self), *self, 1, t, 0); }
        self.header_len(c, FIXMAP, 0x10, None, MAP_16, MAP_32, Error::ExpectedMap, Ghost(t))
    }

    /// Read the header of a struct, which may be a MessagePack map or array.
    /// Return whether it is a map and the number of its fields.
    pub fn parse_struct_header(&mut self) -> (r: Result<(bool, usize)>)
        ensures
            parsed(*old(self), *final(self), spec_struct_header(old(self).rest()), mapped(r, |v: (bool, usize)| (v.0, v.1 as int))),
    {
        let ghost t = self.rest();
        proof { assert(t.skip(0) =~= t); }
        let c = self.fetch()?;
        proof { lemma_fetched_rest(*old(self), *self, 1, t, 0); }
        if (FIXMAP <= c && c <= FIXMAP_MAX) || c == MAP_16 || c == MAP_32 {
            let len = self.header_len(c, FIXMAP, 0x10, None, MAP_16, MAP_32, Error::ExpectedStruct, Ghost(t))?;
            Ok((true, len))
        } else {
            let len = self.header_len(c, FIXARRAY, 0x10, None, ARRAY_16, ARRAY_32, Error::ExpectedStruct, Ghost(t))?;
            Ok((false, len))
        }
    }
}

/// Splitting `len` bytes off the unparsed input `t.skip(j)`.
proof fn lemma_split_tail(old_de: Deserializer, new_de: Deserializer, t: Seq<u8>, j: int, len: int, r: Result<&[u8]>)
    requires
        0 <= j <= t.len(),
        0 <= len,
        old_de.rest() == t.skip(j),
        old_de.in_bounds(),
        r is Ok <==> old_de.cursor() <= old_de.input_seq().len() && len <= old_de.rest().len(),
        r matches Ok(b) ==> b@ == old_de.rest().take(len) && new_de.rest() == old_de.rest().skip(len),
    ensures
        r is Ok <==> j + len <= t.len(),
        r matches Ok(b) ==> b@ == t.subrange(j, j + len) && new_de.rest() == t.skip(j + len),
{
    assert(old_de.rest().len() == t.len() - j);
    if j + len <= t.len() {
        assert(t.skip(j).take(len) =~= t.subrange(j, j + len));
        assert(t.skip(j).skip(len) =~= t.skip(j + len));
    }
}

/// The final state after reading from the unparsed input `t`.
pub open spec fn parsed_tail<T>(new_de: Deserializer, t: Seq<u8>, spec: Result<(T, int)>, r: Result<T>) -> bool {
    match spec {
        Ok((v, k)) => r == Ok::<T, Error>(v) && 0 <= k <= t.len() && new_de.rest() == t.skip(k)
            && new_de.in_bounds(),
        Err(e) => r == Err::<T, Error>(e),
    }
}

/// A length header at the start of `t`, with the length held in the marker
/// (the `count` markers from `fix` on) or following the markers `m8` (if any),
/// `m16`, `m32` in 1, 2 or 4 bytes. Other markers give `err`. Returns the
/// length and the size of the header.
pub open spec fn spec_header_len(t: Seq<u8>, fix: u8, count: u8, m8: Option<u8>, m16: u8, m32: u8, err: Error) -> Result<(int, int)> {
    if t.len() == 0 {
        Err(Error::UnexpectedEof)
    } else if fix <= t[0] < fix + count {
        Ok((t[0] - fix, 1))
    } else if m8 == Some(t[0]) {
        uint_at(t, 1, 1)
    } else if t[0] == m16 {
        uint_at(t, 1, 2)
    } else if t[0] == m32 {
        uint_at(t, 1, 4)
    } else {
        Err(err)
    }
}

/// A MessagePack string or binary body following a length header.
pub open spec fn spec_body(t: Seq<u8>, header: Result<(int, int)>) -> Result<(Seq<u8>, int)> {
    match header {
        Ok((n, j)) => if j + n <= t.len() {
            Ok((t.subrange(j, j + n), j + n))
        } else {
            Err(Error::UnexpectedEof)
        },
        Err(e) => Err(e),
    }
}

/// A MessagePack string at the start of `t`: its UTF-8 bytes and its encoded length.
pub open spec fn spec_str(t: Seq<u8>) -> Result<(Seq<u8>, int)> {
    match spec_body(t, spec_header_len(t, FIXSTR, 0x20, Some(STR_8), STR_16, STR_32, Error::ExpectedString)) {
        Ok((b, k)) => if vstd::utf8::valid_utf8(b) {
            Ok((b, k))
        } else {
            Err(Error::InvalidUnicodeCodePoint)
        },
        Err(e) => Err(e),
    }
}

/// A MessagePack binary at the start of `t`: its bytes and its encoded length.
pub open spec fn spec_bin(t: Seq<u8>) -> Result<(Seq<u8>, int)> {
    spec_body(t, spec_header_len(t, BIN_8, 0, Some(BIN_8), BIN_16, BIN_32, Error::ExpectedBin))
}

/// A MessagePack string holding a single character at the start of `t`.
pub open spec fn spec_char(t: Seq<u8>) -> Result<(char, int)> {
    match spec_str(t) {
        Ok((b, k)) => if vstd::utf8::decode_utf8(b).len() == 1 {
            Ok((vstd::utf8::decode_utf8(b)[0], k))
        } else {
            Err(Error::InvalidLength)
        },
        Err(e) => Err(e),
    }
}

/// The header of a struct at the start of `t`: a map (`true`) or an array and
/// the number of fields, and the size of the header.
pub open spec fn spec_struct_header(t: Seq<u8>) -> Result<((bool, int), int)> {
    if t.len() > 0 && ((FIXMAP <= t[0] <= FIXMAP_MAX) || t[0] == MAP_16 || t[0] == MAP_32) {
        match spec_header_len(t, FIXMAP, 0x10, None, MAP_16, MAP_32, Error::ExpectedStruct) {
            Ok((n, k)) => Ok(((true, n), k)),
            Err(e) => Err(e),
        }
    } else {
        match spec_header_len(t, FIXARRAY, 0x10, None, ARRAY_16, ARRAY_32, Error::ExpectedStruct) {
            Ok((n, k)) => Ok(((false, n), k)),
            Err(e) => Err(e),
        }
    }
}

/// The shape of a MessagePack item: a single item with a body of a number of
/// bytes, an array of a number of items, or a map of a number of entries.
enum MsgType {
    Single(u64),
    Items(u64),
    Entries(u64),
}

/// The header of the MessagePack item at position `i` of `s`: its shape
/// (0 single, 1 array, 2 map), the size of its body or its number of
/// items or entries, and the position after the header.
pub open spec fn msg_header(s: Seq<u8>, i: int) -> Result<(int, int, int)> {
    if i < 0 || i >= s.len() {
        Err(Error::UnexpectedEof)
    } else {
        let c = s[i];
        if c == NIL || c == FALSE || c == TRUE || c <= 0x7f || c >= 0xe0 {
            Ok((0, 0, i + 1))
        } else if FIXMAP <= c <= FIXMAP_MAX {
            Ok((2, c - FIXMAP, i + 1))
        } else if FIXARRAY <= c <= FIXARRAY_MAX {
            Ok((1, c - FIXARRAY, i + 1))
        } else if FIXSTR <= c <= FIXSTR_MAX {
            Ok((0, c - FIXSTR, i + 1))
        } else if c == RESERVED {
            Err(Error::ReservedCode)
        } else if c == BIN_8 || c == STR_8 {
            with_shape(0, 0, uint_at(s, i + 1, 1))
        } else if c == BIN_16 || c == STR_16 {
            with_shape(0, 0, uint_at(s, i + 1, 2))
        } else if c == BIN_32 || c == STR_32 {
            with_shape(0, 0, uint_at(s, i + 1, 4))
        } else if c == EXT_8 {
            with_shape(0, 1, uint_at(s, i + 1, 1))
        } else if c == EXT_16 {
            with_shape(0, 1, uint_at(s, i + 1, 2))
        } else if c == EXT_32 {
            with_shape(0, 1, uint_at(s, i + 1, 4))
        } else if c == FLOAT_32 || c == UINT_32 || c == INT_32 {
            Ok((0, 4, i + 1))
        } else if c == FLOAT_64 || c == UINT_64 || c == INT_64 {
            Ok((0, 8, i + 1))
        } else if c == UINT_8 || c == INT_8 {
            Ok((0, 1, i + 1))
        } else if c == UINT_16 || c == INT_16 {
            Ok((0, 2, i + 1))
        } else if c == FIXEXT_1 {
            Ok((0, 2, i + 1))
        } else if c == FIXEXT_2 {
            Ok((0, 3, i + 1))
        } else if c == FIXEXT_4 {
            Ok((0, 5, i + 1))
        } else if c == FIXEXT_8 {
            Ok((0, 9, i + 1))
        } else if c == FIXEXT_16 {
            Ok((0, 17, i + 1))
        } else if c == ARRAY_16 {
            with_shape(1, 0, uint_at(s, i + 1, 2))
        } else if c == ARRAY_32 {
            with_shape(1, 0, uint_at(s, i + 1, 4))
        } else if c == MAP_16 {
            with_shape(2, 0, uint_at(s, i + 1, 2))
        } else {
            with_shape(2, 0, uint_at(s, i + 1, 4))
        }
    }
}

/// A length read from the input, given a shape and an extra count added to it.
pub open spec fn with_shape(kind: int, extra: int, len: Result<(int, int)>) -> Result<(int, int, int)> {
    match len {
        Ok((n, j)) => Ok((kind, n + extra, j)),
        Err(e) => Err(e),
    }
}

/// The position after the MessagePack item starting at position `i` of `s`.
pub open spec fn msg_end(s: Seq<u8>, i: int) -> Result<int>
    decreases s.len() - i, 0int, 0int,
{
    match msg_header(s, i) {
        Err(e) => Err(e),
        Ok((kind, n, j)) => if !(i < j <= s.len()) {
            Err(Error::UnexpectedEof)
        } else if kind == 0 {
            if j + n <= s.len() {
                Ok(j + n)
            } else {
                Err(Error::UnexpectedEof)
            }
        } else if kind == 1 {
            items_end(s, j, n)
        } else {
            items_end(s, j, 2 * n)
        },
    }
}

/// The position after `n` consecutive MessagePack items starting at position `j` of `s`.
pub open spec fn items_end(s: Seq<u8>, j: int, n: int) -> Result<int>
    decreases s.len() - j, 1int, n,
{
    if n <= 0 {
        Ok(j)
    } else {
        match msg_end(s, j) {
            Err(e) => Err(e),
            Ok(k) => if !(j < k <= s.len()) {
                Err(Error::UnexpectedEof)
            } else {
                items_end(s, k, n - 1)
            },
        }
    }
}

impl<'de> Deserializer<'de> {
    /// Attempts to consume a single MessagePack message from the input without fully decoding its content.
    ///
    /// Return `Ok(())` on success or `Err(Error::UnexpectedEof)` if there was not enough data
    /// to fully decode a MessagePack item.
    pub fn eat_message(&mut self) -> (r: Result<()>)
        ensures
            final(self).input_seq() == old(self).input_seq(),
            match msg_end(old(self).input_seq(), old(self).cursor()) {
                Ok(k) => r is Ok && final(self).cursor() == k,
                Err(e) => r == Err::<(), Error>(e),
            },
        decreases old(self).rest().len(), 0int,
    {
        let ghost s = self.input_seq();
        let ghost i = self.cursor();
        let c = self.fetch()?;
        let mtyp = if c == NIL || c == FALSE || c == TRUE || c <= MAX_POSFIXINT || c >= NEGFIXINT {
            MsgType::Single(0)
        } else if FIXMAP <= c && c <= FIXMAP_MAX {
            MsgType::Entries((c - FIXMAP) as u64)
        } else if FIXARRAY <= c && c <= FIXARRAY_MAX {
            MsgType::Items((c - FIXARRAY) as u64)
        } else if FIXSTR <= c && c <= FIXSTR_MAX {
            MsgType::Single((c - FIXSTR) as u64)
        } else if c == RESERVED {
            return Err(Error::ReservedCode);
        } else if c == BIN_8 || c == STR_8 {
            MsgType::Single(self.fetch_u8()? as u64)
        } else if c == BIN_16 || c == STR_16 {
            MsgType::Single(self.fetch_u16()? as u64)
        } else if c == BIN_32 || c == STR_32 {
            MsgType::Single(self.fetch_u32()? as u64)
        } else if c == EXT_8 {
            MsgType::Single(1 + self.fetch_u8()? as u64)
        } else if c == EXT_16 {
            MsgType::Single(1 + self.fetch_u16()? as u64)
        } else if c == EXT_32 {
            MsgType::Single(1 + self.fetch_u32()? as u64)
        } else if c == FLOAT_32 || c == UINT_32 || c == INT_32 {
            MsgType::Single(4)
        } else if c == FLOAT_64 || c == UINT_64 || c == INT_64 {
            MsgType::Single(8)
        } else if c == UINT_8 || c == INT_8 {
            MsgType::Single(1)
        } else if c == UINT_16 || c == INT_16 {
            MsgType::Single(2)
        } else if c == FIXEXT_1 {
            MsgType::Single(2)
        } else if c == FIXEXT_2 {
            MsgType::Single(3)
        } else if c == FIXEXT_4 {
            MsgType::Single(5)
        } else if c == FIXEXT_8 {
            MsgType::Single(9)
        } else if c == FIXEXT_16 {
            MsgType::Single(17)
        } else if c == ARRAY_16 {
            MsgType::Items(self.fetch_u16()? as u64)
        } else if c == ARRAY_32 {
            MsgType::Items(self.fetch_u32()? as u64)
        } else if c == MAP_16 {
            MsgType::Entries(self.fetch_u16()? as u64)
        } else {
            MsgType::Entries(self.fetch_u32()? as u64)
        };
        match mtyp {
            MsgType::Single(len) => {
                let avail = self.input.len() - self.index;
                if len > avail as u64 {
                    Err(Error::UnexpectedEof)
                } else {
                    self.index = self.index + len as usize;
                    Ok(())
                }
            },
            MsgType::Items(len) => self.eat_seq_items(len),
            MsgType::Entries(len) => self.eat_map_items(len),
        }
    }

    fn eat_seq_items(&mut self, len: u64) -> (r: Result<()>)
        requires
            old(self).in_bounds(),
        ensures
            final(self).input_seq() == old(self).input_seq(),
            match items_end(old(self).input_seq(), old(self).cursor(), len as int) {
                Ok(k) => r is Ok && final(self).cursor() == k,
                Err(e) => r == Err::<(), Error>(e),
            },
        decreases old(self).rest().len(), 1int,
    {
        let ghost s = self.input_seq();
        let ghost start = self.cursor();
        let mut count: u64 = 0;
        while count < len
            invariant
                self.input_seq() == s,
                s == old(self).input_seq(),
                start == old(self).cursor(),
                self.in_bounds(),
                count <= len,
                self.rest().len() <= old(self).rest().len(),
                items_end(s, start, len as int) == items_end(s, self.cursor(), len - count),
            decreases len - count,
        {
            let ghost cur = self.cursor();
            proof { lemma_msg_end_bounds(s, cur); }
            self.eat_message()?;
            count += 1;
        }
        Ok(())
    }

    fn eat_map_items(&mut self, len: u64) -> (r: Result<()>)
        requires
            old(self).in_bounds(),
        ensures
            final(self).input_seq() == old(self).input_seq(),
            match items_end(old(self).input_seq(), old(self).cursor(), 2 * len) {
                Ok(k) => r is Ok && final(self).cursor() == k,
                Err(e) => r == Err::<(), Error>(e),
            },
        decreases old(self).rest().len(), 1int,
    {
        let ghost s = self.input_seq();
        let ghost start = self.cursor();
        let mut count: u64 = 0;
        while count < len
            invariant
                self.input_seq() == s,
                s == old(self).input_seq(),
                start == old(self).cursor(),
                self.in_bounds(),
                count <= len,
                self.rest().len() <= old(self).rest().len(),
                items_end(s, start, 2 * len) == items_end(s, self.cursor(), 2 * (len - count)),
            decreases len - count,
        {
            let ghost cur = self.cursor();
            let ghost m = 2 * (len - count);
            proof { lemma_msg_end_bounds(s, cur); }
            self.eat_message()?;
            let ghost cur2 = self.cursor();
            proof {
                assert(items_end(s, cur, m) == items_end(s, cur2, m - 1));
                lemma_msg_end_bounds(s, cur2);
            }
            self.eat_message()?;
            proof {
                assert(items_end(s, cur2, m - 1) == items_end(s, self.cursor(), m - 2));
            }
            count += 1;
        }
        Ok(())
    }
}

/// An item that is read whole ends after its start and within the input.
pub proof fn lemma_msg_end_bounds(s: Seq<u8>, i: int)
    ensures
        msg_end(s, i) matches Ok(k) ==> i < k <= s.len(),
    decreases s.len() - i, 0int, 0int,
{
    match msg_header(s, i) {
        Err(e) => {},
        Ok((kind, n, j)) => {
            if i < j <= s.len() && kind != 0 {
                if kind == 1 {
                    lemma_items_end_bounds(s, j, n);
                } else {
                    lemma_items_end_bounds(s, j, 2 * n);
                }
            }
        },
    }
}

/// Items that are read whole end at or after their start and within the input.
pub proof fn lemma_items_end_bounds(s: Seq<u8>, j: int, n: int)
    requires
        j <= s.len(),
    ensures
        items_end(s, j, n) matches Ok(k) ==> j <= k <= s.len(),
    decreases s.len() - j, 1int, n,
{
    if n > 0 {
        lemma_msg_end_bounds(s, j);
        match msg_end(s, j) {
            Err(e) => {},
            Ok(k) => {
                if j < k <= s.len() {
                    lemma_items_end_bounds(s, k, n - 1);
                }
            },
        }
    }
}

/// The header of an item read from the input cut at `m`: the same header if it
/// ends by `m`, else the end of the input comes first.
proof fn lemma_header_prefix(s: Seq<u8>, i: int, m: int)
    requires
        0 <= i <= m <= s.len(),
    ensures
        msg_header(s, i) matches Ok((kind, n, j)) ==> {
            &&& i < j
            &&& 0 <= n
            &&& j <= m ==> msg_header(s.take(m), i) == msg_header(s, i)
            &&& m < j ==> msg_header(s.take(m), i) == Err::<(int, int, int), Error>(Error::UnexpectedEof)
        },
{
    let t = s.take(m);
    if i < m {
        assert(t[i] == s[i]);
        if i + 2 <= m {
            assert(t.subrange(i + 1, i + 2) =~= s.subrange(i + 1, i + 2));
        }
        if i + 3 <= m {
            assert(t.subrange(i + 1, i + 3) =~= s.subrange(i + 1, i + 3));
        }
        if i + 5 <= m {
            assert(t.subrange(i + 1, i + 5) =~= s.subrange(i + 1, i + 5));
        }
    }
}

/// Reading an item from the input cut at `m` reads the same item when it ends
/// by `m`, and runs into the end of the input when it does not: an item is read
/// from nothing past its end.
pub proof fn lemma_msg_end_prefix(s: Seq<u8>, i: int, m: int)
    requires
        0 <= i <= m <= s.len(),
    ensures
        msg_end(s, i) matches Ok(k) ==> {
            &&& k <= m ==> msg_end(s.take(m), i) == Ok::<int, Error>(k)
            &&& m < k ==> msg_end(s.take(m), i) == Err::<int, Error>(Error::UnexpectedEof)
        },
    decreases s.len() - i, 0int, 0int,
{
    lemma_header_prefix(s, i, m);
    match msg_header(s, i) {
        Err(e) => {},
        Ok((kind, n, j)) => {
            if i < j <= s.len() && j <= m && kind != 0 {
                if kind == 1 {
                    lemma_items_end_prefix(s, j, n, m);
                    lemma_items_end_bounds(s, j, n);
                } else {
                    lemma_items_end_prefix(s, j, 2 * n, m);
                    lemma_items_end_bounds(s, j, 2 * n);
                }
            } else if i < j <= s.len() && kind != 0 {
                if kind == 1 {
                    lemma_items_end_bounds(s, j, n);
                } else {
                    lemma_items_end_bounds(s, j, 2 * n);
                }
            }
        },
    }
}

/// Reading items from the input cut at `m` reads the same items when they end
/// by `m`, and runs into the end of the input when they do not.
pub proof fn lemma_items_end_prefix(s: Seq<u8>, j: int, n: int, m: int)
    requires
        0 <= j <= m <= s.len(),
    ensures
        items_end(s, j, n) matches Ok(k) ==> {
            &&& k <= m ==> items_end(s.take(m), j, n) == Ok::<int, Error>(k)
            &&& m < k ==> items_end(s.take(m), j, n) == Err::<int, Error>(Error::UnexpectedEof)
        },
    decreases s.len() - j, 1int, n,
{
    if n > 0 {
        lemma_msg_end_prefix(s, j, m);
        match msg_end(s, j) {
            Err(e) => {},
            Ok(k1) => {
                if j < k1 <= s.len() {
                    lemma_items_end_bounds(s, k1, n - 1);
                    if k1 <= m {
                        lemma_items_end_prefix(s, k1, n - 1, m);
                    }
                }
            },
        }
    }
}

/// A MessagePack item cut short is never read: where
/// [`Deserializer::eat_message`] reads an item that starts at position `i` of
/// the input and ends at `k`, the same input cut anywhere from `i` to before
/// `k` gives [`Error::UnexpectedEof`].
pub proof fn law_truncated_message(s: Seq<u8>, i: int, m: int)
    requires
        0 <= i <= m,
        msg_end(s, i) matches Ok(k) && m < k,
    ensures
        msg_end(s.take(m), i) == Err::<int, Error>(Error::UnexpectedEof),
{
    lemma_msg_end_bounds(s, i);
    lemma_msg_end_prefix(s, i, m);
}

/// A parse whose integer value must lie in `lo..=hi`.
pub open spec fn within(spec: Result<(int, int)>, lo: int, hi: int) -> Result<(int, int)> {
    match spec {
        Ok((v, k)) => if lo <= v <= hi {
            Ok((v, k))
        } else {
            Err(Error::InvalidInteger)
        },
        Err(e) => Err(e),
    }
}

/// A MessagePack number at the start of `t`, and its encoded length.
pub open spec fn spec_number(t: Seq<u8>) -> Result<(Number, int)> {
    if t.len() == 0 {
        Err(Error::UnexpectedEof)
    } else if t[0] == FLOAT_32 {
        match uint_at(t, 1, 4) {
            Ok((v, k)) => Ok((Number::Float32(v as u32), k)),
            Err(e) => Err(e),
        }
    } else if t[0] == FLOAT_64 {
        match uint_at(t, 1, 8) {
            Ok((v, k)) => Ok((Number::Float64(v as u64), k)),
            Err(e) => Err(e),
        }
    } else if t[0] == NIL {
        Ok((Number::Nil, 1))
    } else {
        match spec_integer(t) {
            Ok((v, k)) => Ok((Number::Integer(v as i128), k)),
            Err(Error::ExpectedInteger) => Err(Error::ExpectedNumber),
            Err(e) => Err(e),
        }
    }
}

/// A MessagePack boolean at the start of `t`.
pub open spec fn spec_bool(t: Seq<u8>) -> Result<(bool, int)> {
    if t.len() == 0 {
        Err(Error::UnexpectedEof)
    } else if t[0] == TRUE {
        Ok((true, 1))
    } else if t[0] == FALSE {
        Ok((false, 1))
    } else {
        Err(Error::InvalidType)
    }
}

/// A MessagePack `nil` at the start of `t`.
pub open spec fn spec_nil(t: Seq<u8>) -> Result<((), int)> {
    if t.len() == 0 {
        Err(Error::UnexpectedEof)
    } else if t[0] == NIL {
        Ok(((), 1))
    } else {
        Err(Error::ExpectedNil)
    }
}

/// The outcome of a parse: on success the value and the number of bytes consumed
/// from the unparsed input, otherwise the error.
pub open spec fn parsed<T>(old_de: Deserializer, new_de: Deserializer, spec: Result<(T, int)>, r: Result<T>) -> bool {
    match spec {
        Ok((v, k)) => r == Ok::<T, Error>(v) && 0 <= k <= old_de.rest().len()
            && new_de.rest() == old_de.rest().skip(k) && new_de.in_bounds(),
        Err(e) => r == Err::<T, Error>(e),
    }
}

/// A big-endian unsigned integer of `n` bytes at position `j` of `t`, and the position after it.
pub open spec fn uint_at(t: Seq<u8>, j: int, n: int) -> Result<(int, int)> {
    if 0 <= j && j + n <= t.len() {
        Ok((magick::be_value(t.subrange(j, j + n)) as int, j + n))
    } else {
        Err(Error::UnexpectedEof)
    }
}

/// A big-endian two's complement integer of `n` bytes at position `j` of `t`, and the position after it.
pub open spec fn sint_at(t: Seq<u8>, j: int, n: int) -> Result<(int, int)> {
    if 0 <= j && j + n <= t.len() {
        Ok((magick::be_signed(t.subrange(j, j + n)), j + n))
    } else {
        Err(Error::UnexpectedEof)
    }
}

/// A MessagePack integer at the start of `t`: its value and its encoded length.
pub open spec fn spec_integer(t: Seq<u8>) -> Result<(int, int)> {
    if t.len() == 0 {
        Err(Error::UnexpectedEof)
    } else {
        let c = t[0];
        if c <= 0x7f {
            Ok((c as int, 1))
        } else if c >= 0xe0 {
            Ok((c - 256, 1))
        } else if c == UINT_8 {
            uint_at(t, 1, 1)
        } else if c == UINT_16 {
            uint_at(t, 1, 2)
        } else if c == UINT_32 {
            uint_at(t, 1, 4)
        } else if c == UINT_64 {
            uint_at(t, 1, 8)
        } else if c == INT_8 {
            sint_at(t, 1, 1)
        } else if c == INT_16 {
            sint_at(t, 1, 2)
        } else if c == INT_32 {
            sint_at(t, 1, 4)
        } else if c == INT_64 {
            sint_at(t, 1, 8)
        } else {
            Err(Error::ExpectedInteger)
        }
    }
}

/// Advancing the cursor by `n` within the input drops `n` bytes from the unparsed input.
pub proof fn lemma_rest_advance(old_de: Deserializer, new_de: Deserializer, n: int)
    requires
        new_de.input_seq() == old_de.input_seq(),
        new_de.cursor() == old_de.cursor() + n,
        0 <= n,
        0 <= old_de.cursor(),
        new_de.cursor() <= new_de.input_seq().len(),
    ensures
        new_de.rest() == old_de.rest().skip(n),
        old_de.rest().subrange(0, n) == old_de.input_seq().subrange(old_de.cursor(), new_de.cursor()),
{
    assert(new_de.rest() =~= old_de.rest().skip(n));
    assert(old_de.rest().subrange(0, n) =~= old_de.input_seq().subrange(old_de.cursor(), new_de.cursor()));
}

/// What fetching an `n`-byte integer does to the unparsed input `t.skip(a)`.
pub proof fn lemma_fetched_rest(old_de: Deserializer, new_de: Deserializer, n: int, t: Seq<u8>, a: int)
    requires
        new_de.input_seq() == old_de.input_seq(),
        0 <= old_de.cursor(),
        0 < n,
        0 <= a <= t.len(),
        old_de.rest() == t.skip(a),
        fits(old_de.input_seq(), old_de.cursor(), n) ==> new_de.cursor() == old_de.cursor() + n,
    ensures
        fits(old_de.input_seq(), old_de.cursor(), n) <==> a + n <= t.len(),
        fits(old_de.input_seq(), old_de.cursor(), n) ==> new_de.rest() == t.skip(a + n)
            && t.subrange(a, a + n) == old_de.input_seq().subrange(old_de.cursor(), new_de.cursor()),
{
    assert(old_de.rest().len() == t.len() - a);
    if fits(old_de.input_seq(), old_de.cursor(), n) {
        lemma_rest_advance(old_de, new_de, n);
        assert(t.skip(a).skip(n) =~= t.skip(a + n));
        assert(t.skip(a).subrange(0, n) =~= t.subrange(a, a + n));
    }
}

/// The relation between the state before and after fetching an `n`-byte
/// big-endian integer, unsigned or in two's complement (`signed`).
pub open spec fn fetched(
    old_de: Deserializer,
    new_de: Deserializer,
    n: nat,
    r: Result<int>,
    signed: bool,
) -> bool {
    let s = old_de.input_seq();
    let i = old_de.cursor();
    &&& new_de.input_seq() == s
    &&& fits(s, i, n as int) ==> {
        &&& new_de.cursor() == i + n
        &&& r == Ok::<int, Error>(
            if signed {
                magick::be_signed(s.subrange(i, i + n))
            } else {
                magick::be_value(s.subrange(i, i + n)) as int
            },
        )
    }
    &&& !fits(s, i, n as int) ==> new_de.cursor() == i && r == Err::<int, Error>(
        Error::UnexpectedEof,
    )
}

/// A result with its value mapped by `f`.
pub open spec fn mapped<T, U>(r: Result<T>, f: spec_fn(T) -> U) -> Result<U> {
    match r {
        Ok(v) => Ok(f(v)),
        Err(e) => Err(e),
    }
}

/// The values of 256 to the power of 1, 2, 4 and 8.
pub proof fn lemma_pow256_values()
    ensures
        magick::pow256(0) == 1,
        magick::pow256(1) == 0x100,
        magick::pow256(2) == 0x1_0000,
        magick::pow256(3) == 0x100_0000,
        magick::pow256(4) == 0x1_0000_0000,
        magick::pow256(5) == 0x100_0000_0000,
        magick::pow256(6) == 0x1_0000_0000_0000,
        magick::pow256(7) == 0x100_0000_0000_0000,
        magick::pow256(8) == 0x1_0000_0000_0000_0000,
{
    reveal_with_fuel(magick::pow256, 9);
}

/// Compute the big-endian unsigned value of at most 8 bytes.
fn be_uint(a: &[u8]) -> (r: u64)
    requires
        a@.len() <= 8,
    ensures
        r == magick::be_value(a@),
        r < magick::pow256(a@.len()),
{
    proof { lemma_pow256_values(); }
    let mut v: u64 = 0;
    let mut k: usize = 0;
    while k < a.len()
        invariant
            k <= a@.len() <= 8,
            v == magick::be_value(a@.take(k as int)),
            v < magick::pow256(k as nat),
            magick::pow256(8) == 0x1_0000_0000_0000_0000,
        decreases a@.len() - k,
    {
        proof {
            assert(a@.take(k + 1).drop_last() =~= a@.take(k as int));
            lemma_pow256_le(k as nat + 1, 8);
        }
        v = v * 256 + a[k] as u64;
        k += 1;
    }
    assert(a@.take(k as int) =~= a@);
    v
}

/// Powers of 256 grow with the exponent.
pub proof fn lemma_pow256_le(m: nat, n: nat)
    requires
        m <= n,
    ensures
        magick::pow256(m) <= magick::pow256(n),
    decreases n,
{
    if m < n {
        lemma_pow256_le(m, (n - 1) as nat);
    }
}

/// Whether `n` bytes are available at position `i` of `s`.
pub open spec fn fits(s: Seq<u8>, i: int, n: int) -> bool {
    0 <= i && i + n <= s.len()
}


/// A struct field or enum variant identifier: its index or its name.
#[derive(Debug, Clone, Copy, PartialEq, Eq)]
pub enum Identifier<'de> {
    /// The index of the field or variant
    Index(u32),
    /// The name of the field or variant
    Name(&'de str),
}

/// The index that an identifier holds, zero for a name.
pub open spec fn identifier_index(id: Identifier) -> int {
    match id {
        Identifier::Index(n) => n as int,
        Identifier::Name(_) => 0,
    }
}

/// The bytes of the name that an identifier holds, empty for an index.
pub open spec fn identifier_name(id: Identifier) -> Seq<u8> {
    match id {
        Identifier::Index(_) => Seq::empty(),
        Identifier::Name(s) => s.spec_bytes(),
    }
}

/// Whether `c` starts an identifier given by its index: a positive fixint
/// or an unsigned integer of at most 32 bits.
pub open spec fn is_index_code(c: u8) -> bool {
    c <= MAX_POSFIXINT || c == UINT_8 || c == UINT_16 || c == UINT_32
}

/// Whether `c` starts a MessagePack string.
pub open spec fn is_str_code(c: u8) -> bool {
    (FIXSTR <= c <= FIXSTR_MAX) || c == STR_8 || c == STR_16 || c == STR_32
}

/// The kind of a MessagePack item, by the type that holds its value.
#[derive(Debug, Clone, Copy, PartialEq, Eq)]
pub enum Kind {
    /// An integer that fits in `u8`
    U8,
    /// An integer in `u16`
    U16,
    /// An integer in `u32`
    U32,
    /// An integer in `u64`
    U64,
    /// An integer in `i8`
    I8,
    /// An integer in `i16`
    I16,
    /// An integer in `i32`
    I32,
    /// An integer in `i64`
    I64,
    /// A single precision float
    F32,
    /// A double precision float
    F64,
    /// A boolean
    Bool,
    /// `nil`
    Nil,
    /// A string
    Str,
    /// Binary data
    Bin,
    /// An array
    Array,
    /// A map
    Entries,
}

/// The kind of the MessagePack item that starts with the code `c`.
pub open spec fn spec_kind(c: u8) -> Result<Kind> {
    if c <= MAX_POSFIXINT {
        Ok(Kind::U8)
    } else if FIXMAP <= c <= FIXMAP_MAX {
        Ok(Kind::Entries)
    } else if FIXARRAY <= c <= FIXARRAY_MAX {
        Ok(Kind::Array)
    } else if FIXSTR <= c <= FIXSTR_MAX {
        Ok(Kind::Str)
    } else if c == NIL {
        Ok(Kind::Nil)
    } else if c == RESERVED {
        Err(Error::ReservedCode)
    } else if c == FALSE || c == TRUE {
        Ok(Kind::Bool)
    } else if c == BIN_8 || c == BIN_16 || c == BIN_32 {
        Ok(Kind::Bin)
    } else if c == EXT_8 || c == EXT_16 || c == EXT_32 {
        Err(Error::UnsupportedExt)
    } else if c == FLOAT_32 {
        Ok(Kind::F32)
    } else if c == FLOAT_64 {
        Ok(Kind::F64)
    } else if c == UINT_8 {
        Ok(Kind::U8)
    } else if c == UINT_16 {
        Ok(Kind::U16)
    } else if c == UINT_32 {
        Ok(Kind::U32)
    } else if c == UINT_64 {
        Ok(Kind::U64)
    } else if c == INT_8 {
        Ok(Kind::I8)
    } else if c == INT_16 {
        Ok(Kind::I16)
    } else if c == INT_32 {
        Ok(Kind::I32)
    } else if c == INT_64 {
        Ok(Kind::I64)
    } else if FIXEXT_1 <= c <= FIXEXT_16 {
        Err(Error::UnsupportedExt)
    } else if c == STR_8 || c == STR_16 || c == STR_32 {
        Ok(Kind::Str)
    } else if c == ARRAY_16 || c == ARRAY_32 {
        Ok(Kind::Array)
    } else if c == MAP_16 || c == MAP_32 {
        Ok(Kind::Entries)
    } else {
        Ok(Kind::I8)
    }
}

/// Whether `v` is an integer of the Rust type that an integer kind names.
pub open spec fn kind_holds(k: Kind, v: int) -> bool {
    match k {
        Kind::U8 => 0 <= v <= u8::MAX,
        Kind::U16 => 0 <= v <= u16::MAX,
        Kind::U32 => 0 <= v <= u32::MAX,
        Kind::U64 => 0 <= v <= u64::MAX,
        Kind::I8 => i8::MIN <= v <= i8::MAX,
        Kind::I16 => i16::MIN <= v <= i16::MAX,
        Kind::I32 => i32::MIN <= v <= i32::MAX,
        Kind::I64 => i64::MIN <= v <= i64::MAX,
        _ => false,
    }
}

/// A big-endian value of some bytes lies below 256 to the power of their number.
proof fn lemma_be_value_bound(b: Seq<u8>)
    ensures
        magick::be_value(b) < magick::pow256(b.len()),
    decreases b.len(),
{
    if b.len() > 0 {
        let d = b.drop_last();
        lemma_be_value_bound(d);
        let x = magick::be_value(d);
        let p = magick::pow256(d.len());
        let l = b.last() as int;
        assert(magick::pow256(b.len()) == 256 * p);
        assert(x * 256 + l < 256 * p) by (nonlinear_arith)
            requires
                x < p,
                0 <= l < 256,
        ;
    }
}

/// The kind told for a MessagePack integer holds the integer read there:
/// whatever integer the item at the start of `t` reads as, the kind of its
/// code names a Rust integer type that holds it (the uint 8 code `0xCC`, for
/// one, carries 0 to 255 and is told as `u8`).
pub proof fn law_kind_holds_integer(t: Seq<u8>)
    ensures
        spec_integer(t) matches Ok((v, n)) ==> t.len() > 0 && (spec_kind(t[0]) matches Ok(k) && kind_holds(k, v)),
{
    lemma_pow256_values();
    if t.len() > 1 {
        let c = t[0];
        let w: int = if c == UINT_8 || c == INT_8 {
            1
        } else if c == UINT_16 || c == INT_16 {
            2
        } else if c == UINT_32 || c == INT_32 {
            4
        } else {
            8
        };
        if 1 + w <= t.len() {
            lemma_be_value_bound(t.subrange(1, 1 + w));
        }
    }
}

/// The 8- and 16-bit MessagePack integers read as their bytes say: `0xCC`
/// and `0xCD` are followed by an unsigned big-endian value, `0xD0` and `0xD1`
/// by a two's complement one.
pub proof fn law_small_integers(t: Seq<u8>)
    ensures
        t.len() >= 2 && t[0] == 0xcc ==> spec_integer(t) == Ok::<(int, int), Error>((t[1] as int, 2)),
        t.len() >= 2 && t[0] == 0xd0 ==> spec_integer(t) == Ok::<(int, int), Error>(
            (if t[1] < 128 { t[1] as int } else { t[1] - 256 }, 2),
        ),
        t.len() >= 3 && t[0] == 0xcd ==> spec_integer(t) == Ok::<(int, int), Error>(
            (t[1] * 256 + t[2], 3),
        ),
        t.len() >= 3 && t[0] == 0xd1 ==> spec_integer(t) == Ok::<(int, int), Error>(
            (if t[1] < 128 { t[1] * 256 + t[2] } else { t[1] * 256 + t[2] - 65536 }, 3),
        ),
{
    lemma_pow256_values();
    if t.len() >= 2 {
        let b = t.subrange(1, 2);
        assert(b.drop_last() =~= Seq::<u8>::empty());
        assert(magick::be_value(Seq::<u8>::empty()) == 0);
        assert(b.last() == t[1]);
        assert(magick::be_value(b) == t[1]);
    }
    if t.len() >= 3 {
        let b = t.subrange(1, 3);
        assert(b.drop_last() =~= t.subrange(1, 2));
        assert(b.last() == t[2]);
        assert(magick::be_value(b) == t[1] * 256 + t[2]);
    }
}

impl<'de> Deserializer<'de> {
    /// Tell the kind of the next MessagePack item, which is left unread.
    pub fn peek_kind(&self) -> (r: Result<Kind>)
        ensures
            self.rest().len() == 0 ==> r == Err::<Kind, Error>(Error::UnexpectedEof),
            self.rest().len() > 0 ==> r == spec_kind(self.rest()[0]),
    {
        let c = self.peek()?;
        if c <= MAX_POSFIXINT {
            Ok(Kind::U8)
        } else if FIXMAP <= c && c <= FIXMAP_MAX {
            Ok(Kind::Entries)
        } else if FIXARRAY <= c && c <= FIXARRAY_MAX {
            Ok(Kind::Array)
        } else if FIXSTR <= c && c <= FIXSTR_MAX {
            Ok(Kind::Str)
        } else if c == NIL {
            Ok(Kind::Nil)
        } else if c == RESERVED {
            Err(Error::ReservedCode)
        } else if c == FALSE || c == TRUE {
            Ok(Kind::Bool)
        } else if c == BIN_8 || c == BIN_16 || c == BIN_32 {
            Ok(Kind::Bin)
        } else if c == EXT_8 || c == EXT_16 || c == EXT_32 {
            Err(Error::UnsupportedExt)
        } else if c == FLOAT_32 {
            Ok(Kind::F32)
        } else if c == FLOAT_64 {
            Ok(Kind::F64)
        } else if c == UINT_8 {
            Ok(Kind::U8)
        } else if c == UINT_16 {
            Ok(Kind::U16)
        } else if c == UINT_32 {
            Ok(Kind::U32)
        } else if c == UINT_64 {
            Ok(Kind::U64)
        } else if c == INT_8 {
            Ok(Kind::I8)
        } else if c == INT_16 {
            Ok(Kind::I16)
        } else if c == INT_32 {
            Ok(Kind::I32)
        } else if c == INT_64 {
            Ok(Kind::I64)
        } else if FIXEXT_1 <= c && c <= FIXEXT_16 {
            Err(Error::UnsupportedExt)
        } else if c == STR_8 || c == STR_16 || c == STR_32 {
            Ok(Kind::Str)
        } else if c == ARRAY_16 || c == ARRAY_32 {
            Ok(Kind::Array)
        } else if c == MAP_16 || c == MAP_32 {
            Ok(Kind::Entries)
        } else {
            Ok(Kind::I8)
        }
    }

    /// Consume the byte `code` if it comes next: `Ok(true)` then, otherwise
    /// `Ok(false)` with nothing consumed.
    ///
    /// With `NIL` this tells an absent optional value; with a map marker of
    /// one entry it tells an enum variant with content.
    pub fn eat_code(&mut self, code: u8) -> (r: Result<bool>)
        ensures
            final(self).input_seq() == old(self).input_seq(),
            old(self).rest().len() == 0 ==> r == Err::<bool, Error>(Error::UnexpectedEof)
                && final(self).cursor() == old(self).cursor(),
            old(self).rest().len() > 0 && old(self).rest()[0] == code ==> r == Ok::<bool, Error>(true)
                && final(self).cursor() == old(self).cursor() + 1,
            old(self).rest().len() > 0 && old(self).rest()[0] != code ==> r == Ok::<bool, Error>(false)
                && final(self).cursor() == old(self).cursor(),
    {
        let c = self.peek()?;
        if c == code {
            self.eat_some(1);
            Ok(true)
        } else {
            Ok(false)
        }
    }

    /// Read a struct field or enum variant identifier: an unsigned integer
    /// index or a string name.
    pub fn parse_identifier(&mut self) -> (r: Result<Identifier<'de>>)
        ensures
            ({
                let t = old(self).rest();
                &&& t.len() == 0 ==> r == Err::<Identifier, Error>(Error::UnexpectedEof)
                &&& t.len() > 0 && is_index_code(t[0]) ==> parsed(*old(self), *final(self),
                    within(spec_integer(t), 0, 0xffff_ffff), mapped(r, |v: Identifier| identifier_index(v)))
                    && (r matches Ok(v) ==> v is Index)
                &&& t.len() > 0 && is_str_code(t[0]) ==> parsed(*old(self), *final(self),
                    spec_str(t), mapped(r, |v: Identifier| identifier_name(v)))
                    && (r matches Ok(v) ==> v is Name)
                &&& t.len() > 0 && !is_index_code(t[0]) && !is_str_code(t[0]) ==> r == Err::<Identifier, Error>(
                    Error::ExpectedIdentifier,
                )
            }),
    {
        let c = self.peek()?;
        if c <= MAX_POSFIXINT || c == UINT_8 || c == UINT_16 || c == UINT_32 {
            let n = self.parse_u32()?;
            Ok(Identifier::Index(n))
        } else if (FIXSTR <= c && c <= FIXSTR_MAX) || c == STR_8 || c == STR_16 || c == STR_32 {
            let s = self.parse_str()?;
            Ok(Identifier::Name(s))
        } else {
            Err(Error::ExpectedIdentifier)
        }
    }
}

/// Counts down the items of an array or a map whose length the header gave.
pub struct CountingAccess {
    count: usize,
}

impl CountingAccess {
    /// The number of items still to come.
    pub closed spec fn remaining(&self) -> nat {
        self.count as nat
    }

    /// Start counting `count` items.
    pub fn new(count: usize) -> (r: Self)
        ensures
            r.remaining() == count,
    {
        CountingAccess { count }
    }

    /// Whether another item comes, which is then counted.
    pub fn next_item(&mut self) -> (r: bool)
        ensures
            r == (old(self).remaining() > 0),
            final(self).remaining() == if r { old(self).remaining() - 1 } else { 0 },
    {
        if self.count > 0 {
            self.count -= 1;
            true
        } else {
            false
        }
    }

    /// The number of items still to come.
    pub fn size_hint(&self) -> (r: usize)
        ensures
            r == self.remaining(),
    {
        self.count
    }

    /// All the announced items must have been read.
    pub fn finish(&self) -> (r: Result<()>)
        ensures
            r is Ok <==> self.remaining() == 0,
            r is Err ==> r == Err::<(), Error>(Error::TrailingElements),
    {
        if self.count == 0 {
            Ok(())
        } else {
            Err(Error::TrailingElements)
        }
    }
}

} // verus!
