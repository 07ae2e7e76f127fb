//! MessagePack serializer.
//!
//! The functions of this module write MessagePack items to a [`SerWrite`] sink.
//! Each states in its contract the exact bytes it appends on success.
use vstd::prelude::*;
use vstd::string::StringSliceAdditionalSpecFns;

use super::magick;
use super::magick::{
    ARRAY_16, ARRAY_32, BIN_16, BIN_32, BIN_8, FALSE, FIXARRAY, FIXMAP, FIXSTR, FLOAT_32, FLOAT_64,
    INT_16, INT_32, INT_64, INT_8, MAP_16, MAP_32, MAX_FIXARRAY_SIZE, MAX_FIXMAP_SIZE,
    MAX_FIXSTR_SIZE, MAX_POSFIXINT, NIL, STR_16, STR_32, STR_8, TRUE, UINT_16, UINT_32, UINT_64,
    UINT_8,
};
use crate::SerWrite;

verus! {

/// Serializing error
#[derive(Debug, Clone, PartialEq, Eq, Hash)]
#[non_exhaustive]
pub enum Error<E> {
    /// Writer error
    Writer(E),
    /// Undetermined map length or too many items
    MapLength,
    /// Undetermined sequence length or too many items
    SeqLength,
    /// String size too large
    StrLength,
    /// Byte-array size too large
    DataLength,
    /// Skipped a field in a struct using compact serializer
    FieldSkipped,
    /// Error formatting a collected string
    FormatError,
    /// An error passed down from a serialized type
    SerializeError(String),
}

/// Serialization result
pub type Result<T, E> = core::result::Result<T, Error<E>>;

impl<E> Error<E> {
    /// The human readable description of an error that does not come from the writer.
    pub fn description(&self) -> (r: Option<&'static str>)
        ensures
            r is None <==> (self is Writer || self is SerializeError),
            self is MapLength ==> (r matches Some(s) && s@ == "unknown or invalid map length"@),
            self is SeqLength ==> (r matches Some(s) && s@ == "unknown or invalid sequence length"@),
            self is StrLength ==> (r matches Some(s) && s@ == "invalid string length"@),
            self is DataLength ==> (r matches Some(s) && s@ == "invalid byte array length"@),
            self is FieldSkipped ==> (r matches Some(s) && s@ == "skipped a field in a middle of struct"@),
            self is FormatError ==> (r matches Some(s) && s@ == "error collecting a string"@),
    {
        match self {
            Error::Writer(_) => None,
            Error::MapLength => Some("unknown or invalid map length"),
            Error::SeqLength => Some("unknown or invalid sequence length"),
            Error::StrLength => Some("invalid string length"),
            Error::DataLength => Some("invalid byte array length"),
            Error::FieldSkipped => Some("skipped a field in a middle of struct"),
            Error::FormatError => Some("error collecting a string"),
            Error::SerializeError(_) => None,
        }
    }
}

/// The two's complement representation of `v` in `n` bytes.
pub open spec fn twos(v: int, n: nat) -> nat {
    (v % (magick::pow256(n) as int)) as nat
}

/// A marker byte followed by the `n` byte big-endian encoding of `v`.
pub open spec fn marked(marker: u8, v: nat, n: nat) -> Seq<u8> {
    seq![marker] + magick::be_bytes(v, n)
}

/// The shortest MessagePack encoding of the unsigned integer `v`.
pub open spec fn enc_uint(v: nat) -> Seq<u8> {
    if v <= 0x7f {
        seq![v as u8]
    } else if v <= 0xff {
        seq![UINT_8, v as u8]
    } else if v <= 0xffff {
        marked(UINT_16, v, 2)
    } else if v <= 0xffff_ffff {
        marked(UINT_32, v, 4)
    } else {
        marked(UINT_64, v, 8)
    }
}

/// The MessagePack encoding of the signed integer `v`: a fixed integer where
/// it fits, else the first of `i8`, `u8`, `i16`, `u16`, `i32`, `u32`, `i64`
/// that holds it.
pub open spec fn enc_int(v: int) -> Seq<u8> {
    if -32 <= v <= 0x7f {
        seq![twos(v, 1) as u8]
    } else if -0x80 <= v <= 0x7f {
        marked(INT_8, twos(v, 1), 1)
    } else if 0 <= v <= 0xff {
        seq![UINT_8, v as u8]
    } else if -0x8000 <= v <= 0x7fff {
        marked(INT_16, twos(v, 2), 2)
    } else if 0 <= v <= 0xffff {
        marked(UINT_16, v as nat, 2)
    } else if -0x8000_0000 <= v <= 0x7fff_ffff {
        marked(INT_32, twos(v, 4), 4)
    } else if 0 <= v <= 0xffff_ffff {
        marked(UINT_32, v as nat, 4)
    } else {
        marked(INT_64, twos(v, 8), 8)
    }
}

/// Whether `r` failed with an error of the writer.
pub open spec fn writer_failed<T, E>(r: Result<T, E>) -> bool {
    r matches Err(e) && e is Writer
}

/// The bytes written to `w` after an operation that appends `bytes` on success
/// and fails only with an error of the writer.
pub open spec fn appended<W: SerWrite, T>(old_w: W, new_w: W, bytes: Seq<u8>, r: Result<T, W::Error>) -> bool {
    &&& r is Ok ==> new_w.written() == old_w.written() + bytes
    &&& r is Err ==> writer_failed(r)
}

/// The `n` byte big-endian encoding of `v` in the first `n` bytes of an array.
fn be_array(v: u64, n: usize) -> (r: [u8; 8])
    requires
        n <= 8,
    ensures
        r@.take(n as int) == magick::be_bytes(v as nat, n as nat),
{
    let mut buf = [0u8; 8];
    let mut k: usize = n;
    let mut rest: u64 = v;
    while k > 0
        invariant
            k <= n <= 8,
            buf@.len() == 8,
            magick::be_bytes(v as nat, n as nat) == magick::be_bytes(rest as nat, k as nat)
                + buf@.subrange(k as int, n as int),
        decreases k,
    {
        let ghost old_buf = buf@;
        let ghost old_rest = rest;
        buf[k - 1] = (rest % 256) as u8;
        rest = rest / 256;
        k = k - 1;
        proof {
            assert(buf@.subrange(k as int, n as int) =~= seq![(old_rest % 256) as u8]
                + old_buf.subrange(k + 1, n as int));
            assert(magick::be_bytes(old_rest as nat, (k + 1) as nat) == magick::be_bytes(
                rest as nat,
                k as nat,
            ).push((old_rest % 256) as u8));
            assert(magick::be_bytes(rest as nat, k as nat).push((old_rest % 256) as u8)
                + old_buf.subrange(k + 1, n as int) =~= magick::be_bytes(rest as nat, k as nat)
                + buf@.subrange(k as int, n as int));
        }
    }
    assert(buf@.subrange(0, n as int) =~= buf@.take(n as int));
    assert(magick::be_bytes(rest as nat, 0) =~= Seq::<u8>::empty());
    buf
}

/// Write one byte, passing an error of the writer on.
fn put_byte<W: SerWrite>(output: &mut W, byte: u8) -> (r: Result<(), W::Error>)
    ensures
        appended(*old(output), *final(output), seq![byte], r),
{
    match output.write_byte(byte) {
        Ok(()) => {
            assert(old(output).written().push(byte) =~= old(output).written() + seq![byte]);
            Ok(())
        },
        Err(e) => Err(Error::Writer(e)),
    }
}

/// Write bytes, passing an error of the writer on.
fn put<W: SerWrite>(output: &mut W, bytes: &[u8]) -> (r: Result<(), W::Error>)
    ensures
        appended(*old(output), *final(output), bytes@, r),
{
    match output.write(bytes) {
        Ok(()) => Ok(()),
        Err(e) => Err(Error::Writer(e)),
    }
}

/// Write a marker byte followed by the `n` byte big-endian encoding of `v`.
fn put_marked<W: SerWrite>(output: &mut W, marker: u8, v: u64, n: usize) -> (r: Result<(), W::Error>)
    requires
        n <= 8,
    ensures
        appended(*old(output), *final(output), marked(marker, v as nat, n as nat), r),
{
    put_byte(output, marker)?;
    let buf = be_array(v, n);
    let r = put(output, vstd::slice::slice_subrange(buf.as_slice(), 0, n));
    proof {
        assert(buf@.subrange(0, n as int) == buf@.take(n as int));
        assert(marked(marker, v as nat, n as nat) =~= seq![marker] + magick::be_bytes(v as nat, n as nat));
        assert(old(output).written() + seq![marker] + magick::be_bytes(v as nat, n as nat)
            =~= old(output).written() + marked(marker, v as nat, n as nat));
    }
    r
}

/// Write an unsigned integer in its shortest MessagePack encoding.
pub fn write_u64<W: SerWrite>(output: &mut W, v: u64) -> (r: Result<(), W::Error>)
    ensures
        appended(*old(output), *final(output), enc_uint(v as nat), r),
{
    if v <= MAX_POSFIXINT as u64 {
        let r = put_byte(output, v as u8);
        assert(enc_uint(v as nat) =~= seq![v as u8]);
        r
    } else if v <= 0xff {
        assert(enc_uint(v as nat) =~= seq![UINT_8, v as u8]);
        put_byte(output, UINT_8)?;
        let r = put_byte(output, v as u8);
        proof {
            assert(old(output).written() + seq![UINT_8] + seq![v as u8] =~= old(output).written()
                + seq![UINT_8, v as u8]);
        }
        r
    } else if v <= 0xffff {
        put_marked(output, UINT_16, v, 2)
    } else if v <= 0xffff_ffff {
        put_marked(output, UINT_32, v, 4)
    } else {
        put_marked(output, UINT_64, v, 8)
    }
}

/// Write an unsigned 32-bit integer in its shortest MessagePack encoding.
pub fn write_u32<W: SerWrite>(output: &mut W, v: u32) -> (r: Result<(), W::Error>)
    ensures
        appended(*old(output), *final(output), enc_uint(v as nat), r),
{
    if v <= MAX_POSFIXINT as u32 {
        let r = put_byte(output, v as u8);
        assert(enc_uint(v as nat) =~= seq![v as u8]);
        r
    } else if v <= 0xff {
        assert(enc_uint(v as nat) =~= seq![UINT_8, v as u8]);
        put_byte(output, UINT_8)?;
        let r = put_byte(output, v as u8);
        proof {
            assert(old(output).written() + seq![UINT_8] + seq![v as u8] =~= old(output).written()
                + seq![UINT_8, v as u8]);
        }
        r
    } else if v <= 0xffff {
        put_marked(output, UINT_16, v as u64, 2)
    } else {
        put_marked(output, UINT_32, v as u64, 4)
    }
}

/// Write a signed integer in the MessagePack encoding given by [`enc_int`].
pub fn write_i64<W: SerWrite>(output: &mut W, v: i64) -> (r: Result<(), W::Error>)
    ensures
        appended(*old(output), *final(output), enc_int(v as int), r),
{
    proof { super::de::lemma_pow256_values(); }
    if -32 <= v && v <= MAX_POSFIXINT as i64 {
        let b: u8 = if v >= 0 { v as u8 } else { (v + 256) as u8 };
        assert(enc_int(v as int) =~= seq![b]);
        put_byte(output, b)
    } else if -0x80 <= v && v <= 0x7f {
        put_marked(output, INT_8, (v + 256) as u64, 1)
    } else if 0 <= v && v <= 0xff {
        assert(enc_int(v as int) =~= seq![UINT_8, v as u8]);
        put_byte(output, UINT_8)?;
        let r = put_byte(output, v as u8);
        proof {
            assert(old(output).written() + seq![UINT_8] + seq![v as u8] =~= old(output).written()
                + seq![UINT_8, v as u8]);
        }
        r
    } else if -0x8000 <= v && v <= 0x7fff {
        let u: u64 = if v >= 0 { v as u64 } else { (v + 0x1_0000) as u64 };
        put_marked(output, INT_16, u, 2)
    } else if 0 <= v && v <= 0xffff {
        put_marked(output, UINT_16, v as u64, 2)
    } else if -0x8000_0000 <= v && v <= 0x7fff_ffff {
        let u: u64 = if v >= 0 { v as u64 } else { (v + 0x1_0000_0000) as u64 };
        put_marked(output, INT_32, u, 4)
    } else if 0 <= v && v <= 0xffff_ffff {
        put_marked(output, UINT_32, v as u64, 4)
    } else {
        let u: u64 = if v >= 0 { v as u64 } else { (v as i128 + 0x1_0000_0000_0000_0000) as u64 };
        put_marked(output, INT_64, u, 8)
    }
}

/// Write a boolean.
pub fn write_bool<W: SerWrite>(output: &mut W, v: bool) -> (r: Result<(), W::Error>)
    ensures
        appended(*old(output), *final(output), seq![if v { TRUE } else { FALSE }], r),
{
    put_byte(output, if v { TRUE } else { FALSE })
}

/// Write a `nil`, the encoding of `None` and of the unit value.
pub fn write_nil<W: SerWrite>(output: &mut W) -> (r: Result<(), W::Error>)
    ensures
        appended(*old(output), *final(output), seq![NIL], r),
{
    put_byte(output, NIL)
}

/// Write a single precision float given by its bits.
pub fn write_f32_bits<W: SerWrite>(output: &mut W, bits: u32) -> (r: Result<(), W::Error>)
    ensures
        appended(*old(output), *final(output), marked(FLOAT_32, bits as nat, 4), r),
{
    put_marked(output, FLOAT_32, bits as u64, 4)
}

/// Write a double precision float given by its bits.
pub fn write_f64_bits<W: SerWrite>(output: &mut W, bits: u64) -> (r: Result<(), W::Error>)
    ensures
        appended(*old(output), *final(output), marked(FLOAT_64, bits as nat, 8), r),
{
    put_marked(output, FLOAT_64, bits, 8)
}

/// The MessagePack header of a string of `len` bytes.
pub open spec fn enc_str_len(len: nat) -> Seq<u8> {
    if len <= 0x1f {
        seq![(FIXSTR + len) as u8]
    } else if len <= 0xff {
        seq![STR_8, len as u8]
    } else if len <= 0xffff {
        marked(STR_16, len, 2)
    } else {
        marked(STR_32, len, 4)
    }
}

/// The MessagePack header of a binary of `len` bytes.
pub open spec fn enc_bin_len(len: nat) -> Seq<u8> {
    if len <= 0xff {
        seq![BIN_8, len as u8]
    } else if len <= 0xffff {
        marked(BIN_16, len, 2)
    } else {
        marked(BIN_32, len, 4)
    }
}

/// The MessagePack header of an array of `len` items.
pub open spec fn enc_array_len(len: nat) -> Seq<u8> {
    if len <= 0x0f {
        seq![(FIXARRAY + len) as u8]
    } else if len <= 0xffff {
        marked(ARRAY_16, len, 2)
    } else {
        marked(ARRAY_32, len, 4)
    }
}

/// The MessagePack header of a map of `len` entries.
pub open spec fn enc_map_len(len: nat) -> Seq<u8> {
    if len <= 0x0f {
        seq![(FIXMAP + len) as u8]
    } else if len <= 0xffff {
        marked(MAP_16, len, 2)
    } else {
        marked(MAP_32, len, 4)
    }
}

/// The outcome of writing a header of a length that must fit in 32 bits:
/// the header is appended, or `err` is returned for a longer length.
pub open spec fn header_written<W: SerWrite>(old_w: W, new_w: W, len: nat, header: Seq<u8>, err: Error<W::Error>, r: Result<(), W::Error>) -> bool {
    if len <= 0xffff_ffff {
        appended(old_w, new_w, header, r)
    } else {
        r == Err::<(), Error<W::Error>>(err) && new_w == old_w
    }
}

/// Write the header of a string of `len` bytes.
pub fn write_str_len<W: SerWrite>(output: &mut W, len: usize) -> (r: Result<(), W::Error>)
    ensures
        header_written(*old(output), *final(output), len as nat, enc_str_len(len as nat), Error::StrLength, r),
{
    if len <= MAX_FIXSTR_SIZE {
        let r = put_byte(output, FIXSTR + len as u8);
        assert(enc_str_len(len as nat) =~= seq![(FIXSTR + len as u8) as u8]);
        r
    } else if len <= 0xff {
        assert(enc_str_len(len as nat) =~= seq![STR_8, len as u8]);
        put_byte(output, STR_8)?;
        let r = put_byte(output, len as u8);
        proof {
            assert(old(output).written() + seq![STR_8] + seq![len as u8] =~= old(output).written()
                + seq![STR_8, len as u8]);
        }
        r
    } else if len <= 0xffff {
        put_marked(output, STR_16, len as u64, 2)
    } else if len as u64 <= 0xffff_ffff {
        put_marked(output, STR_32, len as u64, 4)
    } else {
        Err(Error::StrLength)
    }
}

/// Write a string with its header.
pub fn write_str<W: SerWrite>(output: &mut W, v: &str) -> (r: Result<(), W::Error>)
    ensures
        header_written(*old(output), *final(output), v.spec_bytes().len(), enc_str_len(v.spec_bytes().len()) + v.spec_bytes(), Error::StrLength, r),
{
    let size = v.as_bytes().len();
    write_str_len(output, size)?;
    let r = match output.write_str(v) {
        Ok(()) => Ok(()),
        Err(e) => Err(Error::Writer(e)),
    };
    proof {
        assert(old(output).written() + enc_str_len(size as nat) + v.spec_bytes() =~= old(output).written()
            + (enc_str_len(size as nat) + v.spec_bytes()));
    }
    r
}

/// Write a binary with its header.
pub fn write_bin<W: SerWrite>(output: &mut W, v: &[u8]) -> (r: Result<(), W::Error>)
    ensures
        header_written(*old(output), *final(output), v@.len(), enc_bin_len(v@.len()) + v@, Error::DataLength, r),
{
    let size = v.len();
    if size <= 0xff {
        assert(enc_bin_len(size as nat) =~= seq![BIN_8, size as u8]);
        put_byte(output, BIN_8)?;
        put_byte(output, size as u8)?;
        proof {
            assert(old(output).written() + seq![BIN_8] + seq![size as u8] =~= old(output).written()
                + seq![BIN_8, size as u8]);
        }
    } else if size <= 0xffff {
        put_marked(output, BIN_16, size as u64, 2)?;
    } else if size as u64 <= 0xffff_ffff {
        put_marked(output, BIN_32, size as u64, 4)?;
    } else {
        return Err(Error::DataLength);
    }
    let r = put(output, v);
    proof {
        assert(old(output).written() + enc_bin_len(size as nat) + v@ =~= old(output).written()
            + (enc_bin_len(size as nat) + v@));
    }
    r
}

/// Write the header of an array of `len` items.
pub fn write_array_len<W: SerWrite>(output: &mut W, len: usize) -> (r: Result<(), W::Error>)
    ensures
        header_written(*old(output), *final(output), len as nat, enc_array_len(len as nat), Error::SeqLength, r),
{
    if len <= MAX_FIXARRAY_SIZE {
        let r = put_byte(output, FIXARRAY + len as u8);
        assert(enc_array_len(len as nat) =~= seq![(FIXARRAY + len as u8) as u8]);
        r
    } else if len <= 0xffff {
        put_marked(output, ARRAY_16, len as u64, 2)
    } else if len as u64 <= 0xffff_ffff {
        put_marked(output, ARRAY_32, len as u64, 4)
    } else {
        Err(Error::SeqLength)
    }
}

/// Write the header of a map of `len` entries.
pub fn write_map_len<W: SerWrite>(output: &mut W, len: usize) -> (r: Result<(), W::Error>)
    ensures
        header_written(*old(output), *final(output), len as nat, enc_map_len(len as nat), Error::MapLength, r),
{
    if len <= MAX_FIXMAP_SIZE {
        let r = put_byte(output, FIXMAP + len as u8);
        assert(enc_map_len(len as nat) =~= seq![(FIXMAP + len as u8) as u8]);
        r
    } else if len <= 0xffff {
        put_marked(output, MAP_16, len as u64, 2)
    } else if len as u64 <= 0xffff_ffff {
        put_marked(output, MAP_32, len as u64, 4)
    } else {
        Err(Error::MapLength)
    }
}

/// MessagePack serializer serializing structs to arrays and enum variants as indexes.
///
/// **Warning**: with this serializer only last fields can be skipped from a data structure.
pub struct CompactSerializer<W> {
    output: W,
}

/// MessagePack serializer serializing structs to maps with fields and enum variants as indexes
pub struct StructMapIdxSerializer<W> {
    output: W,
}

/// MessagePack serializer serializing structs to maps with field names and enum variants as names
pub struct StructMapStrSerializer<W> {
    output: W,
}

impl<W> CompactSerializer<W> {
    /// The writer that receives the output.
    pub closed spec fn inner(&self) -> W {
        self.output
    }

    /// Create a new `Serializer` with the given `output` that should implement [`SerWrite`].
    pub fn new(output: W) -> (r: Self)
        ensures
            r.inner() == output,
    {
        CompactSerializer { output }
    }

    /// Destruct self returning the `output` object.
    pub fn into_inner(self) -> (r: W)
        ensures
            r == self.inner(),
    {
        self.output
    }

    /// Provide access to the inner writer.
    pub fn writer(&mut self) -> (r: &mut W)
        ensures
            *r == old(self).inner(),
            final(self).inner() == *final(r),
    {
        &mut self.output
    }
}

impl<W: SerWrite> CompactSerializer<W> {
    /// Write an enum variant as its index.
    pub fn serialize_variant(&mut self, variant_index: u32, _variant_name: &str) -> (r: Result<(), W::Error>)
        ensures
            appended(old(self).inner(), final(self).inner(), enc_uint(variant_index as nat), r),
    {
        write_u32(&mut self.output, variant_index)
    }

    /// Write the head of an externally tagged variant with content: a map of
    /// one entry, and the variant as its index.
    pub fn begin_variant(&mut self, variant_index: u32, variant_name: &str) -> (r: Result<(), W::Error>)
        ensures
            appended(old(self).inner(), final(self).inner(), seq![FIXMAP_ONE] + enc_uint(variant_index as nat), r),
    {
        put_byte(&mut self.output, FIXMAP_ONE)?;
        let r = self.serialize_variant(variant_index, variant_name);
        proof {
            assert(old(self).inner().written() + seq![FIXMAP_ONE] + enc_uint(variant_index as nat)
                =~= old(self).inner().written() + (seq![FIXMAP_ONE] + enc_uint(variant_index as nat)));
        }
        r
    }

    /// Write the header of a struct of `len` fields.
    pub fn serialize_struct(&mut self, len: usize) -> (r: Result<SerializeStructArray<'_, Self>, W::Error>)
        ensures
            len > 0xffff_ffff ==> (r matches Err(e) && e == Error::<W::Error>::SeqLength && *final(self) == *old(self)),
            len <= 0xffff_ffff && r is Err ==> writer_failed(r),
            r matches Ok(s) ==> (s.remaining() == len
                && (*s.target()).inner().written() == old(self).inner().written() + enc_array_len(len as nat)
                && *final(self) == *final(s.target())),

    {
        match write_array_len(&mut self.output, len) {
            Ok(()) => Ok(SerializeStructArray { ser: self, len }),
            Err(e) => Err(e),
        }
    }

    /// Write the header of a sequence of a known length.
    pub fn serialize_seq(&mut self, len: Option<usize>) -> (r: Result<SerializeSeqMap<'_, Self>, W::Error>)
        ensures
            len is None ==> (r matches Err(e) && e == Error::<W::Error>::SeqLength && *final(self) == *old(self)),
            len matches Some(n) && n > 0xffff_ffff ==> (r matches Err(e) && e == Error::<W::Error>::SeqLength && *final(self) == *old(self)),
            len matches Some(n) && n <= 0xffff_ffff && r is Err ==> writer_failed(r),
            r matches Ok(s) ==> (len matches Some(n) && s.remaining() == n
                && (*s.target()).inner().written() == old(self).inner().written() + enc_array_len(n as nat)
                && *final(self) == *final(s.target())),
    {
        let len = match len {
            Some(len) => len,
            None => return Err(Error::SeqLength),
        };
        match write_array_len(&mut self.output, len) {
            Ok(()) => Ok(SerializeSeqMap { ser: self, len }),
            Err(e) => Err(e),
        }
    }

    /// Write the header of a tuple of `len` items.
    pub fn serialize_tuple(&mut self, len: usize) -> (r: Result<SerializeSeqMap<'_, Self>, W::Error>)
        ensures
            len > 0xffff_ffff ==> (r matches Err(e) && e == Error::<W::Error>::SeqLength && *final(self) == *old(self)),
            len <= 0xffff_ffff && r is Err ==> writer_failed(r),
            r matches Ok(s) ==> (s.remaining() == len
                && (*s.target()).inner().written() == old(self).inner().written() + enc_array_len(len as nat)
                && *final(self) == *final(s.target())),
    {
        match write_array_len(&mut self.output, len) {
            Ok(()) => Ok(SerializeSeqMap { ser: self, len }),
            Err(e) => Err(e),
        }
    }

    /// Write the header of a map of a known number of entries.
    pub fn serialize_map(&mut self, len: Option<usize>) -> (r: Result<SerializeSeqMap<'_, Self>, W::Error>)
        ensures
            len is None ==> (r matches Err(e) && e == Error::<W::Error>::MapLength && *final(self) == *old(self)),
            len matches Some(n) && n > 0xffff_ffff ==> (r matches Err(e) && e == Error::<W::Error>::MapLength && *final(self) == *old(self)),
            len matches Some(n) && n <= 0xffff_ffff && r is Err ==> writer_failed(r),
            r matches Ok(s) ==> (len matches Some(n) && s.remaining() == n
                && (*s.target()).inner().written() == old(self).inner().written() + enc_map_len(n as nat)
                && *final(self) == *final(s.target())),
    {
        let len = match len {
            Some(len) => len,
            None => return Err(Error::MapLength),
        };
        match write_map_len(&mut self.output, len) {
            Ok(()) => Ok(SerializeSeqMap { ser: self, len }),
            Err(e) => Err(e),
        }
    }
}

impl<W> StructMapIdxSerializer<W> {
    /// The writer that receives the output.
    pub closed spec fn inner(&self) -> W {
        self.output
    }

    /// Create a new `Serializer` with the given `output` that should implement [`SerWrite`].
    pub fn new(output: W) -> (r: Self)
        ensures
            r.inner() == output,
    {
        StructMapIdxSerializer { output }
    }

    /// Destruct self returning the `output` object.
    pub fn into_inner(self) -> (r: W)
        ensures
            r == self.inner(),
    {
        self.output
    }

    /// Provide access to the inner writer.
    pub fn writer(&mut self) -> (r: &mut W)
        ensures
            *r == old(self).inner(),
            final(self).inner() == *final(r),
    {
        &mut self.output
    }
}

impl<W: SerWrite> StructMapIdxSerializer<W> {
    /// Write an enum variant as its index.
    pub fn serialize_variant(&mut self, variant_index: u32, _variant_name: &str) -> (r: Result<(), W::Error>)
        ensures
            appended(old(self).inner(), final(self).inner(), enc_uint(variant_index as nat), r),
    {
        write_u32(&mut self.output, variant_index)
    }

    /// Write the head of an externally tagged variant with content: a map of
    /// one entry, and the variant as its index.
    pub fn begin_variant(&mut self, variant_index: u32, variant_name: &str) -> (r: Result<(), W::Error>)
        ensures
            appended(old(self).inner(), final(self).inner(), seq![FIXMAP_ONE] + enc_uint(variant_index as nat), r),
    {
        put_byte(&mut self.output, FIXMAP_ONE)?;
        let r = self.serialize_variant(variant_index, variant_name);
        proof {
            assert(old(self).inner().written() + seq![FIXMAP_ONE] + enc_uint(variant_index as nat)
                =~= old(self).inner().written() + (seq![FIXMAP_ONE] + enc_uint(variant_index as nat)));
        }
        r
    }

    /// Write the header of a struct of `len` fields.
    pub fn serialize_struct(&mut self, len: usize) -> (r: Result<SerializeStructIntMap<'_, Self>, W::Error>)
        ensures
            len > 0xffff_ffff ==> (r matches Err(e) && e == Error::<W::Error>::MapLength && *final(self) == *old(self)),
            len <= 0xffff_ffff && r is Err ==> writer_failed(r),
            r matches Ok(s) ==> (s.remaining() == len
                && (*s.target()).inner().written() == old(self).inner().written() + enc_map_len(len as nat)
                && *final(self) == *final(s.target())),
            r matches Ok(s) ==> s.index() == 0,
    {
        match write_map_len(&mut self.output, len) {
            Ok(()) => Ok(SerializeStructIntMap { ser: self, len, idx: 0 }),
            Err(e) => Err(e),
        }
    }

    /// Write the header of a sequence of a known length.
    pub fn serialize_seq(&mut self, len: Option<usize>) -> (r: Result<SerializeSeqMap<'_, Self>, W::Error>)
        ensures
            len is None ==> (r matches Err(e) && e == Error::<W::Error>::SeqLength && *final(self) == *old(self)),
            len matches Some(n) && n > 0xffff_ffff ==> (r matches Err(e) && e == Error::<W::Error>::SeqLength && *final(self) == *old(self)),
            len matches Some(n) && n <= 0xffff_ffff && r is Err ==> writer_failed(r),
            r matches Ok(s) ==> (len matches Some(n) && s.remaining() == n
                && (*s.target()).inner().written() == old(self).inner().written() + enc_array_len(n as nat)
                && *final(self) == *final(s.target())),
    {
        let len = match len {
            Some(len) => len,
            None => return Err(Error::SeqLength),
        };
        match write_array_len(&mut self.output, len) {
            Ok(()) => Ok(SerializeSeqMap { ser: self, len }),
            Err(e) => Err(e),
        }
    }

    /// Write the header of a tuple of `len` items.
    pub fn serialize_tuple(&mut self, len: usize) -> (r: Result<SerializeSeqMap<'_, Self>, W::Error>)
        ensures
            len > 0xffff_ffff ==> (r matches Err(e) && e == Error::<W::Error>::SeqLength && *final(self) == *old(self)),
            len <= 0xffff_ffff && r is Err ==> writer_failed(r),
            r matches Ok(s) ==> (s.remaining() == len
                && (*s.target()).inner().written() == old(self).inner().written() + enc_array_len(len as nat)
                && *final(self) == *final(s.target())),
    {
        match write_array_len(&mut self.output, len) {
            Ok(()) => Ok(SerializeSeqMap { ser: self, len }),
            Err(e) => Err(e),
        }
    }

    /// Write the header of a map of a known number of entries.
    pub fn serialize_map(&mut self, len: Option<usize>) -> (r: Result<SerializeSeqMap<'_, Self>, W::Error>)
        ensures
            len is None ==> (r matches Err(e) && e == Error::<W::Error>::MapLength && *final(self) == *old(self)),
            len matches Some(n) && n > 0xffff_ffff ==> (r matches Err(e) && e == Error::<W::Error>::MapLength && *final(self) == *old(self)),
            len matches Some(n) && n <= 0xffff_ffff && r is Err ==> writer_failed(r),
            r matches Ok(s) ==> (len matches Some(n) && s.remaining() == n
                && (*s.target()).inner().written() == old(self).inner().written() + enc_map_len(n as nat)
                && *final(self) == *final(s.target())),
    {
        let len = match len {
            Some(len) => len,
            None => return Err(Error::MapLength),
        };
        match write_map_len(&mut self.output, len) {
            Ok(()) => Ok(SerializeSeqMap { ser: self, len }),
            Err(e) => Err(e),
        }
    }
}

impl<W> StructMapStrSerializer<W> {
    /// The writer that receives the output.
    pub closed spec fn inner(&self) -> W {
        self.output
    }

    /// Create a new `Serializer` with the given `output` that should implement [`SerWrite`].
    pub fn new(output: W) -> (r: Self)
        ensures
            r.inner() == output,
    {
        StructMapStrSerializer { output }
    }

    /// Destruct self returning the `output` object.
    pub fn into_inner(self) -> (r: W)
        ensures
            r == self.inner(),
    {
        self.output
    }

    /// Provide access to the inner writer.
    pub fn writer(&mut self) -> (r: &mut W)
        ensures
            *r == old(self).inner(),
            final(self).inner() == *final(r),
    {
        &mut self.output
    }
}

impl<W: SerWrite> StructMapStrSerializer<W> {
    /// Write an enum variant as its name.
    pub fn serialize_variant(&mut self, _variant_index: u32, variant_name: &str) -> (r: Result<(), W::Error>)
        ensures
            header_written(old(self).inner(), final(self).inner(), variant_name.spec_bytes().len(),
                enc_str_len(variant_name.spec_bytes().len()) + variant_name.spec_bytes(), Error::StrLength, r),
    {
        write_str(&mut self.output, variant_name)
    }

    /// Write the head of an externally tagged variant with content: a map of
    /// one entry, and the variant as its name.
    pub fn begin_variant(&mut self, variant_index: u32, variant_name: &str) -> (r: Result<(), W::Error>)
        ensures
            variant_name.spec_bytes().len() <= 0xffff_ffff ==> appended(old(self).inner(), final(self).inner(),
                seq![FIXMAP_ONE] + enc_str_len(variant_name.spec_bytes().len()) + variant_name.spec_bytes(), r),
            variant_name.spec_bytes().len() > 0xffff_ffff ==> (r matches Err(e) && (e is Writer || e is StrLength)),
    {
        put_byte(&mut self.output, FIXMAP_ONE)?;
        let r = self.serialize_variant(variant_index, variant_name);
        proof {
            let b = variant_name.spec_bytes();
            assert(old(self).inner().written() + seq![FIXMAP_ONE] + (enc_str_len(b.len()) + b)
                =~= old(self).inner().written() + (seq![FIXMAP_ONE] + enc_str_len(b.len()) + b));
        }
        r
    }

    /// Write the header of a struct of `len` fields.
    pub fn serialize_struct(&mut self, len: usize) -> (r: Result<SerializeStructStrMap<'_, Self>, W::Error>)
        ensures
            len > 0xffff_ffff ==> (r matches Err(e) && e == Error::<W::Error>::MapLength && *final(self) == *old(self)),
            len <= 0xffff_ffff && r is Err ==> writer_failed(r),
            r matches Ok(s) ==> (s.remaining() == len
                && (*s.target()).inner().written() == old(self).inner().written() + enc_map_len(len as nat)
                && *final(self) == *final(s.target())),

    {
        match write_map_len(&mut self.output, len) {
            Ok(()) => Ok(SerializeStructStrMap { ser: self, len }),
            Err(e) => Err(e),
        }
    }

    /// Write the header of a sequence of a known length.
    pub fn serialize_seq(&mut self, len: Option<usize>) -> (r: Result<SerializeSeqMap<'_, Self>, W::Error>)
        ensures
            len is None ==> (r matches Err(e) && e == Error::<W::Error>::SeqLength && *final(self) == *old(self)),
            len matches Some(n) && n > 0xffff_ffff ==> (r matches Err(e) && e == Error::<W::Error>::SeqLength && *final(self) == *old(self)),
            len matches Some(n) && n <= 0xffff_ffff && r is Err ==> writer_failed(r),
            r matches Ok(s) ==> (len matches Some(n) && s.remaining() == n
                && (*s.target()).inner().written() == old(self).inner().written() + enc_array_len(n as nat)
                && *final(self) == *final(s.target())),
    {
        let len = match len {
            Some(len) => len,
            None => return Err(Error::SeqLength),
        };
        match write_array_len(&mut self.output, len) {
            Ok(()) => Ok(SerializeSeqMap { ser: self, len }),
            Err(e) => Err(e),
        }
    }

    /// Write the header of a tuple of `len` items.
    pub fn serialize_tuple(&mut self, len: usize) -> (r: Result<SerializeSeqMap<'_, Self>, W::Error>)
        ensures
            len > 0xffff_ffff ==> (r matches Err(e) && e == Error::<W::Error>::SeqLength && *final(self) == *old(self)),
            len <= 0xffff_ffff && r is Err ==> writer_failed(r),
            r matches Ok(s) ==> (s.remaining() == len
                && (*s.target()).inner().written() == old(self).inner().written() + enc_array_len(len as nat)
                && *final(self) == *final(s.target())),
    {
        match write_array_len(&mut self.output, len) {
            Ok(()) => Ok(SerializeSeqMap { ser: self, len }),
            Err(e) => Err(e),
        }
    }

    /// Write the header of a map of a known number of entries.
    pub fn serialize_map(&mut self, len: Option<usize>) -> (r: Result<SerializeSeqMap<'_, Self>, W::Error>)
        ensures
            len is None ==> (r matches Err(e) && e == Error::<W::Error>::MapLength && *final(self) == *old(self)),
            len matches Some(n) && n > 0xffff_ffff ==> (r matches Err(e) && e == Error::<W::Error>::MapLength && *final(self) == *old(self)),
            len matches Some(n) && n <= 0xffff_ffff && r is Err ==> writer_failed(r),
            r matches Ok(s) ==> (len matches Some(n) && s.remaining() == n
                && (*s.target()).inner().written() == old(self).inner().written() + enc_map_len(n as nat)
                && *final(self) == *final(s.target())),
    {
        let len = match len {
            Some(len) => len,
            None => return Err(Error::MapLength),
        };
        match write_map_len(&mut self.output, len) {
            Ok(()) => Ok(SerializeSeqMap { ser: self, len }),
            Err(e) => Err(e),
        }
    }
}

/// The index after `i`, wrapping around to 0.
pub open spec fn next_index(i: u32) -> u32 {
    if i == u32::MAX {
        0
    } else {
        (i + 1) as u32
    }
}

/// The marker of a map of one entry, which holds an externally tagged variant.
pub const FIXMAP_ONE: u8 = 0x81;

/// Serializer of a sequence, a tuple or a map: counts the items that the
/// header announced.
pub struct SerializeSeqMap<'a, S> {
    ser: &'a mut S,
    len: usize,
}

/// Serializer of a struct as an array: counts the fields that the header announced.
pub struct SerializeStructArray<'a, S> {
    ser: &'a mut S,
    len: usize,
}

/// Serializer of a struct as a map keyed by field indexes: counts the fields
/// that the header announced and numbers them, skipped fields included.
pub struct SerializeStructIntMap<'a, S> {
    ser: &'a mut S,
    len: usize,
    idx: u32,
}

/// Serializer of a struct as a map keyed by field names: counts the fields
/// that the header announced.
pub struct SerializeStructStrMap<'a, S> {
    ser: &'a mut S,
    len: usize,
}

impl<'a, S> SerializeSeqMap<'a, S> {
    /// The number of items still to come.
    pub closed spec fn remaining(&self) -> nat {
        self.len as nat
    }

    /// The reference to the serializer that receives the items.
    pub closed spec fn target(&self) -> &'a mut S {
        self.ser
    }

    /// Provide access to the serializer that receives the items.
    pub fn serializer(&mut self) -> (r: &mut S)
        ensures
            *r == *old(self).target(),
            *final(self).target() == *final(r),
            final(self).remaining() == old(self).remaining(),
    {
        &mut *self.ser
    }

    /// Count an element of a sequence or a tuple; fails once all the announced elements were given.
    pub fn element<E>(&mut self) -> (r: Result<(), E>)
        ensures
            old(self).remaining() == 0 ==> r == Err::<(), Error<E>>(Error::SeqLength) && *final(self) == *old(self),
            old(self).remaining() > 0 ==> r is Ok && final(self).remaining() == old(self).remaining() - 1
                && final(self).target() == old(self).target(),
    {
        match self.len.checked_sub(1) {
            Some(len) => {
                self.len = len;
                Ok(())
            },
            None => Err(Error::SeqLength),
        }
    }

    /// Count an entry of a map; fails once all the announced entries were given.
    pub fn key<E>(&mut self) -> (r: Result<(), E>)
        ensures
            old(self).remaining() == 0 ==> r == Err::<(), Error<E>>(Error::MapLength) && *final(self) == *old(self),
            old(self).remaining() > 0 ==> r is Ok && final(self).remaining() == old(self).remaining() - 1
                && final(self).target() == old(self).target(),
    {
        match self.len.checked_sub(1) {
            Some(len) => {
                self.len = len;
                Ok(())
            },
            None => Err(Error::MapLength),
        }
    }

    /// Finish a sequence or a tuple, which must have received all the announced elements.
    pub fn end_seq<E>(self) -> (r: Result<(), E>)
        ensures
            self.remaining() == 0 ==> r is Ok,
            self.remaining() != 0 ==> r == Err::<(), Error<E>>(Error::SeqLength),
    {
        if self.len == 0 {
            Ok(())
        } else {
            Err(Error::SeqLength)
        }
    }

    /// Finish a map, which must have received all the announced entries.
    pub fn end_map<E>(self) -> (r: Result<(), E>)
        ensures
            self.remaining() == 0 ==> r is Ok,
            self.remaining() != 0 ==> r == Err::<(), Error<E>>(Error::MapLength),
    {
        if self.len == 0 {
            Ok(())
        } else {
            Err(Error::MapLength)
        }
    }
}

impl<'a, S> SerializeStructArray<'a, S> {
    /// The number of items still to come.
    pub closed spec fn remaining(&self) -> nat {
        self.len as nat
    }

    /// The reference to the serializer that receives the items.
    pub closed spec fn target(&self) -> &'a mut S {
        self.ser
    }

    /// Provide access to the serializer that receives the items.
    pub fn serializer(&mut self) -> (r: &mut S)
        ensures
            *r == *old(self).target(),
            *final(self).target() == *final(r),
            final(self).remaining() == old(self).remaining(),
    {
        &mut *self.ser
    }

    /// Count a field; fails once all the announced fields were given.
    pub fn field<E>(&mut self) -> (r: Result<(), E>)
        ensures
            old(self).remaining() == 0 ==> r == Err::<(), Error<E>>(Error::SeqLength) && *final(self) == *old(self),
            old(self).remaining() > 0 ==> r is Ok && final(self).remaining() == old(self).remaining() - 1
                && final(self).target() == old(self).target(),
    {
        match self.len.checked_sub(1) {
            Some(len) => {
                self.len = len;
                Ok(())
            },
            None => Err(Error::SeqLength),
        }
    }

    /// Skip a field: only the last fields of a struct can be skipped.
    pub fn skip_field<E>(&mut self) -> (r: Result<(), E>)
        ensures
            *final(self) == *old(self),
            old(self).remaining() == 0 ==> r is Ok,
            old(self).remaining() != 0 ==> r == Err::<(), Error<E>>(Error::FieldSkipped),
    {
        if self.len == 0 {
            Ok(())
        } else {
            Err(Error::FieldSkipped)
        }
    }

    /// Finish a struct, which must have received all the announced fields.
    pub fn end<E>(self) -> (r: Result<(), E>)
        ensures
            self.remaining() == 0 ==> r is Ok,
            self.remaining() != 0 ==> r == Err::<(), Error<E>>(Error::SeqLength),
    {
        if self.len == 0 {
            Ok(())
        } else {
            Err(Error::SeqLength)
        }
    }
}

impl<'a, S> SerializeStructIntMap<'a, S> {
    /// The number of items still to come.
    pub closed spec fn remaining(&self) -> nat {
        self.len as nat
    }

    /// The reference to the serializer that receives the items.
    pub closed spec fn target(&self) -> &'a mut S {
        self.ser
    }

    /// The index of the next field.
    pub closed spec fn index(&self) -> u32 {
        self.idx
    }

    /// Provide access to the serializer that receives the items.
    pub fn serializer(&mut self) -> (r: &mut S)
        ensures
            *r == *old(self).target(),
            *final(self).target() == *final(r),
            final(self).remaining() == old(self).remaining(),
            final(self).index() == old(self).index(),
    {
        &mut *self.ser
    }

    /// Skip a field, which still takes an index.
    pub fn skip_field<E>(&mut self) -> (r: Result<(), E>)
        ensures
            r is Ok,
            final(self).index() == next_index(old(self).index()),
            final(self).remaining() == old(self).remaining(),
            final(self).target() == old(self).target(),
    {
        self.idx = self.idx.wrapping_add(1);
        Ok(())
    }

    /// Finish a struct, which must have received all the announced fields.
    pub fn end<E>(self) -> (r: Result<(), E>)
        ensures
            self.remaining() == 0 ==> r is Ok,
            self.remaining() != 0 ==> r == Err::<(), Error<E>>(Error::MapLength),
    {
        if self.len == 0 {
            Ok(())
        } else {
            Err(Error::MapLength)
        }
    }
}

impl<'a, W: SerWrite> SerializeStructIntMap<'a, StructMapIdxSerializer<W>> {
    /// Count a field and write its index as the key of its entry; fails once
    /// all the announced fields were given.
    pub fn field(&mut self) -> (r: Result<(), W::Error>)
        ensures
            old(self).remaining() == 0 ==> r == Err::<(), Error<W::Error>>(Error::MapLength) && *final(self) == *old(self),
            old(self).remaining() > 0 ==> final(self).remaining() == old(self).remaining() - 1
                && final(self).index() == next_index(old(self).index())
                && appended((*old(self).target()).inner(), (*final(self).target()).inner(), enc_uint(old(self).index() as nat), r),
    {
        self.len = match self.len.checked_sub(1) {
            Some(len) => len,
            None => return Err(Error::MapLength),
        };
        let idx = self.idx;
        self.idx = idx.wrapping_add(1);
        write_u32(&mut self.ser.output, idx)
    }
}

impl<'a, S> SerializeStructStrMap<'a, S> {
    /// The number of items still to come.
    pub closed spec fn remaining(&self) -> nat {
        self.len as nat
    }

    /// The reference to the serializer that receives the items.
    pub closed spec fn target(&self) -> &'a mut S {
        self.ser
    }

    /// Provide access to the serializer that receives the items.
    pub fn serializer(&mut self) -> (r: &mut S)
        ensures
            *r == *old(self).target(),
            *final(self).target() == *final(r),
            final(self).remaining() == old(self).remaining(),
    {
        &mut *self.ser
    }

    /// Finish a struct, which must have received all the announced fields.
    pub fn end<E>(self) -> (r: Result<(), E>)
        ensures
            self.remaining() == 0 ==> r is Ok,
            self.remaining() != 0 ==> r == Err::<(), Error<E>>(Error::MapLength),
    {
        if self.len == 0 {
            Ok(())
        } else {
            Err(Error::MapLength)
        }
    }
}

impl<'a, W: SerWrite> SerializeStructStrMap<'a, StructMapStrSerializer<W>> {
    /// Count a field and write its name as the key of its entry; fails once
    /// all the announced fields were given.
    pub fn field(&mut self, key: &str) -> (r: Result<(), W::Error>)
        ensures
            old(self).remaining() == 0 ==> r == Err::<(), Error<W::Error>>(Error::MapLength) && *final(self) == *old(self),
            old(self).remaining() > 0 ==> final(self).remaining() == old(self).remaining() - 1
                && header_written((*old(self).target()).inner(), (*final(self).target()).inner(),
                    key.spec_bytes().len(), enc_str_len(key.spec_bytes().len()) + key.spec_bytes(), Error::StrLength, r),
    {
        self.len = match self.len.checked_sub(1) {
            Some(len) => len,
            None => return Err(Error::MapLength),
        };
        write_str(&mut self.ser.output, key)
    }
}

} // verus!
