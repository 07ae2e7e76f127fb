//! Compact JSON serializer.
//!
//! The methods of [`Serializer`] write JSON values to a [`SerWrite`] sink; each
//! states in its contract the exact bytes it appends on success.
use core::marker::PhantomData;
use vstd::prelude::*;
use vstd::string::StringSliceAdditionalSpecFns;

use crate::SerWrite;
use super::base64;

verus! {

/// Serialization error
#[derive(Debug, Clone, PartialEq, Eq, Hash)]
#[non_exhaustive]
pub enum Error<E> {
    /// Underlying writer error
    Writer(E),
    /// Invalid type for a JSON object key
    InvalidKeyType,
    /// Error encoding UTF-8 string with pass-through bytes encoder
    Utf8Encode,
    /// Error formatting a collected string
    FormatError,
    /// An error passed down from a serialized type
    SerializeError(String),
}

/// Serialization result
pub type Result<T, E> = core::result::Result<T, Error<E>>;

impl<E> Error<E> {
    /// The human readable description of an error that does not come from the writer.
    pub fn description(&self) -> (r: Option<&'static str>)
        ensures
            r is None <==> (self is Writer || self is SerializeError),
            self is InvalidKeyType ==> (r matches Some(s) && s@ == "invalid JSON object key data type"@),
            self is Utf8Encode ==> (r matches Some(s) && s@ == "error encoding JSON as UTF-8 string"@),
            self is FormatError ==> (r matches Some(s) && s@ == "error while collecting a string"@),
    {
        match self {
            Error::Writer(_) => None,
            Error::InvalidKeyType => Some("invalid JSON object key data type"),
            Error::Utf8Encode => Some("error encoding JSON as UTF-8 string"),
            Error::FormatError => Some("error while collecting a string"),
            Error::SerializeError(_) => None,
        }
    }
}

/// Whether `r` failed with an error of the writer.
pub open spec fn writer_failed<T, E>(r: Result<T, E>) -> bool {
    r matches Err(e) && e is Writer
}

/// The bytes written to `w` after an operation that appends `bytes` on success
/// and fails only with an error of the writer.
pub open spec fn appended<W: SerWrite, T>(old_w: W, new_w: W, bytes: Seq<u8>, r: Result<T, W::Error>) -> bool {
    &&& r is Ok ==> new_w.written() == old_w.written() + bytes
    &&& r is Err ==> writer_failed(r)
}

/// The ASCII digit of `d`.
pub open spec fn digit(d: nat) -> u8 {
    (0x30 + d) as u8
}

/// The decimal digits of `v`.
pub open spec fn dec(v: nat) -> Seq<u8>
    decreases v,
{
    if v < 10 {
        seq![digit(v)]
    } else {
        dec(v / 10).push(digit(v % 10))
    }
}

/// The decimal representation of `v`, with a minus sign when negative.
pub open spec fn dec_signed(v: int) -> Seq<u8> {
    if v < 0 {
        seq![0x2du8] + dec((-v) as nat)
    } else {
        dec(v as nat)
    }
}

/// The upper-case hexadecimal digit of a value in `0..16`.
pub open spec fn hex_digit(n: nat) -> u8 {
    if n <= 9 {
        (0x30 + n) as u8
    } else {
        (0x41 + n - 10) as u8
    }
}

/// The two upper-case hexadecimal digits of a byte.
pub open spec fn hex_pair(b: u8) -> Seq<u8> {
    seq![hex_digit((b / 16) as nat), hex_digit((b % 16) as nat)]
}

/// The upper-case hexadecimal digits of bytes.
pub open spec fn hex_str(bytes: Seq<u8>) -> Seq<u8>
    decreases bytes.len(),
{
    if bytes.len() == 0 {
        Seq::empty()
    } else {
        hex_str(bytes.drop_last()) + hex_pair(bytes.last())
    }
}

/// The JSON escape letter of a control byte, or `u` for one written as `\u00XX`.
pub open spec fn escape_letter(b: u8) -> u8 {
    if b == 0x08 {
        0x62
    } else if b == 0x09 {
        0x74
    } else if b == 0x0a {
        0x6e
    } else if b == 0x0c {
        0x66
    } else if b == 0x0d {
        0x72
    } else {
        0x75
    }
}

/// Whether a byte is escaped inside a JSON string: control bytes, `"` and `\`.
pub open spec fn needs_escape(b: u8) -> bool {
    b < 0x20 || b == 0x22 || b == 0x5c
}

/// A byte as it stands inside a JSON string.
pub open spec fn escape_byte(b: u8) -> Seq<u8> {
    if b < 0x20 {
        if escape_letter(b) == 0x75 {
            seq![0x5cu8, 0x75u8, 0x30u8, 0x30u8] + hex_pair(b)
        } else {
            seq![0x5cu8, escape_letter(b)]
        }
    } else if b == 0x22 || b == 0x5c {
        seq![0x5cu8, b]
    } else {
        seq![b]
    }
}

/// Bytes as they stand inside a JSON string.
pub open spec fn escape(s: Seq<u8>) -> Seq<u8>
    decreases s.len(),
{
    if s.len() == 0 {
        Seq::empty()
    } else {
        escape(s.drop_last()) + escape_byte(s.last())
    }
}

/// A JSON string holding the bytes of a string.
pub open spec fn json_str(s: Seq<u8>) -> Seq<u8> {
    seq![0x22u8] + escape(s) + seq![0x22u8]
}

/// The decimal numbers of bytes separated by commas.
pub open spec fn dec_list(bytes: Seq<u8>) -> Seq<u8>
    decreases bytes.len(),
{
    if bytes.len() == 0 {
        Seq::empty()
    } else if bytes.len() == 1 {
        dec(bytes[0] as nat)
    } else {
        dec_list(bytes.drop_last()) + seq![0x2cu8] + dec(bytes.last() as nat)
    }
}

/// Write one byte, passing an error of the writer on.
fn put_byte<W: SerWrite>(output: &mut W, byte: u8) -> (r: Result<(), W::Error>)
    ensures
        appended(*old(output), *final(output), seq![byte], r),
{
    match output.write_byte(byte) {
        Ok(()) => {
            assert(old(output).written().push(byte) =~= old(output).written() + seq![byte]);
            Ok(())
        },
        Err(e) => Err(Error::Writer(e)),
    }
}

/// Write bytes, passing an error of the writer on.
fn put<W: SerWrite>(output: &mut W, bytes: &[u8]) -> (r: Result<(), W::Error>)
    ensures
        appended(*old(output), *final(output), bytes@, r),
{
    match output.write(bytes) {
        Ok(()) => Ok(()),
        Err(e) => Err(Error::Writer(e)),
    }
}

/// The upper-case hexadecimal digit of a value in `0..16`.
fn hex_4bit(c: u8) -> (r: u8)
    requires
        c < 16,
    ensures
        r == hex_digit(c as nat),
{
    if c <= 9 {
        0x30 + c
    } else {
        0x41 + (c - 10)
    }
}

/// Upper-case hex for value in 0..256, encoded as ASCII bytes
fn hex(c: u8) -> (r: [u8; 2])
    ensures
        r@ == hex_pair(c),
{
    let r = [hex_4bit(c / 16), hex_4bit(c % 16)];
    assert(r@ =~= hex_pair(c));
    r
}

/// The decimal digits of `v`, preceded by a minus sign when `negative`, in
/// the bytes of the array from the returned position on.
fn decimal(v: u64, negative: bool) -> (r: ([u8; 21], usize))
    ensures
        r.1 <= 21,
        r.0@.subrange(r.1 as int, 21) == if negative { seq![0x2du8] + dec(v as nat) } else { dec(v as nat) },
{
    let mut buf = [0u8; 21];
    let mut i: usize = 21;
    let mut rest: u64 = v;
    proof { lemma_pow10_u64(); }
    loop
        invariant_except_break
            1 <= i <= 21,
            buf@.len() == 21,
            rest < pow10((i - 1) as nat),
            i == 21 || rest > 0,
            dec(v as nat) == dec(rest as nat) + buf@.subrange(i as int, 21),
        ensures
            1 <= i <= 21,
            buf@.len() == 21,
            dec(v as nat) == buf@.subrange(i as int, 21),
        decreases i,
    {
        let ghost old_buf = buf@;
        let ghost old_rest = rest;
        i = i - 1;
        buf[i] = (rest % 10) as u8 + 0x30;
        rest = rest / 10;
        proof {
            assert(buf@.subrange(i as int, 21) =~= seq![digit((old_rest % 10) as nat)] + old_buf.subrange(i + 1, 21));
            assert(pow10(0) == 1 && pow10(1) == 10) by {
                reveal_with_fuel(pow10, 2);
            }
            assert(old_rest < pow10(i as nat));
            if i > 0 {
                lemma_pow10_div(old_rest as nat, i as nat);
            }
            if i <= 1 {
                assert(old_rest < 10);
                assert(rest == 0);
            }
        }
        if rest == 0 {
            assert(dec(old_rest as nat) =~= seq![digit(old_rest as nat)]);
            break;
        }
        proof {
            assert(dec(old_rest as nat) == dec(rest as nat).push(digit((old_rest % 10) as nat)));
            assert(dec(rest as nat).push(digit((old_rest % 10) as nat)) + old_buf.subrange(i + 1, 21)
                =~= dec(rest as nat) + buf@.subrange(i as int, 21));
        }
    }
    if negative {
        i = i - 1;
        let ghost before = buf@;
        buf[i] = 0x2d;
        assert(buf@.subrange(i as int, 21) =~= seq![0x2du8] + before.subrange(i + 1, 21));
    }
    (buf, i)
}

/// 10 to the power of `n`.
pub open spec fn pow10(n: nat) -> nat
    decreases n,
{
    if n == 0 {
        1
    } else {
        10 * pow10((n - 1) as nat)
    }
}

/// Every `u64` has at most 20 decimal digits.
proof fn lemma_pow10_u64()
    ensures
        pow10(20) > u64::MAX,
{
    reveal_with_fuel(pow10, 21);
}

/// Dropping the last digit of a number below `10^n`.
proof fn lemma_pow10_div(v: nat, n: nat)
    requires
        v < pow10(n),
        n > 0,
    ensures
        v / 10 < pow10((n - 1) as nat),
{
}

/// Write the decimal representation of an unsigned integer.
fn write_unsigned<W: SerWrite>(output: &mut W, v: u64) -> (r: Result<(), W::Error>)
    ensures
        appended(*old(output), *final(output), dec(v as nat), r),
{
    let (buf, i) = decimal(v, false);
    put(output, vstd::slice::slice_subrange(buf.as_slice(), i, 21))
}

/// Write the decimal representation of a signed integer.
fn write_signed<W: SerWrite>(output: &mut W, v: i64) -> (r: Result<(), W::Error>)
    ensures
        appended(*old(output), *final(output), dec_signed(v as int), r),
{
    let (negative, magnitude): (bool, u64) = if v == i64::MIN {
        (true, i64::MAX as u64 + 1)
    } else if v < 0 {
        (true, (-v) as u64)
    } else {
        (false, v as u64)
    };
    let (buf, i) = decimal(magnitude, negative);
    put(output, vstd::slice::slice_subrange(buf.as_slice(), i, 21))
}

/// The escape letter of a byte that needs escaping: `u` for the control bytes
/// written as `\u00XX`.
fn escape_code(byte: u8) -> (r: u8)
    requires
        needs_escape(byte),
    ensures
        byte < 0x20 ==> r == escape_letter(byte),
        byte >= 0x20 ==> r == byte,
{
    if byte == 0x08 {
        0x62
    } else if byte == 0x09 {
        0x74
    } else if byte == 0x0a {
        0x6e
    } else if byte == 0x0c {
        0x66
    } else if byte == 0x0d {
        0x72
    } else if byte < 0x20 {
        0x75
    } else {
        byte
    }
}

/// Write the contents of a JSON string holding `value`: control bytes, `"`
/// and `\` escaped, every other byte as it is.
pub fn format_escaped_str_contents<W: SerWrite>(writer: &mut W, value: &str) -> (r: Result<(), W::Error>)
    ensures
        appended(*old(writer), *final(writer), escape(value.spec_bytes()), r),
        value.spec_bytes().len() == 0 ==> r is Ok && *final(writer) == *old(writer),
{
    let bytes = value.as_bytes();
    let len = bytes.len();
    let mut start: usize = 0;
    let mut i: usize = 0;
    while i < len
        invariant
            bytes@ == value.spec_bytes(),
            len == bytes@.len(),
            start <= i <= len,
            (*old(writer)).written() + escape(bytes@.take(i as int)) == writer.written()
                + bytes@.subrange(start as int, i as int),
            i == 0 ==> *writer == *old(writer),
        decreases len - i,
    {
        let byte = bytes[i];
        let ghost before = writer.written();
        proof {
            assert(bytes@.take(i + 1).drop_last() =~= bytes@.take(i as int));
        }
        if byte < 0x20 || byte == 0x22 || byte == 0x5c {
            if start < i {
                put(writer, vstd::slice::slice_subrange(bytes, start, i))?;
            }
            let ghost mid = writer.written();
            proof {
                if start >= i {
                    assert(bytes@.subrange(start as int, i as int) =~= Seq::<u8>::empty());
                    assert(before + Seq::<u8>::empty() =~= before);
                }
                assert(mid == before + bytes@.subrange(start as int, i as int));
            }
            let letter = escape_code(byte);
            if letter == 0x75 {
                put(writer, [0x5cu8, 0x75, 0x30, 0x30].as_slice())?;
                put(writer, hex(byte).as_slice())?;
                proof {
                    assert(escape_byte(byte) =~= seq![0x5cu8, 0x75u8, 0x30u8, 0x30u8] + hex_pair(byte));
                    assert(mid + seq![0x5cu8, 0x75u8, 0x30u8, 0x30u8] + hex_pair(byte) =~= mid + escape_byte(byte));
                }
            } else {
                put(writer, [0x5cu8, letter].as_slice())?;
                proof {
                    assert(escape_byte(byte) =~= seq![0x5cu8, letter]);
                }
            }
            start = i + 1;
            proof {
                assert(escape(bytes@.take(i + 1)) == escape(bytes@.take(i as int)) + escape_byte(byte));
                assert(writer.written() == mid + escape_byte(byte));
                assert(mid == (*old(writer)).written() + escape(bytes@.take(i as int)));
                assert(bytes@.subrange(start as int, i + 1) =~= Seq::<u8>::empty());
                assert(writer.written() + Seq::<u8>::empty() =~= writer.written());
                assert((*old(writer)).written() + (escape(bytes@.take(i as int)) + escape_byte(byte))
                    =~= (*old(writer)).written() + escape(bytes@.take(i as int)) + escape_byte(byte));
            }
        } else {
            proof {
                assert(escape_byte(byte) =~= seq![byte]);
                assert(escape(bytes@.take(i + 1)) == escape(bytes@.take(i as int)) + escape_byte(byte));
                assert(bytes@.subrange(start as int, i + 1) =~= bytes@.subrange(start as int, i as int) + seq![byte]);
                assert((*old(writer)).written() + (escape(bytes@.take(i as int)) + seq![byte])
                    =~= (*old(writer)).written() + escape(bytes@.take(i as int)) + seq![byte]);
                assert(writer.written() + (bytes@.subrange(start as int, i as int) + seq![byte])
                    =~= writer.written() + bytes@.subrange(start as int, i as int) + seq![byte]);
                assert((*old(writer)).written() + escape(bytes@.take(i + 1)) =~= writer.written()
                    + bytes@.subrange(start as int, i + 1));
            }
        }
        i += 1;
    }
    proof {
        assert(bytes@.take(len as int) =~= bytes@);
    }
    if start == len {
        assert(bytes@.subrange(start as int, len as int) =~= Seq::<u8>::empty());
        assert(writer.written() + Seq::<u8>::empty() =~= writer.written());
        return Ok(());
    }
    put(writer, vstd::slice::slice_subrange(bytes, start, len))
}

/// Serde JSON serializer.
///
/// `W` - should implement [`SerWrite`] and `B` - [`ByteEncoder`].
///
/// `ByteEncoder` determines how [`Serializer::serialize_bytes`] writes bytes.
pub struct Serializer<W, B> {
    output: W,
    format: PhantomData<B>,
}

/// JSON serializer serializing bytes to an array of numbers
pub type SerializerByteArray<W> = Serializer<W, ArrayByteEncoder>;
/// JSON serializer serializing bytes to a HEX-encoded string
pub type SerializerByteHexStr<W> = Serializer<W, HexStrByteEncoder>;
/// JSON serializer serializing bytes to a Base-64 string
pub type SerializerByteBase64<W> = Serializer<W, Base64ByteEncoder>;
/// JSON serializer passing bytes through
pub type SerializerBytePass<W> = Serializer<W, PassThroughByteEncoder>;

impl<W, B> Serializer<W, B> {
    /// The writer that receives the output.
    pub closed spec fn inner(&self) -> W {
        self.output
    }

    /// Create a new `Serializer` with the given `output` object that should
    /// implement [`SerWrite`].
    pub fn new(output: W) -> (r: Self)
        ensures
            r.inner() == output,
    {
        Serializer { output, format: PhantomData }
    }

    /// Destruct self returning the `output` object.
    pub fn into_inner(self) -> (r: W)
        ensures
            r == self.inner(),
    {
        self.output
    }

    /// Provide access to the inner writer for implementors of [`ByteEncoder`] and more.
    pub fn writer(&mut self) -> (r: &mut W)
        ensures
            *r == old(self).inner(),
            final(self).inner() == *final(r),
    {
        &mut self.output
    }
}

impl<W: SerWrite, B> Serializer<W, B> {
    /// Serialize given slice of bytes as ASCII HEX nibbles
    pub fn serialize_bytes_as_hex_str(&mut self, v: &[u8]) -> (r: Result<(), W::Error>)
        ensures
            appended(old(self).inner(), final(self).inner(), hex_str(v@), r),
            v@.len() == 0 ==> r is Ok && final(self).inner() == old(self).inner(),
    {
        let writer = self.writer();
        let mut i: usize = 0;
        while i < v.len()
            invariant
                i <= v@.len(),
                writer.written() == old(self).inner().written() + hex_str(v@.take(i as int)),
                i == 0 ==> *writer == old(self).inner(),
            decreases v@.len() - i,
        {
            let pair = hex(v[i]);
            put(writer, pair.as_slice())?;
            proof {
                assert(v@.take(i + 1).drop_last() =~= v@.take(i as int));
            }
            i += 1;
        }
        assert(v@.take(i as int) =~= v@);
        Ok(())
    }

    /// Write a boolean: `true` or `false`.
    pub fn serialize_bool(&mut self, v: bool) -> (r: Result<(), W::Error>)
        ensures
            appended(old(self).inner(), final(self).inner(), if v { seq![0x74u8, 0x72, 0x75, 0x65] } else { seq![0x66u8, 0x61, 0x6c, 0x73, 0x65] }, r),
    {
        if v {
            let r = put(&mut self.output, [0x74u8, 0x72, 0x75, 0x65].as_slice());
            assert([0x74u8, 0x72, 0x75, 0x65]@ =~= seq![0x74u8, 0x72, 0x75, 0x65]);
            r
        } else {
            let r = put(&mut self.output, [0x66u8, 0x61, 0x6c, 0x73, 0x65].as_slice());
            assert([0x66u8, 0x61, 0x6c, 0x73, 0x65]@ =~= seq![0x66u8, 0x61, 0x6c, 0x73, 0x65]);
            r
        }
    }

    /// Write `null`, which stands for `None`, the unit value and non-finite floats.
    pub fn serialize_none(&mut self) -> (r: Result<(), W::Error>)
        ensures
            appended(old(self).inner(), final(self).inner(), seq![0x6eu8, 0x75, 0x6c, 0x6c], r),
    {
        let r = put(&mut self.output, [0x6eu8, 0x75, 0x6c, 0x6c].as_slice());
        assert([0x6eu8, 0x75, 0x6c, 0x6c]@ =~= seq![0x6eu8, 0x75, 0x6c, 0x6c]);
        r
    }

    /// Write a signed integer in decimal.
    pub fn serialize_i64(&mut self, v: i64) -> (r: Result<(), W::Error>)
        ensures
            appended(old(self).inner(), final(self).inner(), dec_signed(v as int), r),
    {
        write_signed(&mut self.output, v)
    }

    /// Write an unsigned integer in decimal.
    pub fn serialize_u64(&mut self, v: u64) -> (r: Result<(), W::Error>)
        ensures
            appended(old(self).inner(), final(self).inner(), dec(v as nat), r),
    {
        write_unsigned(&mut self.output, v)
    }

    /// Write a JSON string.
    pub fn serialize_str(&mut self, v: &str) -> (r: Result<(), W::Error>)
        ensures
            appended(old(self).inner(), final(self).inner(), json_str(v.spec_bytes()), r),
    {
        put_byte(&mut self.output, 0x22)?;
        format_escaped_str_contents(&mut self.output, v)?;
        let r = put_byte(&mut self.output, 0x22);
        proof {
            assert(old(self).inner().written() + seq![0x22u8] + escape(v.spec_bytes()) + seq![0x22u8]
                =~= old(self).inner().written() + json_str(v.spec_bytes()));
        }
        r
    }

    /// Write bytes as the byte encoder `B` does.
    pub fn serialize_bytes(&mut self, v: &[u8]) -> (r: Result<(), W::Error>)
        where B: ByteEncoder,
        ensures
            appended(old(self).inner(), final(self).inner(), B::encoded(v@), r),
    {
        B::serialize_bytes(self, v)
    }

    /// Write the head of an externally tagged newtype variant: `{"variant":`.
    pub fn begin_newtype_variant(&mut self, variant: &str) -> (r: Result<(), W::Error>)
        ensures
            appended(old(self).inner(), final(self).inner(), seq![0x7bu8] + json_str(variant.spec_bytes()) + seq![0x3au8], r),
    {
        put_byte(&mut self.output, 0x7b)?;
        self.serialize_str(variant)?;
        let r = put_byte(&mut self.output, 0x3a);
        proof {
            assert(old(self).inner().written() + seq![0x7bu8] + json_str(variant.spec_bytes()) + seq![0x3au8]
                =~= old(self).inner().written() + (seq![0x7bu8] + json_str(variant.spec_bytes()) + seq![0x3au8]));
        }
        r
    }

    /// Write the end of an externally tagged newtype variant: `}`.
    pub fn end_newtype_variant(&mut self) -> (r: Result<(), W::Error>)
        ensures
            appended(old(self).inner(), final(self).inner(), seq![0x7du8], r),
    {
        put_byte(&mut self.output, 0x7d)
    }

    /// Start a sequence: `[`.
    pub fn serialize_seq(&mut self) -> (r: Result<SeqMapSerializer<'_, W, B>, W::Error>)
        ensures
            r is Err ==> writer_failed(r),
            r matches Ok(s) ==> (s.is_first()
                && (*s.target()).inner().written() == old(self).inner().written() + seq![0x5bu8]
                && *final(self) == *final(s.target())),
    {
        match put_byte(&mut self.output, 0x5b) {
            Ok(()) => Ok(SeqMapSerializer { ser: self, first: true }),
            Err(e) => Err(e),
        }
    }

    /// Start a map or a struct: `{`.
    pub fn serialize_map(&mut self) -> (r: Result<SeqMapSerializer<'_, W, B>, W::Error>)
        ensures
            r is Err ==> writer_failed(r),
            r matches Ok(s) ==> (s.is_first()
                && (*s.target()).inner().written() == old(self).inner().written() + seq![0x7bu8]
                && *final(self) == *final(s.target())),
    {
        match put_byte(&mut self.output, 0x7b) {
            Ok(()) => Ok(SeqMapSerializer { ser: self, first: true }),
            Err(e) => Err(e),
        }
    }

    /// Start an externally tagged tuple variant: `{"variant":[`.
    pub fn serialize_tuple_variant(&mut self, variant: &str) -> (r: Result<SeqMapSerializer<'_, W, B>, W::Error>)
        ensures
            r is Err ==> writer_failed(r),
            r matches Ok(s) ==> (s.is_first()
                && (*s.target()).inner().written() == old(self).inner().written() + seq![0x7bu8]
                    + json_str(variant.spec_bytes()) + seq![0x3au8, 0x5bu8]
                && *final(self) == *final(s.target())),
    {
        match self.begin_variant(variant, 0x5b) {
            Ok(()) => Ok(SeqMapSerializer { ser: self, first: true }),
            Err(e) => Err(e),
        }
    }

    /// Start an externally tagged struct variant: `{"variant":{`.
    pub fn serialize_struct_variant(&mut self, variant: &str) -> (r: Result<SeqMapSerializer<'_, W, B>, W::Error>)
        ensures
            r is Err ==> writer_failed(r),
            r matches Ok(s) ==> (s.is_first()
                && (*s.target()).inner().written() == old(self).inner().written() + seq![0x7bu8]
                    + json_str(variant.spec_bytes()) + seq![0x3au8, 0x7bu8]
                && *final(self) == *final(s.target())),
    {
        match self.begin_variant(variant, 0x7b) {
            Ok(()) => Ok(SeqMapSerializer { ser: self, first: true }),
            Err(e) => Err(e),
        }
    }

    /// Write `{"variant":` and then `open`.
    fn begin_variant(&mut self, variant: &str, open: u8) -> (r: Result<(), W::Error>)
        ensures
            appended(old(self).inner(), final(self).inner(), seq![0x7bu8] + json_str(variant.spec_bytes()) + seq![0x3au8, open], r),
    {
        put_byte(&mut self.output, 0x7b)?;
        self.serialize_str(variant)?;
        let r = put(&mut self.output, [0x3au8, open].as_slice());
        proof {
            assert([0x3au8, open]@ =~= seq![0x3au8, open]);
            assert(old(self).inner().written() + seq![0x7bu8] + json_str(variant.spec_bytes()) + seq![0x3au8, open]
                =~= old(self).inner().written() + (seq![0x7bu8] + json_str(variant.spec_bytes()) + seq![0x3au8, open]));
        }
        r
    }
}

/// Serializer of the items of a JSON array or object: writes the separators
/// and the closing brackets.
pub struct SeqMapSerializer<'a, W, B> {
    ser: &'a mut Serializer<W, B>,
    first: bool,
}

impl<'a, W, B> SeqMapSerializer<'a, W, B> {
    /// Whether no item has been started yet.
    pub closed spec fn is_first(&self) -> bool {
        self.first
    }

    /// The reference to the serializer that receives the items.
    pub closed spec fn target(&self) -> &'a mut Serializer<W, B> {
        self.ser
    }

    /// Provide access to the serializer that receives the items.
    pub fn serializer(&mut self) -> (r: &mut Serializer<W, B>)
        ensures
            *r == *old(self).target(),
            *final(self).target() == *final(r),
            final(self).is_first() == old(self).is_first(),
    {
        &mut *self.ser
    }
}

impl<'a, W: SerWrite, B> SeqMapSerializer<'a, W, B> {
    /// Start an item: nothing before the first one, a comma before the others.
    pub fn element(&mut self) -> (r: Result<(), W::Error>)
        ensures
            !final(self).is_first(),
            appended((*old(self).target()).inner(), (*final(self).target()).inner(),
                if old(self).is_first() { Seq::empty() } else { seq![0x2cu8] }, r),
    {
        if self.first {
            self.first = false;
            assert(self.ser.output.written() + Seq::<u8>::empty() =~= self.ser.output.written());
            Ok(())
        } else {
            put_byte(&mut self.ser.output, 0x2c)
        }
    }

    /// Start a struct field: the separator, the name and a colon.
    pub fn field(&mut self, key: &str) -> (r: Result<(), W::Error>)
        ensures
            !final(self).is_first(),
            appended((*old(self).target()).inner(), (*final(self).target()).inner(),
                (if old(self).is_first() { Seq::empty() } else { seq![0x2cu8] }) + json_str(key.spec_bytes()) + seq![0x3au8], r),
    {
        self.element()?;
        self.ser.serialize_str(key)?;
        let r = put_byte(&mut self.ser.output, 0x3a);
        proof {
            let sep: Seq<u8> = if old(self).is_first() { Seq::empty() } else { seq![0x2cu8] };
            assert((*old(self).target()).inner().written() + sep + json_str(key.spec_bytes()) + seq![0x3au8]
                =~= (*old(self).target()).inner().written() + (sep + json_str(key.spec_bytes()) + seq![0x3au8]));
        }
        r
    }

    /// Separate a map value from its key: a colon.
    pub fn value(&mut self) -> (r: Result<(), W::Error>)
        ensures
            final(self).is_first() == old(self).is_first(),
            appended((*old(self).target()).inner(), (*final(self).target()).inner(), seq![0x3au8], r),
    {
        put_byte(&mut self.ser.output, 0x3a)
    }

    /// End an array: `]`.
    pub fn end_seq(self) -> (r: Result<(), W::Error>)
        ensures
            appended((*self.target()).inner(), (*final(self.target())).inner(), seq![0x5du8], r),
    {
        put_byte(&mut self.ser.output, 0x5d)
    }

    /// End an object: `}`.
    pub fn end_map(self) -> (r: Result<(), W::Error>)
        ensures
            appended((*self.target()).inner(), (*final(self.target())).inner(), seq![0x7du8], r),
    {
        put_byte(&mut self.ser.output, 0x7d)
    }

    /// End an externally tagged tuple variant: `]}`.
    pub fn end_tuple_variant(self) -> (r: Result<(), W::Error>)
        ensures
            appended((*self.target()).inner(), (*final(self.target())).inner(), seq![0x5du8, 0x7du8], r),
    {
        let r = put(&mut self.ser.output, [0x5du8, 0x7d].as_slice());
        assert([0x5du8, 0x7d]@ =~= seq![0x5du8, 0x7du8]);
        r
    }

    /// End an externally tagged struct variant: `}}`.
    pub fn end_struct_variant(self) -> (r: Result<(), W::Error>)
        ensures
            appended((*self.target()).inner(), (*final(self.target())).inner(), seq![0x7du8, 0x7du8], r),
    {
        let r = put(&mut self.ser.output, [0x7du8, 0x7d].as_slice());
        assert([0x7du8, 0x7d]@ =~= seq![0x7du8, 0x7du8]);
        r
    }
}

/// Determine how raw byte data types are serialized
pub trait ByteEncoder: Sized {
    /// What is written for `bytes`.
    spec fn encoded(bytes: Seq<u8>) -> Seq<u8>;

    /// Write `v` as this encoder does.
    fn serialize_bytes<W: SerWrite>(ser: &mut Serializer<W, Self>, v: &[u8]) -> (r: Result<(), W::Error>)
        ensures
            appended((*old(ser)).inner(), (*final(ser)).inner(), Self::encoded(v@), r),
    ;
}

/// Implements [`ByteEncoder::serialize_bytes`] serializing to an array of numbers
pub struct ArrayByteEncoder;
/// Implements [`ByteEncoder::serialize_bytes`] serializing to a HEX string
pub struct HexStrByteEncoder;
/// Implements [`ByteEncoder::serialize_bytes`] serializing to a Base-64 string
pub struct Base64ByteEncoder;
/// Implements [`ByteEncoder::serialize_bytes`] passing bytes through
pub struct PassThroughByteEncoder;

impl ByteEncoder for ArrayByteEncoder {
    open spec fn encoded(bytes: Seq<u8>) -> Seq<u8> {
        seq![0x5bu8] + dec_list(bytes) + seq![0x5du8]
    }

    fn serialize_bytes<W: SerWrite>(ser: &mut Serializer<W, Self>, v: &[u8]) -> (r: Result<(), W::Error>) {
        let ghost start = ser.output.written();
        put_byte(&mut ser.output, 0x5b)?;
        let mut i: usize = 0;
        while i < v.len()
            invariant
                i <= v@.len(),
                start == (*old(ser)).inner().written(),
                ser.output.written() == start + seq![0x5bu8] + dec_list(v@.take(i as int)),
            decreases v@.len() - i,
        {
            let ghost before = ser.output.written();
            if i > 0 {
                put_byte(&mut ser.output, 0x2c)?;
            }
            write_unsigned(&mut ser.output, v[i] as u64)?;
            proof {
                let t = v@.take(i + 1);
                assert(t.drop_last() =~= v@.take(i as int));
                if i == 0 {
                    assert(v@.take(0) =~= Seq::<u8>::empty());
                    assert(dec_list(v@.take(0)) =~= Seq::<u8>::empty());
                    assert(before + Seq::<u8>::empty() =~= before);
                    assert(dec_list(t) == dec(v@[0] as nat));
                } else {
                    assert(before + seq![0x2cu8] + dec(v@[i as int] as nat) =~= start + seq![0x5bu8]
                        + (dec_list(v@.take(i as int)) + seq![0x2cu8] + dec(v@[i as int] as nat)));
                }
            }
            i += 1;
        }
        let r = put_byte(&mut ser.output, 0x5d);
        proof {
            assert(v@.take(i as int) =~= v@);
            assert(start + seq![0x5bu8] + dec_list(v@) + seq![0x5du8] =~= start + Self::encoded(v@));
        }
        r
    }
}

impl ByteEncoder for HexStrByteEncoder {
    open spec fn encoded(bytes: Seq<u8>) -> Seq<u8> {
        seq![0x22u8] + hex_str(bytes) + seq![0x22u8]
    }

    fn serialize_bytes<W: SerWrite>(ser: &mut Serializer<W, Self>, v: &[u8]) -> (r: Result<(), W::Error>) {
        put_byte(ser.writer(), 0x22)?;
        ser.serialize_bytes_as_hex_str(v)?;
        let r = put_byte(ser.writer(), 0x22);
        proof {
            assert((*old(ser)).inner().written() + seq![0x22u8] + hex_str(v@) + seq![0x22u8]
                =~= (*old(ser)).inner().written() + Self::encoded(v@));
        }
        r
    }
}

impl ByteEncoder for Base64ByteEncoder {
    open spec fn encoded(bytes: Seq<u8>) -> Seq<u8> {
        seq![0x22u8] + base64::spec_encode(bytes) + seq![0x22u8]
    }

    fn serialize_bytes<W: SerWrite>(ser: &mut Serializer<W, Self>, v: &[u8]) -> (r: Result<(), W::Error>) {
        put_byte(ser.writer(), 0x22)?;
        match base64::encode(ser.writer(), v) {
            Ok(()) => {},
            Err(e) => return Err(Error::Writer(e)),
        }
        let r = put_byte(ser.writer(), 0x22);
        proof {
            assert((*old(ser)).inner().written() + seq![0x22u8] + base64::spec_encode(v@) + seq![0x22u8]
                =~= (*old(ser)).inner().written() + Self::encoded(v@));
        }
        r
    }
}

impl ByteEncoder for PassThroughByteEncoder {
    open spec fn encoded(bytes: Seq<u8>) -> Seq<u8> {
        bytes
    }

    fn serialize_bytes<W: SerWrite>(ser: &mut Serializer<W, Self>, v: &[u8]) -> (r: Result<(), W::Error>) {
        put(ser.writer(), v)
    }
}

/// Object key serializer: JSON object keys are strings, so booleans and
/// integers are written in quotes.
pub struct KeySer<'a, W, B> {
    ser: &'a mut Serializer<W, B>,
}

impl<'a, W, B> KeySer<'a, W, B> {
    /// The reference to the serializer that receives the key.
    pub closed spec fn target(&self) -> &'a mut Serializer<W, B> {
        self.ser
    }

    /// Create a key serializer writing to `ser`.
    pub fn new(ser: &'a mut Serializer<W, B>) -> (r: Self)
        ensures
            *r.target() == *old(ser),
            *final(ser) == *final(r.target()),
    {
        KeySer { ser }
    }
}

/// The bytes `bytes` in quotes.
pub open spec fn quoted(bytes: Seq<u8>) -> Seq<u8> {
    seq![0x22u8] + bytes + seq![0x22u8]
}

impl<'a, W: SerWrite, B> KeySer<'a, W, B> {
    /// Write a boolean key in quotes.
    pub fn serialize_bool(self, v: bool) -> (r: Result<(), W::Error>)
        ensures
            appended((*self.target()).inner(), (*final(self.target())).inner(),
                quoted(if v { seq![0x74u8, 0x72, 0x75, 0x65] } else { seq![0x66u8, 0x61, 0x6c, 0x73, 0x65] }), r),
    {
        let ghost start = self.ser.output.written();
        put_byte(&mut self.ser.output, 0x22)?;
        self.ser.serialize_bool(v)?;
        let r = put_byte(&mut self.ser.output, 0x22);
        proof {
            let b: Seq<u8> = if v { seq![0x74u8, 0x72, 0x75, 0x65] } else { seq![0x66u8, 0x61, 0x6c, 0x73, 0x65] };
            assert(start + seq![0x22u8] + b + seq![0x22u8] =~= start + quoted(b));
        }
        r
    }

    /// Write a signed integer key in quotes.
    pub fn serialize_i64(self, v: i64) -> (r: Result<(), W::Error>)
        ensures
            appended((*self.target()).inner(), (*final(self.target())).inner(), quoted(dec_signed(v as int)), r),
    {
        let ghost start = self.ser.output.written();
        put_byte(&mut self.ser.output, 0x22)?;
        self.ser.serialize_i64(v)?;
        let r = put_byte(&mut self.ser.output, 0x22);
        proof {
            assert(start + seq![0x22u8] + dec_signed(v as int) + seq![0x22u8] =~= start + quoted(dec_signed(v as int)));
        }
        r
    }

    /// Write an unsigned integer key in quotes.
    pub fn serialize_u64(self, v: u64) -> (r: Result<(), W::Error>)
        ensures
            appended((*self.target()).inner(), (*final(self.target())).inner(), quoted(dec(v as nat)), r),
    {
        let ghost start = self.ser.output.written();
        put_byte(&mut self.ser.output, 0x22)?;
        self.ser.serialize_u64(v)?;
        let r = put_byte(&mut self.ser.output, 0x22);
        proof {
            assert(start + seq![0x22u8] + dec(v as nat) + seq![0x22u8] =~= start + quoted(dec(v as nat)));
        }
        r
    }

    /// Write a string key.
    pub fn serialize_str(self, v: &str) -> (r: Result<(), W::Error>)
        ensures
            appended((*self.target()).inner(), (*final(self.target())).inner(), json_str(v.spec_bytes()), r),
    {
        self.ser.serialize_str(v)
    }
}

/// Strings written to this object using [`core::fmt::Write`] are written
/// to the underlying writer with characters escaped using JSON syntax for
/// strings.
pub struct StringCollector<'a, W> {
    output: &'a mut W,
}

impl<'a, W> StringCollector<'a, W> {
    /// The reference to the writer that receives the strings.
    pub closed spec fn target(&self) -> &'a mut W {
        self.output
    }

    /// Create a new `StringCollector` with the given `output` object that
    /// should implement [`SerWrite`].
    pub fn new(output: &'a mut W) -> (r: Self)
        ensures
            *r.target() == *old(output),
            *final(output) == *final(r.target()),
    {
        Self { output }
    }
}

impl<'a, W: SerWrite> StringCollector<'a, W> {
    /// Write the escaped contents of a string.
    pub fn collect(&mut self, s: &str) -> (r: Result<(), W::Error>)
        ensures
            appended(*old(self).target(), *final(self).target(), escape(s.spec_bytes()), r),
    {
        format_escaped_str_contents(self.output, s)
    }
}

impl<'a, W: SerWrite> core::fmt::Write for StringCollector<'a, W> {
    fn write_str(&mut self, s: &str) -> (r: core::fmt::Result)
        ensures
            r is Ok ==> (*final(self).target()).written() == (*old(self).target()).written()
                + escape(s.spec_bytes()),
            *final(final(self).target()) == *final(old(self).target()),
    {
        match format_escaped_str_contents(self.output, s) {
            Ok(()) => Ok(()),
            Err(_) => Err(crate::fmt_error()),
        }
    }
}

} // verus!
