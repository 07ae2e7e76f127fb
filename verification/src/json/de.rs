//! JSON deserializer working in place on a mutable slice.
//!
//! The [`Deserializer`] reads JSON text from a mutable slice of bytes. Strings
//! are unescaped and bytes decoded in place, and returned as references into
//! the slice.
use core::marker::PhantomData;
use vstd::prelude::*;
use vstd::string::StringSliceAdditionalSpecFns;
use vstd::utf8::{encode_scalar, is_scalar};

use super::base64;
use crate::text::str_from_utf8;

verus! {

/// JSON deserializer with bytes deserialized from JSON strings (with unescaping)
/// without any additional decoding
pub type DeserializerNopeByteStr<'de> = Deserializer<'de, StringByteNopeDecoder>;
/// JSON deserializer with bytes deserialized from HEX-encoded strings
pub type DeserializerHexByteStr<'de> = Deserializer<'de, StringByteHexDecoder>;
/// JSON deserializer with bytes deserialized from BASE-64 encoded strings
pub type DeserializerBase64ByteStr<'de> = Deserializer<'de, StringByteBase64Decoder>;

/// JSON deserializer.
///
/// `P` must implement [`StringByteDecoder`].
///
/// * deserializes data from a mutable slice,
/// * unescapes strings in-place,
/// * decodes strings or number arrays into bytes in-place,
/// * deserializes borrowed references to `&str` and `&[u8]` types,
/// * deserializes bytes from arrays of numbers,
/// * deserializes bytes from strings using `P` as a string decoder,
/// * deserializes structs from JSON objects or arrays.
pub struct Deserializer<'de, P> {
    /// The unparsed input, from the cursor on.
    pub input: &'de mut [u8],
    /// The cursor into the input.
    pub index: usize,
    _parser: PhantomData<P>,
}

/// Deserialization result
pub type Result<T> = core::result::Result<T, Error>;

/// Deserialization error
#[derive(Debug, PartialEq, Eq, Clone)]
#[non_exhaustive]
pub enum Error {
    /// EOF while parsing
    UnexpectedEof,
    /// Invalid JSON string escape sequence
    InvalidEscapeSequence,
    /// A control ASCII character detected in a JSON input
    StringControlChar,
    /// Expected this character to be a `':'`.
    ExpectedColon,
    /// Expected this character to be either a `','` or a `']'`.
    ExpectedArrayCommaOrEnd,
    /// Array content starts with a leading `','`.
    LeadingArrayComma,
    /// Array content ends with a trailing `','`.
    TrailingArrayComma,
    /// Expected this character to be either a `','` or a `'}'`.
    ExpectedObjectCommaOrEnd,
    /// Object content starts with a leading `,`.
    LeadingObjectComma,
    /// Object content ends with a trailing `,`.
    TrailingObjectComma,
    /// Expected to parse either `true`, `false`, or `null`.
    ExpectedToken,
    /// Expected `null`
    ExpectedNull,
    /// Expected a `"` character
    ExpectedString,
    /// Expected a `']'` character
    ExpectedArrayEnd,
    /// Expected an array
    ExpectedArray,
    /// Expected an object
    ExpectedObject,
    /// Expected an object or an array
    ExpectedStruct,
    /// Expected this character to start an enum variant.
    ExpectedEnumValue,
    /// Expected this character to be `'}'`.
    ExpectedEnumObjectEnd,
    /// Invalid number
    InvalidNumber,
    /// Invalid type
    InvalidType,
    /// Invalid unicode code point
    InvalidUnicodeCodePoint,
    /// Object key is not a string
    KeyMustBeAString,
    /// JSON has non-whitespace trailing characters after the value
    TrailingCharacters,
    /// Unexpected character
    UnexpectedChar,
    /// Invalid length
    InvalidLength,
    /// An error passed down from a deserialized type
    DeserializeError(String),
}

impl Error {
    /// The human readable description of an error that is not passed down
    /// from a deserialized type.
    pub fn description(&self) -> (r: Option<&'static str>)
        ensures
            r is None <==> self is DeserializeError,
            self is UnexpectedEof ==> (r matches Some(s) && s@ == "Unexpected end of JSON input"@),
            self is InvalidEscapeSequence ==> (r matches Some(s) && s@ == "Invalid JSON string escape sequence"@),
            self is StringControlChar ==> (r matches Some(s) && s@ == "A control ASCII character found in a JSON string"@),
            self is ExpectedArrayCommaOrEnd ==> (r matches Some(s) && s@ == "Expected `','` or `']'`"@),
            self is LeadingArrayComma ==> (r matches Some(s) && s@ == "JSON array content starts with a leading `','`"@),
            self is TrailingArrayComma ==> (r matches Some(s) && s@ == "JSON array content ends with a trailing `','`"@),
            self is ExpectedObjectCommaOrEnd ==> (r matches Some(s) && s@ == "Expected `','` or `'}'`"@),
            self is LeadingObjectComma ==> (r matches Some(s) && s@ == "JSON object content starts with a leading `','`"@),
            self is TrailingObjectComma ==> (r matches Some(s) && s@ == "JSON object content ends with a trailing `','`"@),
            self is ExpectedColon ==> (r matches Some(s) && s@ == "Expected `':'`"@),
            self is ExpectedToken ==> (r matches Some(s) && s@ == "Expected either `true`, `false`, or `null`."@),
            self is ExpectedNull ==> (r matches Some(s) && s@ == "Expected `null`"@),
            self is ExpectedString ==> (r matches Some(s) && s@ == "Expected `'\"'`"@),
            self is ExpectedArrayEnd ==> (r matches Some(s) && s@ == "Expected ']'"@),
            self is ExpectedArray ==> (r matches Some(s) && s@ == "Expeced a JSON array"@),
            self is ExpectedObject ==> (r matches Some(s) && s@ == "Expected a JSON object"@),
            self is ExpectedStruct ==> (r matches Some(s) && s@ == "Expected a JSON object or an array"@),
            self is ExpectedEnumValue ==> (r matches Some(s) && s@ == "Expected this character to be `'\"'` or `'{'`"@),
            self is ExpectedEnumObjectEnd ==> (r matches Some(s) && s@ == "Expected this character to be `'}'`"@),
            self is InvalidNumber ==> (r matches Some(s) && s@ == "Invalid number"@),
            self is InvalidType ==> (r matches Some(s) && s@ == "Invalid type"@),
            self is InvalidUnicodeCodePoint ==> (r matches Some(s) && s@ == "Invalid unicode code point"@),
            self is KeyMustBeAString ==> (r matches Some(s) && s@ == "Object key is not a string"@),
            self is TrailingCharacters ==> (r matches Some(s) && s@ == "JSON has non-whitespace trailing character after the value"@),
            self is UnexpectedChar ==> (r matches Some(s) && s@ == "Unexpected token while parsing a JSON value"@),
            self is InvalidLength ==> (r matches Some(s) && s@ == "Invalid length"@),
    {
        match self {
            Error::UnexpectedEof => Some("Unexpected end of JSON input"),
            Error::InvalidEscapeSequence => Some("Invalid JSON string escape sequence"),
            Error::StringControlChar => Some("A control ASCII character found in a JSON string"),
            Error::ExpectedArrayCommaOrEnd => Some("Expected `','` or `']'`"),
            Error::LeadingArrayComma => Some("JSON array content starts with a leading `','`"),
            Error::TrailingArrayComma => Some("JSON array content ends with a trailing `','`"),
            Error::ExpectedObjectCommaOrEnd => Some("Expected `','` or `'}'`"),
            Error::LeadingObjectComma => Some("JSON object content starts with a leading `','`"),
            Error::TrailingObjectComma => Some("JSON object content ends with a trailing `','`"),
            Error::ExpectedColon => Some("Expected `':'`"),
            Error::ExpectedToken => Some("Expected either `true`, `false`, or `null`."),
            Error::ExpectedNull => Some("Expected `null`"),
            Error::ExpectedString => Some("Expected `'\"'`"),
            Error::ExpectedArrayEnd => Some("Expected ']'"),
            Error::ExpectedArray => Some("Expeced a JSON array"),
            Error::ExpectedObject => Some("Expected a JSON object"),
            Error::ExpectedStruct => Some("Expected a JSON object or an array"),
            Error::ExpectedEnumValue => Some("Expected this character to be `'\"'` or `'{'`"),
            Error::ExpectedEnumObjectEnd => Some("Expected this character to be `'}'`"),
            Error::InvalidNumber => Some("Invalid number"),
            Error::InvalidType => Some("Invalid type"),
            Error::InvalidUnicodeCodePoint => Some("Invalid unicode code point"),
            Error::KeyMustBeAString => Some("Object key is not a string"),
            Error::TrailingCharacters => Some("JSON has non-whitespace trailing character after the value"),
            Error::UnexpectedChar => Some("Unexpected token while parsing a JSON value"),
            Error::InvalidLength => Some("Invalid length"),
            Error::DeserializeError(_) => None,
        }
    }
}

/// Convert strings to byte arrays by unescaping original JSON strings
/// without any additional decoding
pub struct StringByteNopeDecoder;
/// Convert strings to byte arrays by decoding HEX-encoded strings
pub struct StringByteHexDecoder;
/// Convert strings to byte arrays by decoding BASE-64 encoded strings
pub struct StringByteBase64Decoder;

/// Whether a byte is JSON whitespace.
pub open spec fn is_ws(b: u8) -> bool {
    b == 0x20 || b == 0x09 || b == 0x0a || b == 0x0d
}

/// The predicate of JSON whitespace.
pub open spec fn ws_pred() -> spec_fn(u8) -> bool {
    |b: u8| is_ws(b)
}

/// The predicate of ASCII decimal digits.
pub open spec fn digit_pred() -> spec_fn(u8) -> bool {
    |b: u8| is_digit(b)
}

/// The length of the run of bytes at the start of `t` that satisfy `p`.
pub open spec fn run_len(t: Seq<u8>, p: spec_fn(u8) -> bool) -> nat
    decreases t.len(),
{
    if t.len() == 0 {
        0
    } else if p(t[0]) {
        1 + run_len(t.skip(1), p)
    } else {
        0
    }
}

/// A run of `k` bytes that satisfy `p` at the start of `t` makes the run at least that long.
pub proof fn lemma_run_len_mono(t: Seq<u8>, p: spec_fn(u8) -> bool, k: int)
    requires
        0 <= k <= t.len(),
        forall|j: int| 0 <= j < k ==> p(#[trigger] t[j]),
    ensures
        k <= run_len(t, p),
    decreases k,
{
    if k > 0 {
        assert forall|j: int| 0 <= j < k - 1 implies p(#[trigger] t.skip(1)[j]) by {
            assert(t.skip(1)[j] == t[j + 1]);
        }
        lemma_run_len_mono(t.skip(1), p, k - 1);
    }
}

/// Every byte of the run satisfies `p`.
pub proof fn lemma_run_len_prefix(t: Seq<u8>, p: spec_fn(u8) -> bool, j: int)
    requires
        0 <= j < run_len(t, p),
    ensures
        p(t[j]),
    decreases j,
{
    lemma_run_len_bound(t, p);
    if j > 0 {
        assert(t.skip(1)[j - 1] == t[j]);
        lemma_run_len_prefix(t.skip(1), p, j - 1);
    }
}

/// A run is no longer than the bytes it is taken from.
pub proof fn lemma_run_len_bound(t: Seq<u8>, p: spec_fn(u8) -> bool)
    ensures
        run_len(t, p) <= t.len(),
    decreases t.len(),
{
    if t.len() > 0 && p(t[0]) {
        lemma_run_len_bound(t.skip(1), p);
    }
}

/// A run of `k` bytes that satisfy `p`, ended by the end of `t` or a byte that does not.
pub proof fn lemma_run_len(t: Seq<u8>, p: spec_fn(u8) -> bool, k: int)
    requires
        0 <= k <= t.len(),
        forall|j: int| 0 <= j < k ==> p(#[trigger] t[j]),
        k == t.len() || !p(t[k]),
    ensures
        run_len(t, p) == k,
    decreases k,
{
    if k > 0 {
        assert forall|j: int| 0 <= j < k - 1 implies p(#[trigger] t.skip(1)[j]) by {
            assert(t.skip(1)[j] == t[j + 1]);
        }
        if k < t.len() {
            assert(t.skip(1)[k - 1] == t[k]);
        }
        lemma_run_len(t.skip(1), p, k - 1);
    }
}

/// Whether a byte is an ASCII decimal digit.
pub open spec fn is_digit(b: u8) -> bool {
    0x30 <= b <= 0x39
}

/// The value of an ASCII decimal digit.
pub open spec fn digit_val(b: u8) -> int {
    b - 0x30
}

/// The value of `number` followed by the decimal digits `s`, where each digit
/// is added to (or, for a negative number, taken from) ten times the value
/// before it.
pub open spec fn dec_fold(number: int, s: Seq<u8>, neg: bool) -> int
    decreases s.len(),
{
    if s.len() == 0 {
        number
    } else {
        let prev = dec_fold(number, s.drop_last(), neg);
        if neg {
            prev * 10 - digit_val(s.last())
        } else {
            prev * 10 + digit_val(s.last())
        }
    }
}

/// Helper trait for parsing integers
pub trait NumParseTool: Sized + Copy {
    /// The value of a number.
    spec fn value(self) -> int;

    /// The least value of the type.
    spec fn min_value() -> int;

    /// The greatest value of the type.
    spec fn max_value() -> int;

    /// Every number lies between the least and the greatest value, and these
    /// hold at least `0..=9` and at most what `i64` or `u64` hold.
    proof fn value_range(v: Self)
        ensures
            Self::min_value() <= v.value() <= Self::max_value(),
            Self::min_value() <= 0,
            9 <= Self::max_value(),
    ;

    /// Zero.
    fn zero() -> (r: Self)
        ensures
            r.value() == 0,
    ;

    /// The value of an ASCII decimal digit.
    fn try_from_ascii_decimal(code: u8) -> (r: Option<Self>)
        ensures
            is_digit(code) ==> (r matches Some(v) && v.value() == digit_val(code)),
            !is_digit(code) ==> r is None,
    ;

    /// Ten times the number, or `Error::InvalidNumber` if it does not fit.
    fn checked_mul_ten(self) -> (r: Result<Self>)
        ensures
            Self::min_value() <= self.value() * 10 <= Self::max_value() ==> (r matches Ok(v) && v.value() == self.value() * 10),
            !(Self::min_value() <= self.value() * 10 <= Self::max_value()) ==> r == Err::<Self, Error>(Error::InvalidNumber),
    ;

    /// The sum, or `Error::InvalidNumber` if it does not fit.
    fn checked_add(self, rhs: Self) -> (r: Result<Self>)
        ensures
            Self::min_value() <= self.value() + rhs.value() <= Self::max_value() ==> (r matches Ok(v) && v.value() == self.value() + rhs.value()),
            !(Self::min_value() <= self.value() + rhs.value() <= Self::max_value()) ==> r == Err::<Self, Error>(Error::InvalidNumber),
    ;
}

/// Helper trait for parsing negative integers
pub trait CheckedSub: NumParseTool {
    /// The difference, or `Error::InvalidNumber` if it does not fit.
    fn checked_sub(self, rhs: Self) -> (r: Result<Self>)
        ensures
            Self::min_value() <= self.value() - rhs.value() <= Self::max_value() ==> (r matches Ok(v) && v.value() == self.value() - rhs.value()),
            !(Self::min_value() <= self.value() - rhs.value() <= Self::max_value()) ==> r == Err::<Self, Error>(Error::InvalidNumber),
    ;

    /// The least value is below `-9`.
    proof fn negative_range()
        ensures
            Self::min_value() <= -9,
    ;

    /// The negated number, for a number whose negation fits.
    fn neg(self) -> (r: Self)
        requires
            Self::min_value() <= -self.value() <= Self::max_value(),
        ensures
            r.value() == -self.value(),
    ;
}

impl NumParseTool for u8 {
    open spec fn value(self) -> int {
        self as int
    }

    open spec fn min_value() -> int {
        0
    }

    open spec fn max_value() -> int {
        0xff
    }

    proof fn value_range(v: Self) {
    }

    fn zero() -> (r: Self) {
        0
    }

    fn try_from_ascii_decimal(code: u8) -> (r: Option<Self>) {
        if 0x30 <= code && code <= 0x39 {
            Some((code - 0x30) as u8)
        } else {
            None
        }
    }

    fn checked_mul_ten(self) -> (r: Result<Self>) {
        match self.checked_mul(10) {
            Some(v) => Ok(v),
            None => Err(Error::InvalidNumber),
        }
    }

    fn checked_add(self, rhs: Self) -> (r: Result<Self>) {
        match u8::checked_add(self, rhs) {
            Some(v) => Ok(v),
            None => Err(Error::InvalidNumber),
        }
    }
}

impl NumParseTool for u16 {
    open spec fn value(self) -> int {
        self as int
    }

    open spec fn min_value() -> int {
        0
    }

    open spec fn max_value() -> int {
        0xffff
    }

    proof fn value_range(v: Self) {
    }

    fn zero() -> (r: Self) {
        0
    }

    fn try_from_ascii_decimal(code: u8) -> (r: Option<Self>) {
        if 0x30 <= code && code <= 0x39 {
            Some((code - 0x30) as u16)
        } else {
            None
        }
    }

    fn checked_mul_ten(self) -> (r: Result<Self>) {
        match self.checked_mul(10) {
            Some(v) => Ok(v),
            None => Err(Error::InvalidNumber),
        }
    }

    fn checked_add(self, rhs: Self) -> (r: Result<Self>) {
        match u16::checked_add(self, rhs) {
            Some(v) => Ok(v),
            None => Err(Error::InvalidNumber),
        }
    }
}

impl NumParseTool for u32 {
    open spec fn value(self) -> int {
        self as int
    }

    open spec fn min_value() -> int {
        0
    }

    open spec fn max_value() -> int {
        0xffff_ffff
    }

    proof fn value_range(v: Self) {
    }

    fn zero() -> (r: Self) {
        0
    }

    fn try_from_ascii_decimal(code: u8) -> (r: Option<Self>) {
        if 0x30 <= code && code <= 0x39 {
            Some((code - 0x30) as u32)
        } else {
            None
        }
    }

    fn checked_mul_ten(self) -> (r: Result<Self>) {
        match self.checked_mul(10) {
            Some(v) => Ok(v),
            None => Err(Error::InvalidNumber),
        }
    }

    fn checked_add(self, rhs: Self) -> (r: Result<Self>) {
        match u32::checked_add(self, rhs) {
            Some(v) => Ok(v),
            None => Err(Error::InvalidNumber),
        }
    }
}

impl NumParseTool for u64 {
    open spec fn value(self) -> int {
        self as int
    }

    open spec fn min_value() -> int {
        0
    }

    open spec fn max_value() -> int {
        0xffff_ffff_ffff_ffff
    }

    proof fn value_range(v: Self) {
    }

    fn zero() -> (r: Self) {
        0
    }

    fn try_from_ascii_decimal(code: u8) -> (r: Option<Self>) {
        if 0x30 <= code && code <= 0x39 {
            Some((code - 0x30) as u64)
        } else {
            None
        }
    }

    fn checked_mul_ten(self) -> (r: Result<Self>) {
        match self.checked_mul(10) {
            Some(v) => Ok(v),
            None => Err(Error::InvalidNumber),
        }
    }

    fn checked_add(self, rhs: Self) -> (r: Result<Self>) {
        match u64::checked_add(self, rhs) {
            Some(v) => Ok(v),
            None => Err(Error::InvalidNumber),
        }
    }
}

impl NumParseTool for i8 {
    open spec fn value(self) -> int {
        self as int
    }

    open spec fn min_value() -> int {
        -0x80
    }

    open spec fn max_value() -> int {
        0x7f
    }

    proof fn value_range(v: Self) {
    }

    fn zero() -> (r: Self) {
        0
    }

    fn try_from_ascii_decimal(code: u8) -> (r: Option<Self>) {
        if 0x30 <= code && code <= 0x39 {
            Some((code - 0x30) as i8)
        } else {
            None
        }
    }

    fn checked_mul_ten(self) -> (r: Result<Self>) {
        match self.checked_mul(10) {
            Some(v) => Ok(v),
            None => Err(Error::InvalidNumber),
        }
    }

    fn checked_add(self, rhs: Self) -> (r: Result<Self>) {
        match i8::checked_add(self, rhs) {
            Some(v) => Ok(v),
            None => Err(Error::InvalidNumber),
        }
    }
}

impl CheckedSub for i8 {
    proof fn negative_range() {
    }

    fn checked_sub(self, rhs: Self) -> (r: Result<Self>) {
        match i8::checked_sub(self, rhs) {
            Some(v) => Ok(v),
            None => Err(Error::InvalidNumber),
        }
    }

    fn neg(self) -> (r: Self) {
        -self
    }
}

impl NumParseTool for i16 {
    open spec fn value(self) -> int {
        self as int
    }

    open spec fn min_value() -> int {
        -0x8000
    }

    open spec fn max_value() -> int {
        0x7fff
    }

    proof fn value_range(v: Self) {
    }

    fn zero() -> (r: Self) {
        0
    }

    fn try_from_ascii_decimal(code: u8) -> (r: Option<Self>) {
        if 0x30 <= code && code <= 0x39 {
            Some((code - 0x30) as i16)
        } else {
            None
        }
    }

    fn checked_mul_ten(self) -> (r: Result<Self>) {
        match self.checked_mul(10) {
            Some(v) => Ok(v),
            None => Err(Error::InvalidNumber),
        }
    }

    fn checked_add(self, rhs: Self) -> (r: Result<Self>) {
        match i16::checked_add(self, rhs) {
            Some(v) => Ok(v),
            None => Err(Error::InvalidNumber),
        }
    }
}

impl CheckedSub for i16 {
    proof fn negative_range() {
    }

    fn checked_sub(self, rhs: Self) -> (r: Result<Self>) {
        match i16::checked_sub(self, rhs) {
            Some(v) => Ok(v),
            None => Err(Error::InvalidNumber),
        }
    }

    fn neg(self) -> (r: Self) {
        -self
    }
}

impl NumParseTool for i32 {
    open spec fn value(self) -> int {
        self as int
    }

    open spec fn min_value() -> int {
        -0x8000_0000
    }

    open spec fn max_value() -> int {
        0x7fff_ffff
    }

    proof fn value_range(v: Self) {
    }

    fn zero() -> (r: Self) {
        0
    }

    fn try_from_ascii_decimal(code: u8) -> (r: Option<Self>) {
        if 0x30 <= code && code <= 0x39 {
            Some((code - 0x30) as i32)
        } else {
            None
        }
    }

    fn checked_mul_ten(self) -> (r: Result<Self>) {
        match self.checked_mul(10) {
            Some(v) => Ok(v),
            None => Err(Error::InvalidNumber),
        }
    }

    fn checked_add(self, rhs: Self) -> (r: Result<Self>) {
        match i32::checked_add(self, rhs) {
            Some(v) => Ok(v),
            None => Err(Error::InvalidNumber),
        }
    }
}

impl CheckedSub for i32 {
    proof fn negative_range() {
    }

    fn checked_sub(self, rhs: Self) -> (r: Result<Self>) {
        match i32::checked_sub(self, rhs) {
            Some(v) => Ok(v),
            None => Err(Error::InvalidNumber),
        }
    }

    fn neg(self) -> (r: Self) {
        -self
    }
}

impl NumParseTool for i64 {
    open spec fn value(self) -> int {
        self as int
    }

    open spec fn min_value() -> int {
        -0x8000_0000_0000_0000
    }

    open spec fn max_value() -> int {
        0x7fff_ffff_ffff_ffff
    }

    proof fn value_range(v: Self) {
    }

    fn zero() -> (r: Self) {
        0
    }

    fn try_from_ascii_decimal(code: u8) -> (r: Option<Self>) {
        if 0x30 <= code && code <= 0x39 {
            Some((code - 0x30) as i64)
        } else {
            None
        }
    }

    fn checked_mul_ten(self) -> (r: Result<Self>) {
        match self.checked_mul(10) {
            Some(v) => Ok(v),
            None => Err(Error::InvalidNumber),
        }
    }

    fn checked_add(self, rhs: Self) -> (r: Result<Self>) {
        match i64::checked_add(self, rhs) {
            Some(v) => Ok(v),
            None => Err(Error::InvalidNumber),
        }
    }
}

impl CheckedSub for i64 {
    proof fn negative_range() {
    }

    fn checked_sub(self, rhs: Self) -> (r: Result<Self>) {
        match i64::checked_sub(self, rhs) {
            Some(v) => Ok(v),
            None => Err(Error::InvalidNumber),
        }
    }

    fn neg(self) -> (r: Self) {
        -self
    }
}

/// The sign of a number read from digits keeps the sign it started with.
pub proof fn lemma_dec_fold_sign(n: int, s: Seq<u8>, neg: bool)
    requires
        forall|i: int| 0 <= i < s.len() ==> is_digit(#[trigger] s[i]),
        neg ==> n <= 0,
        !neg ==> n >= 0,
    ensures
        !neg ==> dec_fold(n, s, neg) >= 0,
        neg ==> dec_fold(n, s, neg) <= 0,
    decreases s.len(),
{
    if s.len() > 0 {
        assert forall|i: int| 0 <= i < s.drop_last().len() implies is_digit(#[trigger] s.drop_last()[i]) by {
            assert(s.drop_last()[i] == s[i]);
        }
        lemma_dec_fold_sign(n, s.drop_last(), neg);
        assert(is_digit(s[s.len() - 1]));
    }
}

/// Reading more digits moves a number away from zero.
pub proof fn lemma_dec_fold_mono(n: int, s: Seq<u8>, j: int, neg: bool)
    requires
        0 <= j <= s.len(),
        forall|i: int| 0 <= i < s.len() ==> is_digit(#[trigger] s[i]),
        neg ==> n <= 0,
        !neg ==> n >= 0,
    ensures
        !neg ==> dec_fold(n, s.take(j), neg) <= dec_fold(n, s, neg),
        neg ==> dec_fold(n, s, neg) <= dec_fold(n, s.take(j), neg),
    decreases s.len(),
{
    if j < s.len() {
        let d = s.drop_last();
        assert forall|i: int| 0 <= i < d.len() implies is_digit(#[trigger] d[i]) by {
            assert(d[i] == s[i]);
        }
        lemma_dec_fold_mono(n, d, j, neg);
        lemma_dec_fold_sign(n, d, neg);
        assert(d.take(j) =~= s.take(j));
        assert(is_digit(s[s.len() - 1]));
    } else {
        assert(s.take(j) =~= s);
    }
}

/// The outcome of reading the digits at the start of `t` after a first digit
/// worth `number`: the value and the number of digits read, or
/// `Error::InvalidNumber` when the value does not lie in `min..=max`.
pub open spec fn spec_digits(number: int, t: Seq<u8>, neg: bool, min: int, max: int) -> (Result<int>, int) {
    let k = run_len(t, digit_pred());
    let v = dec_fold(number, t.take(k as int), neg);
    if min <= v <= max {
        (Ok(v), k as int)
    } else {
        (Err(Error::InvalidNumber), 0)
    }
}

/// The outcome of reading an unsigned integer at the start of `t` after
/// whitespace: the value or the error, and the number of bytes consumed.
pub open spec fn spec_unsigned(t: Seq<u8>, min: int, max: int) -> (Result<int>, int) {
    let w = run_len(t, ws_pred()) as int;
    if w >= t.len() {
        (Err(Error::UnexpectedEof), 0)
    } else if t[w] == 0x2d {
        (Err(Error::InvalidNumber), w)
    } else if t[w] == 0x30 {
        (Ok(0), w + 1)
    } else if is_digit(t[w]) {
        let (res, k) = spec_digits(digit_val(t[w]), t.skip(w + 1), false, min, max);
        (res, w + 1 + k)
    } else {
        (Err(Error::InvalidType), w)
    }
}

/// The outcome of reading a signed integer at the start of `t` after
/// whitespace: the value or the error, and the number of bytes consumed.
pub open spec fn spec_signed(t: Seq<u8>, min: int, max: int) -> (Result<int>, int) {
    let w = run_len(t, ws_pred()) as int;
    if w >= t.len() {
        (Err(Error::UnexpectedEof), 0)
    } else if t[w] == 0x2d {
        if w + 1 >= t.len() {
            (Err(Error::UnexpectedEof), w + 1)
        } else if t[w + 1] == 0x30 {
            (Ok(0), w + 2)
        } else if is_digit(t[w + 1]) {
            let (res, k) = spec_digits(-digit_val(t[w + 1]), t.skip(w + 2), true, min, max);
            (res, w + 2 + k)
        } else {
            (Err(Error::InvalidType), w + 1)
        }
    } else if t[w] == 0x30 {
        (Ok(0), w + 1)
    } else if is_digit(t[w]) {
        let (res, k) = spec_digits(digit_val(t[w]), t.skip(w + 1), false, min, max);
        (res, w + 1 + k)
    } else {
        (Err(Error::InvalidType), w)
    }
}

/// The value of a hexadecimal digit, upper or lower case.
pub open spec fn spec_hex_nib(c: u8) -> Option<int> {
    if 0x30 <= c <= 0x39 {
        Some(c - 0x30)
    } else if 0x61 <= c <= 0x66 {
        Some(c - 0x61 + 10)
    } else if 0x41 <= c <= 0x46 {
        Some(c - 0x41 + 10)
    } else {
        None
    }
}

/// The value of four hexadecimal digits.
pub open spec fn spec_uuuu(h: Seq<u8>) -> Option<u32> {
    match (spec_hex_nib(h[0]), spec_hex_nib(h[1]), spec_hex_nib(h[2]), spec_hex_nib(h[3])) {
        (Some(a), Some(b), Some(c), Some(d)) => Some((a * 4096 + b * 256 + c * 16 + d) as u32),
        _ => None,
    }
}

/// The control byte for the escape letters `b`, `f`, `n`, `r` and `t`, 0 for the
/// other letters from `b` to `t`.
pub open spec fn spec_unescape_code(e: u8) -> u8 {
    if e == 0x62 {
        0x08
    } else if e == 0x66 {
        0x0c
    } else if e == 0x6e {
        0x0a
    } else if e == 0x72 {
        0x0d
    } else if e == 0x74 {
        0x09
    } else {
        0
    }
}

/// Bytes decoded before a decoding that goes on.
pub open spec fn prepend(p: Seq<u8>, r: Result<(Seq<u8>, int)>) -> Result<(Seq<u8>, int)> {
    match r {
        Ok((b, k)) => Ok((p + b, k)),
        Err(e) => Err(e),
    }
}

/// The contents of the JSON string that goes on at position `i` of `s`, up to
/// its closing `"`, with the escape sequences decoded: the bytes and the
/// position after the closing `"`.
pub open spec fn spec_unescape(s: Seq<u8>, i: int) -> Result<(Seq<u8>, int)>
    decreases s.len() - i,
{
    if i < 0 || i >= s.len() {
        Err(Error::UnexpectedEof)
    } else {
        let c = s[i];
        if c == 0x22 {
            Ok((Seq::empty(), i + 1))
        } else if c <= 0x1f {
            Err(Error::StringControlChar)
        } else if c == 0x5c {
            if i + 1 >= s.len() {
                Err(Error::UnexpectedEof)
            } else {
                let e = s[i + 1];
                if e == 0x22 || e == 0x5c || e == 0x2f {
                    prepend(seq![e], spec_unescape(s, i + 2))
                } else if 0x62 <= e <= 0x74 {
                    if spec_unescape_code(e) == 0 {
                        Err(Error::InvalidEscapeSequence)
                    } else {
                        prepend(seq![spec_unescape_code(e)], spec_unescape(s, i + 2))
                    }
                } else if e == 0x75 {
                    if i + 6 > s.len() {
                        Err(Error::UnexpectedEof)
                    } else {
                        match spec_uuuu(s.subrange(i + 2, i + 6)) {
                            None => Err(Error::InvalidEscapeSequence),
                            Some(code) => if !is_scalar(code) {
                                Err(Error::InvalidUnicodeCodePoint)
                            } else {
                                prepend(encode_scalar(code), spec_unescape(s, i + 6))
                            },
                        }
                    }
                } else {
                    Err(Error::InvalidEscapeSequence)
                }
            }
        } else {
            prepend(seq![c], spec_unescape(s, i + 1))
        }
    }
}

/// The position after the closing `"` of the JSON string that goes on at
/// position `i` of `s`: a `"` that no `\` escapes. Control bytes are refused.
pub open spec fn spec_str_end(s: Seq<u8>, i: int, escaped: bool) -> Result<int>
    decreases s.len() - i,
{
    if i < 0 || i >= s.len() {
        Err(Error::UnexpectedEof)
    } else if s[i] <= 0x1f {
        Err(Error::StringControlChar)
    } else if escaped {
        spec_str_end(s, i + 1, false)
    } else if s[i] == 0x5c {
        spec_str_end(s, i + 1, true)
    } else if s[i] == 0x22 {
        Ok(i + 1)
    } else {
        spec_str_end(s, i + 1, false)
    }
}

/// The value of a hexadecimal digit, upper or lower case.
fn parse_hex_nib(ch: u8) -> (r: Option<u8>)
    ensures
        r matches Some(v) ==> spec_hex_nib(ch) == Some(v as int) && v < 16,
        r is None ==> spec_hex_nib(ch) is None,
{
    if 0x30 <= ch && ch <= 0x39 {
        Some(ch - 0x30)
    } else if 0x61 <= ch && ch <= 0x66 {
        Some(ch - 0x61 + 10)
    } else if 0x41 <= ch && ch <= 0x46 {
        Some(ch - 0x41 + 10)
    } else {
        None
    }
}

/// The value of the four hexadecimal digits of a `\uXXXX` escape.
fn parse_uuuu(h: [u8; 4]) -> (r: Option<u32>)
    ensures
        r == spec_uuuu(h@),
{
    let a = parse_hex_nib(h[0])?;
    let b = parse_hex_nib(h[1])?;
    let c = parse_hex_nib(h[2])?;
    let d = parse_hex_nib(h[3])?;
    Some(a as u32 * 4096 + b as u32 * 256 + c as u32 * 16 + d as u32)
}

/// The UTF-8 encoding of a Unicode scalar value in the first bytes of an array.
fn encode_code(v: u32) -> (r: ([u8; 4], usize))
    requires
        is_scalar(v),
    ensures
        1 <= r.1 <= 4,
        r.0@.take(r.1 as int) == encode_scalar(v),
        v <= 0xffff ==> r.1 <= 3,
{
    let mut out = [0u8; 4];
    if v <= 0x7f {
        out[0] = (v & 0x7f) as u8;
        assert(out@.take(1) =~= encode_scalar(v));
        (out, 1)
    } else if v <= 0x7ff {
        out[0] = 0xc0 | ((v >> 6) & 0x1f) as u8;
        out[1] = 0x80 | (v & 0x3f) as u8;
        assert(out@.take(2) =~= encode_scalar(v));
        (out, 2)
    } else if v <= 0xffff {
        out[0] = 0xe0 | ((v >> 12) & 0x0f) as u8;
        out[1] = 0x80 | ((v >> 6) & 0x3f) as u8;
        out[2] = 0x80 | (v & 0x3f) as u8;
        assert(out@.take(3) =~= encode_scalar(v));
        (out, 3)
    } else {
        out[0] = 0xf0 | ((v >> 18) & 0x7) as u8;
        out[1] = 0x80 | ((v >> 12) & 0x3f) as u8;
        out[2] = 0x80 | ((v >> 6) & 0x3f) as u8;
        out[3] = 0x80 | (v & 0x3f) as u8;
        assert(out@.take(4) =~= encode_scalar(v));
        (out, 4)
    }
}

/// The control byte for an escape letter from `b` to `t`, 0 for those that
/// are not escape letters.
fn unescape_code(e: u8) -> (r: u8)
    ensures
        r == spec_unescape_code(e),
{
    if e == 0x62 {
        0x08
    } else if e == 0x66 {
        0x0c
    } else if e == 0x6e {
        0x0a
    } else if e == 0x72 {
        0x0d
    } else if e == 0x74 {
        0x09
    } else {
        0
    }
}

/// The bytes decoded before, then a piece, then the rest.
proof fn lemma_prepend_assoc(a: Seq<u8>, b: Seq<u8>, r: Result<(Seq<u8>, int)>)
    ensures
        prepend(a, prepend(b, r)) == prepend(a + b, r),
{
    match r {
        Ok((x, k)) => {
            assert(a + (b + x) =~= a + b + x);
        },
        Err(e) => {},
    }
}

/// The state of the input after one step of unescaping in place: the decoded
/// `piece` is written after what was decoded before, and the input from
/// `next` on is still the original.
proof fn lemma_unescape_step(
    s: Seq<u8>,
    pre: Seq<u8>,
    post: Seq<u8>,
    start: int,
    d0: int,
    i0: int,
    next: int,
    done: Seq<u8>,
    piece: Seq<u8>,
)
    requires
        0 <= start <= d0 <= i0 <= next <= s.len(),
        pre.len() == s.len(),
        d0 + piece.len() <= next,
        d0 - start == done.len(),
        pre.subrange(start, d0) == done,
        pre.skip(i0) == s.skip(i0),
        post == pre.take(d0) + piece + pre.skip(d0 + piece.len()),
    ensures
        post.len() == s.len(),
        post.subrange(start, d0 + piece.len()) == done + piece,
        post.skip(next) == s.skip(next),
{
    assert(post.subrange(start, d0 + piece.len()) =~= done + piece) by {
        assert forall|j: int| 0 <= j < done.len() implies post.subrange(start, d0 + piece.len())[j] == (done + piece)[j] by {
            assert(pre.subrange(start, d0)[j] == pre[start + j]);
        }
    }
    assert(post.skip(next) =~= s.skip(next)) by {
        assert forall|j: int| 0 <= j < s.len() - next implies post.skip(next)[j] == s.skip(next)[j] by {
            assert(pre.skip(i0)[next - i0 + j] == s.skip(i0)[next - i0 + j]);
        }
    }
}

/// Sequences equal from position `i` on are equal from any later position on.
proof fn lemma_skip_later(a: Seq<u8>, b: Seq<u8>, i: int, j: int)
    requires
        0 <= i <= j <= a.len(),
        a.len() == b.len(),
        a.skip(i) == b.skip(i),
    ensures
        a.skip(j) == b.skip(j),
{
    assert(a.skip(j) =~= b.skip(j)) by {
        assert forall|k: int| 0 <= k < a.len() - j implies a.skip(j)[k] == b.skip(j)[k] by {
            assert(a.skip(i)[j - i + k] == b.skip(i)[j - i + k]);
        }
    }
}

/// Equal suffixes from position `i` on have equal bytes there.
proof fn lemma_skip_eq(a: Seq<u8>, b: Seq<u8>, i: int, j: int)
    requires
        0 <= i,
        0 <= j,
        i + j < a.len(),
        a.len() == b.len(),
        a.skip(i) == b.skip(i),
    ensures
        a[i + j] == b[i + j],
{
    assert(a.skip(i)[j] == b.skip(i)[j]);
}

/// The bytes decoded from pairs of hexadecimal digits at position `j` of `t`
/// on, up to a closing `"`, and the position after it.
pub open spec fn spec_hex_content(t: Seq<u8>, j: int) -> Result<(Seq<u8>, int)>
    decreases t.len() - j,
{
    if j < 0 || j >= t.len() {
        Err(Error::UnexpectedEof)
    } else if j + 1 >= t.len() {
        if t[j] == 0x22 {
            Ok((Seq::empty(), j + 1))
        } else {
            Err(Error::UnexpectedChar)
        }
    } else {
        match (spec_hex_nib(t[j]), spec_hex_nib(t[j + 1])) {
            (Some(a), Some(b)) => prepend(seq![(a * 16 + b) as u8], spec_hex_content(t, j + 2)),
            (Some(_), None) => Err(Error::UnexpectedChar),
            _ => if t[j] == 0x22 {
                Ok((Seq::empty(), j + 1))
            } else {
                Err(Error::UnexpectedChar)
            },
        }
    }
}

/// The predicate of `=`, the base-64 padding.
pub open spec fn pad_pred() -> spec_fn(u8) -> bool {
    |b: u8| b == 0x3d
}

/// The predicate of base-64 characters.
pub open spec fn code_pred() -> spec_fn(u8) -> bool {
    |b: u8| base64::is_code(b)
}

/// The bytes decoded from base-64 characters at the start of `t`, with
/// optional `=` padding, up to a closing `"`, and the position after it.
pub open spec fn spec_base64_content(t: Seq<u8>) -> Result<(Seq<u8>, int)> {
    let el = run_len(t, code_pred()) as int;
    if el >= t.len() {
        Err(Error::UnexpectedEof)
    } else if t[el] == 0x22 {
        Ok((base64::spec_decode(t.take(el)), el + 1))
    } else if t[el] == 0x3d {
        let p = run_len(t.skip(el + 1), pad_pred()) as int;
        if el + 1 + p >= t.len() {
            Err(Error::UnexpectedEof)
        } else if t[el + 1 + p] == 0x22 {
            Ok((base64::spec_decode(t.take(el)), el + 1 + p + 1))
        } else {
            Err(Error::UnexpectedChar)
        }
    } else {
        Err(Error::UnexpectedChar)
    }
}

/// The bytes of the items of a JSON array of numbers from position `i` of `s`
/// on: each read as by [`Deserializer::parse_unsigned`] into a `u8` and
/// followed by `,` or the closing `]`; and the position after the `]`.
pub open spec fn spec_byte_list(s: Seq<u8>, i: int) -> Result<(Seq<u8>, int)>
    decreases s.len() - i,
{
    if i < 0 || i > s.len() {
        Err(Error::UnexpectedEof)
    } else {
        let (res, k) = spec_unsigned(s.skip(i), 0, 0xff);
        match res {
            Err(e) => Err(e),
            Ok(v) => {
                let j = i + k;
                if k < 0 || j > s.len() {
                    Err(Error::UnexpectedEof)
                } else {
                    let w = run_len(s.skip(j), ws_pred()) as int;
                    if j + w >= s.len() {
                        Err(Error::UnexpectedEof)
                    } else if s[j + w] == 0x2c {
                        prepend(seq![v as u8], spec_byte_list(s, j + w + 1))
                    } else if s[j + w] == 0x5d {
                        Ok((seq![v as u8], j + w + 1))
                    } else {
                        Err(Error::UnexpectedChar)
                    }
                }
            },
        }
    }
}

/// The bytes of a JSON array of numbers whose `[` precedes position `i` of
/// `s`, and the position after its `]`.
pub open spec fn spec_array_bytes(s: Seq<u8>, i: int) -> Result<(Seq<u8>, int)> {
    let w = run_len(s.skip(i), ws_pred()) as int;
    if i + w >= s.len() {
        Err(Error::UnexpectedEof)
    } else if s[i + w] == 0x5d {
        Ok((Seq::empty(), i + w + 1))
    } else {
        spec_byte_list(s, i + w)
    }
}

/// Unescaping the string at position `i` of `s` is unescaping it at the start of `s.skip(i)`.
pub proof fn lemma_unescape_shift(s: Seq<u8>, i: int)
    requires
        0 <= i <= s.len(),
    ensures
        spec_unescape(s, i) == match spec_unescape(s.skip(i), 0) {
            Ok((b, e)) => Ok::<(Seq<u8>, int), Error>((b, e + i)),
            Err(err) => Err(err),
        },
    decreases s.len() - i,
{
    lemma_unescape_shift_at(s, i, 0);
}

/// Unescaping at position `i + j` of `s` is unescaping at position `j` of `s.skip(i)`.
proof fn lemma_unescape_shift_at(s: Seq<u8>, i: int, j: int)
    requires
        0 <= i <= s.len(),
        0 <= j,
    ensures
        spec_unescape(s, i + j) == match spec_unescape(s.skip(i), j) {
            Ok((b, e)) => Ok::<(Seq<u8>, int), Error>((b, e + i)),
            Err(err) => Err(err),
        },
    decreases s.len() - (i + j),
{
    let t = s.skip(i);
    if i + j < s.len() {
        assert(t[j] == s[i + j]);
        if j + 1 < t.len() {
            assert(t[j + 1] == s[i + j + 1]);
        }
        if j + 6 <= t.len() {
            assert(t.subrange(j + 2, j + 6) =~= s.subrange(i + j + 2, i + j + 6));
        }
        lemma_unescape_shift_at(s, i, j + 1);
        if i + j + 2 <= s.len() {
            lemma_unescape_shift_at(s, i, j + 2);
        }
        if j + 6 <= t.len() {
            lemma_unescape_shift_at(s, i, j + 6);
        }
    }
}

/// A string that is read whole ends after where it starts and within the input.
pub proof fn lemma_unescape_bounds(s: Seq<u8>, i: int)
    ensures
        spec_unescape(s, i) matches Ok((b, e)) ==> i < e <= s.len(),
    decreases s.len() - i,
{
    if 0 <= i < s.len() {
        if i + 1 <= s.len() {
            lemma_unescape_bounds(s, i + 1);
        }
        if i + 2 <= s.len() {
            lemma_unescape_bounds(s, i + 2);
        }
        if i + 6 <= s.len() {
            lemma_unescape_bounds(s, i + 6);
        }
    }
}

/// A string that is read whole by unescaping is skipped whole too, and both
/// stop right after the same closing `"`: where
/// [`Deserializer::parse_str_bytes_content`] succeeds, so does
/// [`Deserializer::eat_str_content`] on the same input, and the unparsed bytes
/// after either are the same.
pub proof fn law_unescape_skip_agree(s: Seq<u8>, i: int)
    ensures
        spec_unescape(s, i) matches Ok((b, e)) ==> spec_str_end(s, i, false) == Ok::<int, Error>(e),
    decreases s.len() - i,
{
    if 0 <= i < s.len() {
        let c = s[i];
        if c == 0x5c && i + 1 < s.len() {
            assert(spec_str_end(s, i, false) == spec_str_end(s, i + 1, true));
            if i + 2 <= s.len() {
                law_unescape_skip_agree(s, i + 2);
            }
            if s[i + 1] > 0x1f {
                assert(spec_str_end(s, i + 1, true) == spec_str_end(s, i + 2, false));
            }
            if s[i + 1] == 0x75 && i + 6 <= s.len() {
                law_unescape_skip_agree(s, i + 6);
                let h = s.subrange(i + 2, i + 6);
                if spec_uuuu(h) is Some {
                    assert(h[0] == s[i + 2] && h[1] == s[i + 3] && h[2] == s[i + 4] && h[3] == s[i + 5]);
                    assert(spec_str_end(s, i + 5, false) == spec_str_end(s, i + 6, false));
                    assert(spec_str_end(s, i + 4, false) == spec_str_end(s, i + 5, false));
                    assert(spec_str_end(s, i + 3, false) == spec_str_end(s, i + 4, false));
                    assert(spec_str_end(s, i + 2, false) == spec_str_end(s, i + 3, false));
                }
            }
        } else if c != 0x22 && c > 0x1f && c != 0x5c {
            law_unescape_skip_agree(s, i + 1);
        }
    }
}

/// What unescaping reads after `k` bytes that stand for `d`: `d`, then what
/// the rest `r` reads as, ending `k` bytes further on.
pub open spec fn after_piece(d: Seq<u8>, k: int, r: Result<(Seq<u8>, int)>) -> Result<(Seq<u8>, int)> {
    match r {
        Ok((b, e)) => Ok((d + b, e + k)),
        Err(x) => Err(x),
    }
}

/// Each two-byte escape of RFC 8259 stands for its fixed byte: `\"` for `"`,
/// `\\` for `\`, `\/` for `/`, and `\b`, `\f`, `\n`, `\r`, `\t` for
/// backspace, form feed, line feed, carriage return and tab. A string content
/// that starts with such an escape reads as that byte followed by what the
/// rest reads as.
pub proof fn law_unescape_escapes(e: u8, d: u8, s: Seq<u8>)
    requires
        (e == 0x22 && d == 0x22) || (e == 0x5c && d == 0x5c) || (e == 0x2f && d == 0x2f)
            || (e == 0x62 && d == 0x08) || (e == 0x66 && d == 0x0c) || (e == 0x6e && d == 0x0a)
            || (e == 0x72 && d == 0x0d) || (e == 0x74 && d == 0x09),
    ensures
        spec_unescape(seq![0x5cu8, e] + s, 0) == after_piece(seq![d], 2, spec_unescape(s, 0)),
{
    let t = seq![0x5cu8, e] + s;
    assert(t[0] == 0x5c && t[1] == e);
    lemma_unescape_shift(t, 2);
    assert(t.skip(2) =~= s);
}

/// A byte that is neither a control byte, nor `"`, nor `\` stands for itself;
/// a `"` ends the string content; a control byte is refused.
pub proof fn law_unescape_plain(c: u8, s: Seq<u8>)
    ensures
        c >= 0x20 && c != 0x22 && c != 0x5c ==> spec_unescape(seq![c] + s, 0) == after_piece(
            seq![c],
            1,
            spec_unescape(s, 0),
        ),
        c == 0x22 ==> spec_unescape(seq![c] + s, 0) == Ok::<(Seq<u8>, int), Error>((Seq::empty(), 1)),
        c < 0x20 ==> spec_unescape(seq![c] + s, 0) == Err::<(Seq<u8>, int), Error>(Error::StringControlChar),
{
    let t = seq![c] + s;
    assert(t[0] == c);
    lemma_unescape_shift(t, 1);
    assert(t.skip(1) =~= s);
}

/// JSON whitespace is exactly space, tab, line feed and carriage return:
/// skipping whitespace over one of those bytes followed by `x` skips it and
/// then what it skips over `x`, and over any other byte skips nothing.
pub proof fn law_json_whitespace(b: u8, x: Seq<u8>)
    ensures
        (b == 0x20 || b == 0x09 || b == 0x0a || b == 0x0d) ==> run_len(seq![b] + x, ws_pred()) == 1 + run_len(
            x,
            ws_pred(),
        ),
        !(b == 0x20 || b == 0x09 || b == 0x0a || b == 0x0d) ==> run_len(seq![b] + x, ws_pred()) == 0,
{
    let t = seq![b] + x;
    assert(t[0] == b);
    assert(t.skip(1) =~= x);
}

/// Every byte that can start a JSON value is told as the kind of value it
/// starts: `-` and each digit `0` to `9` a number, `"` a string, `t` and `f`
/// a boolean, `n` null, `[` an array and `{` an object.
pub proof fn law_value_kind_starts(c: u8)
    ensures
        (c == 0x2d || (0x30 <= c && c <= 0x39)) ==> spec_value_kind(c) == Ok::<ValueKind, Error>(ValueKind::Number),
        c == 0x22 ==> spec_value_kind(c) == Ok::<ValueKind, Error>(ValueKind::Str),
        (c == 0x74 || c == 0x66) ==> spec_value_kind(c) == Ok::<ValueKind, Error>(ValueKind::Bool),
        c == 0x6e ==> spec_value_kind(c) == Ok::<ValueKind, Error>(ValueKind::Null),
        c == 0x5b ==> spec_value_kind(c) == Ok::<ValueKind, Error>(ValueKind::Array),
        c == 0x7b ==> spec_value_kind(c) == Ok::<ValueKind, Error>(ValueKind::Object),
{
}

/// Whether a byte may stand in the text of a JSON number.
pub open spec fn is_number_char(b: u8) -> bool {
    is_digit(b) || b == 0x2b || b == 0x2d || b == 0x2e || b == 0x65 || b == 0x45
}

/// The predicate of the bytes of the text of a JSON number.
pub open spec fn number_pred() -> spec_fn(u8) -> bool {
    |b: u8| is_number_char(b)
}

/// Whether the text of a number holds a fraction or an exponent.
pub open spec fn is_float_text(t: Seq<u8>) -> bool {
    exists|j: int| 0 <= j < t.len() && (t[j] == 0x2e || t[j] == 0x65 || t[j] == 0x45)
}

/// Whether all of `t` are decimal digits.
pub open spec fn all_digits(t: Seq<u8>) -> bool {
    forall|j: int| 0 <= j < t.len() ==> is_digit(#[trigger] t[j])
}

/// A number as read by a self-describing deserializer.
#[derive(Debug, Clone, Copy, PartialEq, Eq)]
pub enum AnyNumber {
    /// A non-negative integer
    PosInt(u64),
    /// A negative integer
    NegInt(i64),
    /// A number with a fraction or an exponent: the length of its text, which
    /// is left unread for a float parser
    Float(usize),
}

/// The number whose text `t` is, with a first byte `peek`: a float when the
/// text holds a fraction or an exponent, else an integer of digits that fits
/// in `u64`, or a `-` and digits that fit in `i64`.
pub open spec fn spec_any_number(t: Seq<u8>, peek: u8) -> Result<AnyNumber> {
    if is_float_text(t) {
        Ok(AnyNumber::Float(t.len() as usize))
    } else if peek == 0x2d {
        let d = t.skip(1);
        if d.len() > 0 && all_digits(d) && dec_fold(0, d, true) >= i64::MIN {
            Ok(AnyNumber::NegInt(dec_fold(0, d, true) as i64))
        } else {
            Err(Error::InvalidNumber)
        }
    } else {
        if t.len() > 0 && all_digits(t) && dec_fold(0, t, false) <= u64::MAX {
            Ok(AnyNumber::PosInt(dec_fold(0, t, false) as u64))
        } else {
            Err(Error::InvalidNumber)
        }
    }
}

/// The outcome of matching the rest of a keyword at position `i` of `t`:
/// `v` when the bytes there are `token`, else an error.
pub open spec fn token_read<T>(t: Seq<u8>, i: int, token: Seq<u8>, v: T, r: Result<T>) -> bool {
    if i + token.len() > t.len() {
        r == Err::<T, Error>(Error::UnexpectedEof)
    } else if t.subrange(i, i + token.len()) == token {
        r == Ok::<T, Error>(v)
    } else {
        r == Err::<T, Error>(Error::ExpectedToken)
    }
}

/// Positions in the unparsed input `t` and in the whole input `s` from the cursor `c`.
proof fn lemma_token_at(t: Seq<u8>, c: int, i: int, s: Seq<u8>, token: Seq<u8>)
    requires
        0 <= c <= s.len(),
        t == s.skip(c),
        0 <= i,
    ensures
        (c + i + token.len() <= s.len()) == (i + token.len() <= t.len()),
        c + i + token.len() <= s.len() ==> s.subrange(c + i, c + i + token.len()) == t.subrange(i, i + token.len()),
{
    if c + i + token.len() <= s.len() {
        assert(s.subrange(c + i, c + i + token.len()) =~= t.subrange(i, i + token.len()));
    }
}

/// The outcome of starting the next element of a JSON array at the start of
/// `t`: whether an element follows (`false` at the closing `]`) and the
/// number of bytes consumed, given whether it is the first.
pub open spec fn spec_next_element(t: Seq<u8>, first: bool) -> (Result<bool>, int) {
    let w = run_len(t, ws_pred()) as int;
    if w >= t.len() {
        (Err(Error::UnexpectedEof), 0)
    } else if t[w] == 0x5d {
        (Ok(false), w)
    } else if t[w] == 0x2c {
        if first {
            (Err(Error::LeadingArrayComma), w)
        } else {
            let w2 = run_len(t.skip(w + 1), ws_pred()) as int;
            if w + 1 + w2 >= t.len() {
                (Err(Error::UnexpectedEof), w + 1)
            } else if t[w + 1 + w2] == 0x5d {
                (Err(Error::TrailingArrayComma), w + 1 + w2)
            } else {
                (Ok(true), w + 1 + w2)
            }
        }
    } else if first {
        (Ok(true), w)
    } else {
        (Err(Error::ExpectedArrayCommaOrEnd), w)
    }
}

/// The outcome of starting the next entry of a JSON object at the start of
/// `t`: whether a key follows (`false` at the closing `}`) and the number of
/// bytes consumed, given whether it is the first.
pub open spec fn spec_next_key(t: Seq<u8>, first: bool) -> (Result<bool>, int) {
    let w = run_len(t, ws_pred()) as int;
    if w >= t.len() {
        (Err(Error::UnexpectedEof), 0)
    } else if t[w] == 0x7d {
        (Ok(false), w)
    } else if t[w] == 0x2c {
        if first {
            (Err(Error::LeadingObjectComma), w)
        } else {
            let w2 = run_len(t.skip(w + 1), ws_pred()) as int;
            if w + 1 + w2 >= t.len() {
                (Err(Error::UnexpectedEof), w + 1)
            } else if t[w + 1 + w2] == 0x7d {
                (Err(Error::TrailingObjectComma), w + 1 + w2)
            } else if t[w + 1 + w2] == 0x22 {
                (Ok(true), w + 1 + w2)
            } else {
                (Err(Error::KeyMustBeAString), w + 1 + w2)
            }
        }
    } else if first {
        if t[w] == 0x22 {
            (Ok(true), w)
        } else {
            (Err(Error::KeyMustBeAString), w)
        }
    } else {
        (Err(Error::ExpectedObjectCommaOrEnd), w)
    }
}

/// A result with its value mapped by `f`.
pub open spec fn mapped<T, U>(r: Result<T>, f: spec_fn(T) -> U) -> Result<U> {
    match r {
        Ok(v) => Ok(f(v)),
        Err(e) => Err(e),
    }
}

impl<'de, P> Deserializer<'de, P> {
    /// The current input slice.
    pub closed spec fn input_seq(&self) -> Seq<u8> {
        self.input@
    }

    /// The cursor into the current input slice.
    pub closed spec fn cursor(&self) -> int {
        self.index as int
    }

    /// Whether the cursor lies within the input slice or at its end.
    pub open spec fn in_bounds(&self) -> bool {
        self.cursor() <= self.input_seq().len()
    }

    /// The reference to the input slice: its final value is what the slice
    /// holds once the deserializer and what it handed out are done with it.
    pub closed spec fn input_ref(&self) -> &'de mut [u8] {
        self.input
    }

    /// The reference to the input slice holds the input slice, and once the
    /// deserializer is done with, its final value is what it holds.
    pub proof fn lemma_input_ref(&self)
        ensures
            self.input_ref()@ == self.input_seq(),
            has_resolved(*self) ==> final(self.input_ref())@ == self.input_seq(),
    {
    }

    /// The cursor is never negative.
    pub proof fn lemma_cursor_nonneg(&self)
        ensures
            0 <= self.cursor(),
    {
    }

    /// The unparsed bytes of the input, empty when the cursor is past its end.
    pub open spec fn rest(&self) -> Seq<u8> {
        if self.cursor() <= self.input_seq().len() {
            self.input_seq().skip(self.cursor())
        } else {
            Seq::empty()
        }
    }

    /// The input slice fits in memory.
    pub proof fn lemma_input_len(&self)
        ensures
            self.input_seq().len() <= usize::MAX,
    {
        assert(self.input@.len() == self.input.len());
    }

    /// Provide a mutable slice, so data can be deserialized in-place
    pub fn from_mut_slice(input: &'de mut [u8]) -> (r: Self)
        ensures
            r.input_seq() == old(input)@,
            r.cursor() == 0,
            final(r.input_ref())@ == final(input)@,
    {
        Deserializer { input, index: 0, _parser: PhantomData }
    }

    /// Peek at the next byte code, otherwise return `Err(Error::UnexpectedEof)`.
    pub fn peek(&self) -> (r: Result<u8>)
        ensures
            self.cursor() < self.input_seq().len() ==> r == Ok::<u8, Error>(self.input_seq()[self.cursor()]),
            self.cursor() >= self.input_seq().len() ==> r == Err::<u8, Error>(Error::UnexpectedEof),
    {
        if self.index < self.input.len() {
            Ok(self.input[self.index])
        } else {
            Err(Error::UnexpectedEof)
        }
    }

    /// Advance the input cursor by `len` characters.
    ///
    /// _Note_: this function only increases a cursor without any checks!
    pub fn eat_some(&mut self, len: usize)
        requires
            old(self).cursor() + len <= usize::MAX,
        ensures
            final(self).input_seq() == old(self).input_seq(),
            final(self).cursor() == old(self).cursor() + len,
    {
        self.index += len;
    }

    /// Advance cursor while discarding any JSON whitespace characters from the input slice
    /// and peek at the next non-whitespace character.
    /// Otherwise return `Err(Error::UnexpectedEof)`.
    pub fn eat_whitespace(&mut self) -> (r: Result<u8>)
        requires
            old(self).in_bounds(),
        ensures
            final(self).input_seq() == old(self).input_seq(),
            final(self).in_bounds(),
            ({
                let t = old(self).rest();
                let k = run_len(t, ws_pred());
                &&& k < t.len() ==> r == Ok::<u8, Error>(t[k as int]) && final(self).cursor() == old(self).cursor() + k
                &&& k == t.len() ==> r == Err::<u8, Error>(Error::UnexpectedEof) && final(self).cursor() == old(self).cursor()
            }),
    {
        let ghost t = self.rest();
        let len = self.input.len();
        let mut pos = self.index;
        while pos < len
            invariant
                len == self.input@.len(),
                self.index <= pos <= len,
                self.index == old(self).index,
                self.input@ == old(self).input@,
                t == self.input@.skip(self.index as int),
                forall|j: int| 0 <= j < pos - self.index ==> is_ws(#[trigger] t[j]),
            decreases len - pos,
        {
            let b = self.input[pos];
            if !(b == 0x20 || b == 0x09 || b == 0x0a || b == 0x0d) {
                proof { lemma_run_len(t, ws_pred(), pos - self.index); }
                self.index = pos;
                return Ok(b);
            }
            pos += 1;
        }
        proof { lemma_run_len(t, ws_pred(), pos - self.index); }
        Err(Error::UnexpectedEof)
    }

    /// Consume deserializer and check if trailing characters only consist of whitespace
    pub fn end(self) -> (r: Result<()>)
        requires
            self.in_bounds(),
        ensures
            r is Ok <==> run_len(self.rest(), ws_pred()) == self.rest().len(),
            r is Err ==> r == Err::<(), Error>(Error::TrailingCharacters),
    {
        let mut de = self;
        proof { lemma_run_len_bound(de.rest(), ws_pred()); }
        match de.eat_whitespace() {
            Ok(_) => Err(Error::TrailingCharacters),
            Err(_) => Ok(()),
        }
    }

    /// Return a mutable reference to the unparsed portion of the input slice on success.
    /// Otherwise return `Err(Error::UnexpectedEof)`.
    pub fn input_mut(&mut self) -> (r: Result<&mut [u8]>)
        ensures
            final(self).cursor() == old(self).cursor(),
            old(self).in_bounds() ==> (r matches Ok(s) && s@ == old(self).rest()
                && final(self).input_seq() == old(self).input_seq().take(old(self).cursor()) + final(s)@),
            !old(self).in_bounds() ==> r == Err::<&mut [u8], Error>(Error::UnexpectedEof),
    {
        if self.index <= self.input.len() {
            let (_, rest) = self.input.split_at_mut(self.index);
            Ok(rest)
        } else {
            Err(Error::UnexpectedEof)
        }
    }

    /// Split the unparsed portion of the input slice between `0..len` and return it with
    /// the lifetime of the original slice container.
    ///
    /// Drop already parsed bytes and bytes between `len..len+skip` and the new unparsed
    /// input slice will begin at `len + skip`.
    pub fn split_input(&mut self, len: usize, skip: usize) -> (r: &'de mut [u8])
        requires
            old(self).cursor() + len + skip <= old(self).input_seq().len(),
        ensures
            r@ == old(self).input_seq().subrange(old(self).cursor(), old(self).cursor() + len),
            final(self).input_seq() == old(self).input_seq().skip(old(self).cursor() + len + skip),
            final(self).cursor() == 0,
            final(old(self).input_ref())@ == old(self).input_seq().take(old(self).cursor()) + final(r)@
                + old(self).input_seq().subrange(old(self).cursor() + len, old(self).cursor() + len + skip)
                + final(final(self).input_ref())@,
    {
        proof { self.lemma_input_len(); }
        let index = self.index;
        let nstart = index + len + skip;
        let mut input: &'de mut [u8] = &mut [];
        core::mem::swap(&mut input, &mut self.input);
        let (head, tail) = input.split_at_mut(nstart);
        let (_, tail_head) = head.split_at_mut(index);
        let (res, _) = tail_head.split_at_mut(len);
        self.input = tail;
        self.index = 0;
        res
    }

    /// Parse a token and if match is found advance the cursor.
    ///
    /// Example tokens: `b"null"`, `b"true"`, `b"false"`.
    pub fn parse_token_content(&mut self, token: &[u8]) -> (r: Result<()>)
        ensures
            final(self).input_seq() == old(self).input_seq(),
            ({
                let s = old(self).input_seq();
                let i = old(self).cursor();
                let n = token@.len() as int;
                &&& i + n <= s.len() && s.subrange(i, i + n) == token@ ==> r is Ok && final(self).cursor() == i + n
                &&& i + n <= s.len() && s.subrange(i, i + n) != token@ ==> r == Err::<(), Error>(Error::ExpectedToken)
                    && final(self).cursor() == i
                &&& i + n > s.len() ==> r == Err::<(), Error>(Error::UnexpectedEof) && final(self).cursor() == i
            }),
    {
        let size = token.len();
        if size <= self.input.len() && self.index <= self.input.len() - size {
            let end = self.index + size;
            let mut k: usize = 0;
            while k < size
                invariant
                    size == token@.len(),
                    end == self.index + size,
                    end <= self.input@.len(),
                    k <= size,
                    self.input@ == old(self).input@,
                    self.index == old(self).index,
                    forall|j: int| 0 <= j < k ==> self.input@[self.index + j] == token@[j],
                decreases size - k,
            {
                if self.input[self.index + k] != token[k] {
                    proof {
                        assert(self.input@.subrange(self.index as int, end as int)[k as int] != token@[k as int]);
                    }
                    return Err(Error::ExpectedToken);
                }
                k += 1;
            }
            assert(self.input@.subrange(self.index as int, end as int) =~= token@);
            self.eat_some(size);
            Ok(())
        } else {
            Err(Error::UnexpectedEof)
        }
    }

    /// Eats whitespace and checks if the next character is a colon
    pub fn parse_key_colon(&mut self) -> (r: Result<()>)
        requires
            old(self).in_bounds(),
        ensures
            final(self).input_seq() == old(self).input_seq(),
            final(self).in_bounds(),
            ({
                let t = old(self).rest();
                let k = run_len(t, ws_pred());
                &&& k < t.len() && t[k as int] == 0x3a ==> r is Ok && final(self).cursor() == old(self).cursor() + k + 1
                &&& k < t.len() && t[k as int] != 0x3a ==> r == Err::<(), Error>(Error::ExpectedColon)
                    && final(self).cursor() == old(self).cursor() + k
                &&& k == t.len() ==> r == Err::<(), Error>(Error::UnexpectedEof) && final(self).cursor() == old(self).cursor()
            }),
    {
        proof {
            self.lemma_input_len();
            lemma_run_len_bound(self.rest(), ws_pred());
        }
        if 0x3a == self.eat_whitespace()? {
            self.eat_some(1);
            Ok(())
        } else {
            Err(Error::ExpectedColon)
        }
    }
}

impl<'de, P> Deserializer<'de, P> {
    /// Read the decimal digits that follow a first digit worth `number`,
    /// adding each to ten times the value before it.
    fn parse_positive_number<T: NumParseTool>(&mut self, number: T) -> (r: Result<T>)
        requires
            number.value() >= 0,
        ensures
            final(self).input_seq() == old(self).input_seq(),
            !old(self).in_bounds() ==> r == Err::<T, Error>(Error::UnexpectedEof) && final(self).cursor() == old(self).cursor(),
            old(self).in_bounds() ==> ({
                let (res, k) = spec_digits(number.value(), old(self).rest(), false, T::min_value(), T::max_value());
                mapped(r, |v: T| v.value()) == res && final(self).cursor() == old(self).cursor() + k
            }),
    {
        if self.index > self.input.len() {
            return Err(Error::UnexpectedEof);
        }
        let ghost t = self.rest();
        let ghost n0 = number.value();
        let len = self.input.len();
        let start = self.index;
        let mut acc = number;
        let mut pos: usize = 0;
        proof { lemma_run_len_bound(t, digit_pred()); }
        while pos < len - start
            invariant_except_break
                len == self.input@.len(),
                start == self.index,
                start <= len,
                self.input@ == old(self).input@,
                self.index == old(self).index,
                t == self.input@.skip(start as int),
                pos <= t.len(),
                forall|j: int| 0 <= j < pos ==> is_digit(#[trigger] t[j]),
                acc.value() == dec_fold(n0, t.take(pos as int), false),
                n0 == number.value(),
                n0 >= 0,
                run_len(t, digit_pred()) <= t.len(),
            ensures
                len == self.input@.len(),
                start == self.index,
                self.input@ == old(self).input@,
                self.index == old(self).index,
                pos <= t.len(),
                forall|j: int| 0 <= j < pos ==> is_digit(#[trigger] t[j]),
                pos == t.len() || !is_digit(t[pos as int]),
                acc.value() == dec_fold(n0, t.take(pos as int), false),
                n0 == number.value(),
            decreases len - start - pos,
        {
            let ch = self.input[start + pos];
            let d = match T::try_from_ascii_decimal(ch) {
                Some(d) => d,
                None => break,
            };
            proof {
                assert(t.take(pos + 1).drop_last() =~= t.take(pos as int));
                assert(t.take(pos + 1).last() == ch);
                assert forall|j: int| 0 <= j < pos + 1 implies is_digit(#[trigger] t.take(pos + 1)[j]) by {
                    assert(t.take(pos + 1)[j] == t[j]);
                }
                let k = run_len(t, digit_pred());
                assert forall|j: int| 0 <= j < pos + 1 implies is_digit(#[trigger] t[j]) by {
                    if j == pos {
                        assert(is_digit(ch));
                    }
                }
                lemma_run_len_mono(t, digit_pred(), pos + 1);
                assert forall|j: int| 0 <= j < k implies is_digit(#[trigger] t.take(k as int)[j]) by {
                    lemma_run_len_prefix(t, digit_pred(), j);
                    assert(t.take(k as int)[j] == t[j]);
                }
                lemma_dec_fold_mono(n0, t.take(k as int), pos + 1, false);
                assert(t.take(k as int).take(pos + 1) =~= t.take(pos + 1));
                T::value_range(acc);
                T::value_range(d);
                assert forall|j: int| 0 <= j < pos implies is_digit(#[trigger] t.take(pos as int)[j]) by {
                    assert(t.take(pos as int)[j] == t[j]);
                }
                lemma_dec_fold_sign(n0, t.take(pos as int), false);
            }
            let tens = match acc.checked_mul_ten() {
                Ok(v) => v,
                Err(e) => return Err(e),
            };
            acc = match tens.checked_add(d) {
                Ok(v) => v,
                Err(e) => return Err(e),
            };
            pos += 1;
        }
        proof {
            lemma_run_len(t, digit_pred(), pos as int);
            T::value_range(acc);
        }
        self.eat_some(pos);
        Ok(acc)
    }

    /// Read the decimal digits that follow a first digit worth `number`,
    /// taking each from ten times the value before it.
    fn parse_negative_number<T: NumParseTool + CheckedSub>(&mut self, number: T) -> (r: Result<T>)
        requires
            number.value() <= 0,
        ensures
            final(self).input_seq() == old(self).input_seq(),
            !old(self).in_bounds() ==> r == Err::<T, Error>(Error::UnexpectedEof) && final(self).cursor() == old(self).cursor(),
            old(self).in_bounds() ==> ({
                let (res, k) = spec_digits(number.value(), old(self).rest(), true, T::min_value(), T::max_value());
                mapped(r, |v: T| v.value()) == res && final(self).cursor() == old(self).cursor() + k
            }),
    {
        if self.index > self.input.len() {
            return Err(Error::UnexpectedEof);
        }
        let ghost t = self.rest();
        let ghost n0 = number.value();
        let len = self.input.len();
        let start = self.index;
        let mut acc = number;
        let mut pos: usize = 0;
        proof { lemma_run_len_bound(t, digit_pred()); }
        while pos < len - start
            invariant_except_break
                len == self.input@.len(),
                start == self.index,
                start <= len,
                self.input@ == old(self).input@,
                self.index == old(self).index,
                t == self.input@.skip(start as int),
                pos <= t.len(),
                forall|j: int| 0 <= j < pos ==> is_digit(#[trigger] t[j]),
                acc.value() == dec_fold(n0, t.take(pos as int), true),
                n0 == number.value(),
                n0 <= 0,
                run_len(t, digit_pred()) <= t.len(),
            ensures
                len == self.input@.len(),
                start == self.index,
                self.input@ == old(self).input@,
                self.index == old(self).index,
                pos <= t.len(),
                forall|j: int| 0 <= j < pos ==> is_digit(#[trigger] t[j]),
                pos == t.len() || !is_digit(t[pos as int]),
                acc.value() == dec_fold(n0, t.take(pos as int), true),
                n0 == number.value(),
            decreases len - start - pos,
        {
            let ch = self.input[start + pos];
            let d = match T::try_from_ascii_decimal(ch) {
                Some(d) => d,
                None => break,
            };
            proof {
                assert(t.take(pos + 1).drop_last() =~= t.take(pos as int));
                assert(t.take(pos + 1).last() == ch);
                assert forall|j: int| 0 <= j < pos + 1 implies is_digit(#[trigger] t.take(pos + 1)[j]) by {
                    assert(t.take(pos + 1)[j] == t[j]);
                }
                let k = run_len(t, digit_pred());
                assert forall|j: int| 0 <= j < pos + 1 implies is_digit(#[trigger] t[j]) by {
                    if j == pos {
                        assert(is_digit(ch));
                    }
                }
                lemma_run_len_mono(t, digit_pred(), pos + 1);
                assert forall|j: int| 0 <= j < k implies is_digit(#[trigger] t.take(k as int)[j]) by {
                    lemma_run_len_prefix(t, digit_pred(), j);
                    assert(t.take(k as int)[j] == t[j]);
                }
                lemma_dec_fold_mono(n0, t.take(k as int), pos + 1, true);
                assert(t.take(k as int).take(pos + 1) =~= t.take(pos + 1));
                T::value_range(acc);
                T::value_range(d);
                assert forall|j: int| 0 <= j < pos implies is_digit(#[trigger] t.take(pos as int)[j]) by {
                    assert(t.take(pos as int)[j] == t[j]);
                }
                lemma_dec_fold_sign(n0, t.take(pos as int), true);
            }
            let tens = match acc.checked_mul_ten() {
                Ok(v) => v,
                Err(e) => return Err(e),
            };
            acc = match tens.checked_sub(d) {
                Ok(v) => v,
                Err(e) => return Err(e),
            };
            pos += 1;
        }
        proof {
            lemma_run_len(t, digit_pred(), pos as int);
            T::value_range(acc);
        }
        self.eat_some(pos);
        Ok(acc)
    }
}

impl<'de, P> Deserializer<'de, P> {
    /// Consume whitespace and then parse a number as an unsigned integer
    pub fn parse_unsigned<T: NumParseTool>(&mut self) -> (r: Result<T>)
        requires
            old(self).in_bounds(),
        ensures
            final(self).input_seq() == old(self).input_seq(),
            final(self).in_bounds(),
            ({
                let (res, k) = spec_unsigned(old(self).rest(), T::min_value(), T::max_value());
                mapped(r, |v: T| v.value()) == res && final(self).cursor() == old(self).cursor() + k
            }),
    {
        let ghost t = self.rest();
        proof {
            self.lemma_input_len();
            lemma_run_len_bound(t, ws_pred());
        }
        let peek = self.eat_whitespace()?;
        let ghost w = run_len(t, ws_pred()) as int;
        if peek == 0x2d {
            Err(Error::InvalidNumber)
        } else if peek == 0x30 {
            self.eat_some(1);
            Ok(T::zero())
        } else {
            match T::try_from_ascii_decimal(peek) {
                Some(number) => {
                    self.eat_some(1);
                    proof {
                        assert(self.rest() =~= t.skip(w + 1));
                        T::value_range(number);
                        lemma_run_len_bound(t.skip(w + 1), digit_pred());
                    }
                    self.parse_positive_number(number)
                },
                None => Err(Error::InvalidType),
            }
        }
    }

    /// Consume whitespace and then parse a number as a signed integer
    pub fn parse_signed<T: NumParseTool + CheckedSub>(&mut self) -> (r: Result<T>)
        requires
            old(self).in_bounds(),
        ensures
            final(self).input_seq() == old(self).input_seq(),
            final(self).in_bounds(),
            ({
                let (res, k) = spec_signed(old(self).rest(), T::min_value(), T::max_value());
                mapped(r, |v: T| v.value()) == res && final(self).cursor() == old(self).cursor() + k
            }),
    {
        let ghost t = self.rest();
        proof {
            self.lemma_input_len();
            lemma_run_len_bound(t, ws_pred());
        }
        let mut peek = self.eat_whitespace()?;
        let ghost w = run_len(t, ws_pred()) as int;
        let is_neg = if peek == 0x2d {
            self.eat_some(1);
            peek = self.peek()?;
            true
        } else {
            false
        };
        let ghost skip: int = if is_neg { w + 2 } else { w + 1 };
        if peek == 0x30 {
            self.eat_some(1);
            Ok(T::zero())
        } else {
            match T::try_from_ascii_decimal(peek) {
                Some(number) => {
                    self.eat_some(1);
                    proof {
                        assert(self.rest() =~= t.skip(skip));
                        T::value_range(number);
                        T::negative_range();
                        lemma_run_len_bound(t.skip(skip), digit_pred());
                    }
                    if is_neg {
                        self.parse_negative_number(number.neg())
                    } else {
                        self.parse_positive_number(number)
                    }
                },
                None => Err(Error::InvalidType),
            }
        }
    }
}

impl<'de, P> Deserializer<'de, P> {
    /// Consume a content of a string until the closing `'"'`, ignoring all escape codes
    /// except immediately before any `'"'`.
    ///
    /// Call after consuming the initial `'"'`.
    pub fn eat_str_content(&mut self) -> (r: Result<()>)
        ensures
            final(self).input_seq() == old(self).input_seq(),
            match spec_str_end(old(self).input_seq(), old(self).cursor(), false) {
                Ok(e) => r is Ok && final(self).cursor() == e,
                Err(err) => r == Err::<(), Error>(err) && final(self).cursor() == old(self).cursor(),
            },
    {
        let ghost s = self.input@;
        let len = self.input.len();
        let mut i = self.index;
        let mut escaped = false;
        while i < len
            invariant
                len == s.len(),
                self.input@ == s,
                s == old(self).input@,
                self.index == old(self).index,
                self.index <= i,
                spec_str_end(s, self.index as int, false) == spec_str_end(s, i as int, escaped),
            decreases len - i,
        {
            let b = self.input[i];
            if b <= 0x1f {
                return Err(Error::StringControlChar);
            }
            if escaped {
                escaped = false;
            } else if b == 0x5c {
                escaped = true;
            } else if b == 0x22 {
                self.index = i + 1;
                return Ok(());
            }
            i += 1;
        }
        Err(Error::UnexpectedEof)
    }

    /// Write the first `n` bytes of `bytes` at position `dest` of the input.
    fn write_at(&mut self, dest: usize, bytes: [u8; 4], n: usize)
        requires
            n <= 4,
            dest + n <= old(self).input@.len(),
        ensures
            final(self).input@ == old(self).input@.take(dest as int) + bytes@.take(n as int)
                + old(self).input@.skip(dest + n),
            final(self).index == old(self).index,
            final(final(self).input_ref())@ == final(old(self).input_ref())@,
    {
        let ghost pre = self.input@;
        proof { self.lemma_input_len(); }
        let mut k: usize = 0;
        while k < n
            invariant
                pre.len() <= usize::MAX,
                k <= n <= 4,
                dest + n <= pre.len(),
                self.index == old(self).index,
                self.input@.len() == pre.len(),
                pre == old(self).input@,
                forall|j: int| 0 <= j < dest ==> self.input@[j] == pre[j],
                forall|j: int| dest + n <= j < pre.len() ==> self.input@[j] == pre[j],
                forall|j: int| 0 <= j < k ==> self.input@[dest + j] == bytes@[j],
                forall|j: int| dest + k <= j < dest + n ==> self.input@[j] == pre[j],
                final(self.input_ref())@ == final(old(self).input_ref())@,
            decreases n - k,
        {
            self.input[dest + k] = bytes[k];
            k += 1;
        }
        assert(self.input@ =~= pre.take(dest as int) + bytes@.take(n as int) + pre.skip(dest + n));
    }

    /// Parse a string until a closing `'"'` is found.
    /// Return decoded in-place string data on success.
    ///
    /// Handles escape sequences using in-place copy, call after consuming an opening `'"'`
    #[verifier::rlimit(30)]
    #[verifier::spinoff_prover]
    pub fn parse_str_bytes_content(&mut self) -> (r: Result<&'de [u8]>)
        ensures
            match spec_unescape(old(self).input_seq(), old(self).cursor()) {
                Ok((b, e)) => r matches Ok(v) && v@ == b && final(self).input_seq() == old(self).input_seq().skip(e)
                    && final(self).cursor() == 0 && b.len() < e - old(self).cursor()
                    && exists|junk: Seq<u8>|
                        junk.len() == e - old(self).cursor() - b.len()
                        && #[trigger] (old(self).input_seq().take(old(self).cursor()) + b + junk
                            + final(final(self).input_ref())@) == final(old(self).input_ref())@,
                Err(err) => r matches Err(x) && x == err && final(self).cursor() == old(self).cursor()
                    && final(self).input_seq().len() == old(self).input_seq().len(),
            },
    {
        let ghost s = self.input@;
        let len = self.input.len();
        let start = self.index;
        if start > len {
            return Err(Error::UnexpectedEof);
        }
        let mut index = start;
        let mut dest = start;
        let ghost mut done: Seq<u8> = Seq::empty();
        assert(done + Seq::<u8>::empty() =~= done);
        loop
            invariant
                len == s.len() == self.input@.len(),
                s == old(self).input@,
                self.index == start,
                start == old(self).index,
                start <= dest <= index <= len,
                dest - start == done.len(),
                self.input@.subrange(start as int, dest as int) == done,
                self.input@.skip(index as int) == s.skip(index as int),
                spec_unescape(s, start as int) == prepend(done, spec_unescape(s, index as int)),
                self.input@.take(start as int) == s.take(start as int),
                final(self.input_ref())@ == final(old(self).input_ref())@,
            decreases len - index,
        {
            if index >= len {
                return Err(Error::UnexpectedEof);
            }
            let ghost pre = self.input@;
            let ghost i0 = index as int;
            let ghost d0 = dest as int;
            let c = self.input[index];
            proof { lemma_skip_eq(pre, s, index as int, 0); }
            if c == 0x22 {
                proof {
                    assert(done + Seq::<u8>::empty() =~= done);
                    self.lemma_input_len();
                }
                let ghost mid = self.input@;
                let r = self.split_input(dest - start, index + 1 - dest);
                proof {
                    let junk = mid.subrange(dest as int, index + 1);
                    assert(mid.subrange(start as int, dest as int) == done);
                    lemma_unescape_bounds(s, start as int);
                    assert(final(r)@ == r@);
                    assert(mid.take(start as int) == s.take(start as int));
                    assert(s.take(start as int) + done + junk + final(self.input_ref())@ == final(old(self).input_ref())@);
                    assert(spec_unescape(s, index as int) == Ok::<(Seq<u8>, int), Error>((Seq::empty(), index + 1)));
                    assert(spec_unescape(s, start as int) == Ok::<(Seq<u8>, int), Error>((done, index + 1)));
                    assert(junk.len() == index + 1 - start - done.len());
                    assert(s.take(start as int) + done + junk + final(self.input_ref())@ == final(old(self).input_ref())@
                        && junk.len() == index + 1 - start - done.len());
                    assert(exists|j: Seq<u8>|
                        j.len() == index + 1 - start - done.len()
                        && #[trigger] (s.take(start as int) + done + j + final(self.input_ref())@)
                            == final(old(self).input_ref())@);
                    assert(self.input@ =~= s.skip(index + 1)) by {
                        assert forall|j: int| 0 <= j < s.len() - (index + 1) implies self.input@[j] == s.skip(index + 1)[j] by {
                            lemma_skip_eq(pre, s, index as int, j + 1);
                        }
                    }
                }
                return Ok(r);
            }
            if c <= 0x1f {
                return Err(Error::StringControlChar);
            }
            let ghost piece: Seq<u8>;
            let ghost next: int;
            if c == 0x5c {
                if index + 1 >= len {
                    return Err(Error::UnexpectedEof);
                }
                let e = self.input[index + 1];
                proof { lemma_skip_eq(pre, s, index as int, 1); }
                if e == 0x22 || e == 0x5c || e == 0x2f {
                    self.input[dest] = e;
                    proof {
                        assert(self.input@ =~= pre.take(d0) + seq![e] + pre.skip(d0 + 1));
                        piece = seq![e];
                        next = index + 2;
                    }
                    dest += 1;
                    index += 2;
                } else if 0x62 <= e && e <= 0x74 {
                    let u = unescape_code(e);
                    if u == 0 {
                        return Err(Error::InvalidEscapeSequence);
                    }
                    self.input[dest] = u;
                    proof {
                        assert(self.input@ =~= pre.take(d0) + seq![u] + pre.skip(d0 + 1));
                        piece = seq![u];
                        next = index + 2;
                    }
                    dest += 1;
                    index += 2;
                } else if e == 0x75 {
                    if len - index < 6 {
                        return Err(Error::UnexpectedEof);
                    }
                    let h = [self.input[index + 2], self.input[index + 3], self.input[index + 4], self.input[index + 5]];
                    proof {
                        assert(h@ =~= s.subrange(index + 2, index + 6)) by {
                            assert forall|j: int| 0 <= j < 4 implies h@[j] == s.subrange(index + 2, index + 6)[j] by {
                                lemma_skip_eq(pre, s, index as int, j + 2);
                            }
                        }
                    }
                    let code = match parse_uuuu(h) {
                        Some(code) => code,
                        None => return Err(Error::InvalidEscapeSequence),
                    };
                    if !crate::text::is_scalar_value(code) {
                        return Err(Error::InvalidUnicodeCodePoint);
                    }
                    let (bytes, n) = encode_code(code);
                    self.write_at(dest, bytes, n);
                    proof {
                        assert(self.input@ =~= pre.take(d0) + encode_scalar(code) + pre.skip(d0 + n));
                        piece = encode_scalar(code);
                        next = index + 6;
                    }
                    dest += n;
                    index += 6;
                } else {
                    return Err(Error::InvalidEscapeSequence);
                }
            } else {
                self.input[dest] = c;
                proof {
                    assert(self.input@ =~= pre.take(d0) + seq![c] + pre.skip(d0 + 1));
                    piece = seq![c];
                    next = index + 1;
                }
                dest += 1;
                index += 1;
            }
            proof {
                assert(spec_unescape(s, i0) == prepend(piece, spec_unescape(s, next)));
                lemma_prepend_assoc(done, piece, spec_unescape(s, next));
                lemma_unescape_step(s, pre, self.input@, start as int, d0, i0, next, done, piece);
                done = done + piece;
            }
        }
    }
}

impl<'de, P> Deserializer<'de, P> {
    /// Parse a string until a closing `'"'` is found, return a decoded `str` slice.
    ///
    /// Handles escape sequences using in-place copy, call after consuming an opening `'"'`
    pub fn parse_str_content(&mut self) -> (r: Result<&'de str>)
        ensures
            match spec_unescape(old(self).input_seq(), old(self).cursor()) {
                Ok((b, e)) => final(self).input_seq() == old(self).input_seq().skip(e) && final(self).cursor() == 0
                    && if vstd::utf8::valid_utf8(b) {
                        r matches Ok(v) && v.spec_bytes() == b
                    } else {
                        r == Err::<&str, Error>(Error::InvalidUnicodeCodePoint)
                    },
                Err(err) => r == Err::<&str, Error>(err) && final(self).cursor() == old(self).cursor()
                    && final(self).input_seq().len() == old(self).input_seq().len(),
            },
    {
        let bytes = self.parse_str_bytes_content()?;
        match str_from_utf8(bytes) {
            Ok(s) => Ok(s),
            Err(_) => Err(Error::InvalidUnicodeCodePoint),
        }
    }

    /// Parse a string as pairs of hexadecimal nibbles until a closing `'"'` is found.
    /// Return decoded in-place binary data on success.
    ///
    /// Call after consuming an opening `'"'`.
    pub fn parse_hex_bytes_content(&mut self) -> (r: Result<&'de [u8]>)
        ensures
            !old(self).in_bounds() ==> (r matches Err(x) && x == Error::UnexpectedEof && final(self).cursor() == old(self).cursor()),
            old(self).in_bounds() ==> match spec_hex_content(old(self).rest(), 0) {
                Ok((b, e)) => r matches Ok(v) && v@ == b && final(self).input_seq() == old(self).rest().skip(e)
                    && final(self).cursor() == 0,
                Err(err) => r matches Err(x) && x == err && final(self).cursor() == old(self).cursor()
                    && final(self).input_seq().len() == old(self).input_seq().len(),
            },
    {
        let len = self.input.len();
        let start = self.index;
        if start > len {
            return Err(Error::UnexpectedEof);
        }
        let ghost s = self.input@;
        let ghost t = self.rest();
        let mut count: usize = 0;
        let ghost mut done: Seq<u8> = Seq::empty();
        assert(done + Seq::<u8>::empty() =~= done);
        assert(t.skip(0) =~= t);
        loop
            invariant
                len == s.len() == self.input@.len(),
                s == old(self).input@,
                t == s.skip(start as int),
                self.index == start,
                start == old(self).index,
                start <= len,
                start + 2 * count <= len,
                count == done.len(),
                self.input@.subrange(start as int, start + count) == done,
                self.input@.skip(start + 2 * count) == s.skip(start + 2 * count),
                spec_hex_content(t, 0) == prepend(done, spec_hex_content(t, 2 * count as int)),
            decreases len - start - 2 * count,
        {
            let pos = start + 2 * count;
            let ghost pre = self.input@;
            if pos >= len {
                return Err(Error::UnexpectedEof);
            }
            let a = self.input[pos];
            proof {
                lemma_skip_eq(pre, s, pos as int, 0);
                assert(t[2 * count as int] == s[pos as int]);
            }
            if pos + 1 >= len {
                if a == 0x22 {
                    proof { self.lemma_input_len(); }
                    let r = self.split_input(count, count + 1);
                    proof { lemma_split_done(s, pre, self.input@, start as int, count as int, done); }
                    return Ok(r);
                }
                return Err(Error::UnexpectedChar);
            }
            let b = self.input[pos + 1];
            proof {
                lemma_skip_eq(pre, s, pos as int, 1);
                assert(t[2 * count + 1] == s[pos + 1]);
            }
            match parse_hex_nib(a) {
                Some(n) => match parse_hex_nib(b) {
                    Some(m) => {
                        self.input[start + count] = n * 16 + m;
                        proof {
                            let piece = seq![(n * 16 + m) as u8];
                            assert(self.input@ =~= pre.take(start + count) + piece + pre.skip(start + count + 1));
                            lemma_prepend_assoc(done, piece, spec_hex_content(t, 2 * count + 2));
                            lemma_unescape_step(s, pre, self.input@, start as int, start + count, pos as int, pos + 2, done, piece);
                            done = done + piece;
                        }
                        count += 1;
                    },
                    None => return Err(Error::UnexpectedChar),
                },
                None => {
                    if a == 0x22 {
                        proof { self.lemma_input_len(); }
                        let r = self.split_input(count, count + 1);
                        proof { lemma_split_done(s, pre, self.input@, start as int, count as int, done); }
                        return Ok(r);
                    }
                    return Err(Error::UnexpectedChar);
                },
            }
        }
    }
}

/// The state after splitting off `count` decoded bytes and the `count + 1`
/// bytes that followed them.
proof fn lemma_split_done(s: Seq<u8>, pre: Seq<u8>, post: Seq<u8>, start: int, count: int, done: Seq<u8>)
    requires
        0 <= start,
        0 <= count,
        start + 2 * count < s.len(),
        pre.len() == s.len(),
        pre.skip(start + 2 * count) == s.skip(start + 2 * count),
        post == pre.skip(start + 2 * count + 1),
    ensures
        post == s.skip(start).skip(2 * count + 1),
        done + Seq::<u8>::empty() == done,
{
    assert(post =~= s.skip(start).skip(2 * count + 1)) by {
        assert forall|j: int| 0 <= j < post.len() implies post[j] == s.skip(start).skip(2 * count + 1)[j] by {
            lemma_skip_eq(pre, s, start + 2 * count, j + 1);
        }
    }
    assert(done + Seq::<u8>::empty() =~= done);
}

impl<'de, P> Deserializer<'de, P> {
    /// Parse a string as BASE-64 encoded bytes until a closing '"' is found.
    /// Return decoded in-place binary data on success.
    ///
    /// Call after consuming an opening `'"'`.
    #[verifier::rlimit(40)]
    pub fn parse_base64_bytes_content(&mut self) -> (r: Result<&'de [u8]>)
        ensures
            !old(self).in_bounds() ==> (r matches Err(x) && x == Error::UnexpectedEof && final(self).cursor() == old(self).cursor()),
            old(self).in_bounds() ==> match spec_base64_content(old(self).rest()) {
                Ok((b, e)) => r matches Ok(v) && v@ == b && final(self).input_seq() == old(self).rest().skip(e)
                    && final(self).cursor() == 0,
                Err(err) => r matches Err(x) && x == err && final(self).cursor() == old(self).cursor()
                    && final(self).input_seq().len() == old(self).input_seq().len(),
            },
    {
        let len = self.input.len();
        let start = self.index;
        if start > len {
            return Err(Error::UnexpectedEof);
        }
        let ghost s = self.input@;
        let ghost t = self.rest();
        let decoded = match self.input_mut() {
            Ok(input) => base64::decode(input),
            Err(e) => return Err(e),
        };
        let ghost after = self.input@;
        let (dlen, elen) = match decoded {
            Some(lens) => lens,
            None => {
                proof {
                    lemma_run_len(t, code_pred(), t.len() as int);
                    base64::lemma_decode_len(t.take(4 * (t.len() / 4) as int));
                }
                return Err(Error::UnexpectedEof);
            },
        };
        proof {
            lemma_run_len(t, code_pred(), elen as int);
            base64::lemma_decode_len(t.take(elen as int));
            assert(after == s.take(start as int) + base64::spec_decode(t.take(elen as int)) + t.skip(dlen as int));
            assert(after.len() == len);
        }
        let mut end = start + elen;
        let c = self.input[end];
        proof {
            assert(c == t[elen as int]);
        }
        if c == 0x3d {
            let mut p = end + 1;
            while p < len && self.input[p] == 0x3d
                invariant
                    self.input@ == after,
                    after.len() == len,
                    start + elen + 1 <= p <= len,
                    forall|j: int| start + elen + 1 <= j < p ==> after[j] == 0x3d,
                decreases len - p,
            {
                p += 1;
            }
            proof {
                let u = t.skip(elen + 1);
                assert forall|j: int| 0 <= j < p - (start + elen + 1) implies pad_pred()(#[trigger] u[j]) by {
                    assert(u[j] == after[start + elen + 1 + j]);
                }
                if p < len {
                    assert(u[p - (start + elen + 1)] == after[p as int]);
                }
                lemma_run_len(u, pad_pred(), p - (start + elen + 1));
            }
            if p >= len {
                return Err(Error::UnexpectedEof);
            }
            if self.input[p] != 0x22 {
                return Err(Error::UnexpectedChar);
            }
            end = p;
        } else if c != 0x22 {
            return Err(Error::UnexpectedChar);
        }
        proof {
            self.lemma_input_len();
            assert(base64::spec_decode(t.take(elen as int)).len() == dlen);
        }
        let r = self.split_input(dlen, end + 1 - start - dlen);
        proof {
            assert(r@ =~= base64::spec_decode(t.take(elen as int)));
            assert(self.input@ =~= t.skip(end + 1 - start));
        }
        Ok(r)
    }
}

impl<'de, P> Deserializer<'de, P> {
    /// Parse an array of numbers that fit in a byte, after its opening `'['`,
    /// until the closing `']'`. Return the bytes, written in place.
    #[verifier::rlimit(40)]
    pub fn parse_array_bytes_content(&mut self) -> (r: Result<&'de [u8]>)
        requires
            old(self).in_bounds(),
        ensures
            match spec_array_bytes(old(self).input_seq(), old(self).cursor()) {
                Ok((b, e)) => r matches Ok(v) && v@ == b && final(self).input_seq() == old(self).input_seq().skip(e)
                    && final(self).cursor() == 0,
                Err(err) => r matches Err(x) && x == err && final(self).input_seq().len() == old(self).input_seq().len(),
            },
    {
        let ghost s = self.input@;
        let ghost c0 = self.index as int;
        proof {
            self.lemma_input_len();
            lemma_run_len_bound(self.rest(), ws_pred());
        }
        if 0x5d == self.eat_whitespace()? {
            return Ok(self.split_input(0, 1));
        }
        let start = self.index;
        let mut index = start;
        let ghost mut done: Seq<u8> = Seq::empty();
        proof {
            assert(done + Seq::<u8>::empty() =~= done);
            assert(spec_array_bytes(s, c0) == prepend(done, spec_byte_list(s, start as int)));
        }
        loop
            invariant_except_break
                self.input@.len() == s.len(),
                s == old(self).input@,
                c0 == old(self).index,
                start <= index <= self.index <= s.len(),
                index - start == done.len(),
                self.input@.subrange(start as int, index as int) == done,
                self.input@.skip(self.index as int) == s.skip(self.index as int),
                spec_array_bytes(s, c0) == prepend(done, spec_byte_list(s, self.index as int)),
            ensures
                self.input@.len() == s.len(),
                c0 == old(self).index,
                start < index <= self.index < s.len(),
                self.input@.subrange(start as int, index as int) == done,
                self.input@.skip(self.index as int) == s.skip(self.index as int),
                spec_array_bytes(s, c0) == Ok::<(Seq<u8>, int), Error>((done, self.index + 1)),
            decreases s.len() - self.index,
        {
            let ghost i = self.index as int;
            proof {
                assert(self.rest() == s.skip(i));
            }
            let byte: u8 = match self.parse_unsigned() {
                Ok(b) => b,
                Err(e) => {
                    proof {
                        let (res, k) = spec_unsigned(s.skip(i), 0, 0xff);
                        assert(res == Err::<int, Error>(e));
                        assert(spec_byte_list(s, i) == Err::<(Seq<u8>, int), Error>(e));
                    }
                    return Err(e);
                },
            };
            let ghost pre = self.input@;
            proof {
                let (res, k) = spec_unsigned(s.skip(i), 0, 0xff);
                assert(k >= 1);
                lemma_skip_later(pre, s, i, self.index as int);
            }
            self.input[index] = byte;
            index += 1;
            proof {
                assert(self.input@.subrange(start as int, index as int) =~= done + seq![byte]);
                assert(self.input@.skip(self.index as int) =~= s.skip(self.index as int)) by {
                    assert forall|j: int| 0 <= j < s.len() - self.index implies self.input@.skip(self.index as int)[j] == s.skip(self.index as int)[j] by {
                        lemma_skip_eq(pre, s, self.index as int, j);
                    }
                }
                lemma_run_len_bound(self.rest(), ws_pred());
            }
            let ghost j = self.index as int;
            let sep = self.eat_whitespace()?;
            proof {
                lemma_skip_later(self.input@, s, j, self.index as int);
                lemma_prepend_assoc(done, seq![byte], spec_byte_list(s, self.index + 1));
                done = done + seq![byte];
            }
            if sep == 0x2c {
                self.eat_some(1);
                proof { lemma_skip_later(self.input@, s, j, self.index as int); }
            } else if sep == 0x5d {
                break;
            } else {
                return Err(Error::UnexpectedChar);
            }
        }
        proof { lemma_skip_later(self.input@, s, self.index as int, self.index + 1); }
        let offs = self.index + 1 - index;
        self.index = start;
        let r = self.split_input(index - start, offs);
        proof {
            assert(r@ =~= done);
        }
        Ok(r)
    }
}

/// Auxiliary trait for objects implementing string to bytes decoding.
pub trait StringByteDecoder<'de>: Sized {
    /// What is decoded from the string that goes on at the start of `t`: the
    /// bytes and the position after the closing `"`.
    spec fn decoded(t: Seq<u8>) -> Result<(Seq<u8>, int)>;

    /// Should decode bytes from the JSON string after the opening `b'"'`
    /// has been consumed and until the closing `b'"'` is found in the input slice.
    ///
    /// A decoded byte slice must fit in place where the encoded string originaly was.
    fn decode_string_to_bytes(de: &mut Deserializer<'de, Self>) -> (r: Result<&'de [u8]>)
        requires
            old(de).in_bounds(),
        ensures
            match Self::decoded(old(de).rest()) {
                Ok((b, e)) => r matches Ok(v) && v@ == b && final(de).input_seq() == old(de).rest().skip(e)
                    && final(de).cursor() == 0,
                Err(err) => r matches Err(x) && x == err && final(de).input_seq().len() == old(de).input_seq().len(),
            },
    ;
}

impl<'de> StringByteDecoder<'de> for StringByteNopeDecoder {
    open spec fn decoded(t: Seq<u8>) -> Result<(Seq<u8>, int)> {
        spec_unescape(t, 0)
    }

    fn decode_string_to_bytes(de: &mut Deserializer<'de, Self>) -> (r: Result<&'de [u8]>) {
        let ghost before = de.input_seq();
        let ghost c = de.cursor();
        proof {
            lemma_unescape_shift(before, c);
            lemma_unescape_bounds(before.skip(c), 0);
        }
        let r = de.parse_str_bytes_content();
        proof {
            match spec_unescape(before.skip(c), 0) {
                Ok((b, e)) => {
                    assert(before.skip(c).skip(e) =~= before.skip(e + c));
                },
                Err(_) => {},
            }
        }
        r
    }
}

impl<'de> StringByteDecoder<'de> for StringByteHexDecoder {
    open spec fn decoded(t: Seq<u8>) -> Result<(Seq<u8>, int)> {
        spec_hex_content(t, 0)
    }

    fn decode_string_to_bytes(de: &mut Deserializer<'de, Self>) -> (r: Result<&'de [u8]>) {
        de.parse_hex_bytes_content()
    }
}

impl<'de> StringByteDecoder<'de> for StringByteBase64Decoder {
    open spec fn decoded(t: Seq<u8>) -> Result<(Seq<u8>, int)> {
        spec_base64_content(t)
    }

    fn decode_string_to_bytes(de: &mut Deserializer<'de, Self>) -> (r: Result<&'de [u8]>) {
        de.parse_base64_bytes_content()
    }
}

/// Whether a byte may stand in the text of a JSON number.
fn number_byte(b: u8) -> (r: bool)
    ensures
        r == is_number_char(b),
{
    (0x30 <= b && b <= 0x39) || b == 0x2b || b == 0x2d || b == 0x2e || b == 0x65 || b == 0x45
}

/// The decimal value of the digits of `t` from position `from` on, added
/// (or, if `neg`, taken) digit by digit, if they are all digits, there is at
/// least one, and the value lies in `min..=max`.
fn decimal_value(t: &[u8], from: usize, neg: bool, min: i128, max: i128) -> (r: Option<i128>)
    requires
        from <= t@.len(),
        -0x1_0000_0000_0000_0000 <= min <= 0 <= max <= 0x1_0000_0000_0000_0000,
    ensures
        ({
            let d = t@.skip(from as int);
            if d.len() > 0 && all_digits(d) && min <= dec_fold(0, d, neg) <= max {
                r == Some(dec_fold(0, d, neg) as i128)
            } else {
                r is None
            }
        }),
{
    let ghost d = t@.skip(from as int);
    let len = t.len();
    if from >= len {
        return None;
    }
    let mut acc: i128 = 0;
    let mut i = from;
    while i < len
        invariant
            len == t@.len(),
            from <= i <= len,
            -0x1_0000_0000_0000_0000 <= min <= 0 <= max <= 0x1_0000_0000_0000_0000,
            d == t@.skip(from as int),
            all_digits(d.take(i - from)),
            acc == dec_fold(0, d.take(i - from), neg),
            min <= acc <= max,
        decreases len - i,
    {
        let c = t[i];
        if !(0x30 <= c && c <= 0x39) {
            proof {
                assert(d[i - from] == c);
                assert(!all_digits(d));
            }
            return None;
        }
        let digit = (c - 0x30) as i128;
        proof {
            assert(d.take(i + 1 - from).drop_last() =~= d.take(i - from));
            assert(d.take(i + 1 - from).last() == c);
            assert(all_digits(d.take(i + 1 - from))) by {
                assert forall|j: int| 0 <= j < i + 1 - from implies is_digit(#[trigger] d.take(i + 1 - from)[j]) by {
                    if j < i - from {
                        assert(d.take(i + 1 - from)[j] == d.take(i - from)[j]);
                    }
                }
            }
        }
        let next = if neg { acc * 10 - digit } else { acc * 10 + digit };
        if next < min || next > max {
            proof {
                lemma_dec_fold_sign(0, d.take(i - from), neg);
                if all_digits(d) {
                    lemma_dec_fold_mono(0, d, i + 1 - from, neg);
                }
            }
            return None;
        }
        acc = next;
        i += 1;
    }
    proof {
        assert(d.take(i - from) =~= d);
    }
    Some(acc)
}

impl<'de, P> Deserializer<'de, P> {
    /// Return a slice containing only number characters: `0..=9` and `+-.eE`
    pub fn match_float(&self) -> (r: &[u8])
        requires
            self.in_bounds(),
        ensures
            r@ == self.rest().take(run_len(self.rest(), number_pred()) as int),
    {
        let ghost t = self.rest();
        let len = self.input.len();
        let mut i = self.index;
        while i < len && number_byte(self.input[i])
            invariant
                len == self.input@.len(),
                self.index <= i <= len,
                t == self.input@.skip(self.index as int),
                forall|j: int| 0 <= j < i - self.index ==> is_number_char(#[trigger] t[j]),
            decreases len - i,
        {
            proof {
                assert(t[i - self.index] == self.input@[i as int]);
            }
            i += 1;
        }
        proof {
            if i < len {
                assert(t[i - self.index] == self.input@[i as int]);
            }
            lemma_run_len(t, number_pred(), i - self.index);
        }
        let r = vstd::slice::slice_subrange(&*self.input, self.index, i);
        assert(r@ =~= t.take(i - self.index));
        r
    }

    /// Simple heuristics to decide float or integer: read an integer, or
    /// leave the text of a float for a float parser.
    ///
    /// Call this method ONLY after ensuring the peek character is `'0'..='9'|'-'`.
    pub fn parse_float_or_int(&mut self, peek: u8) -> (r: Result<AnyNumber>)
        requires
            old(self).cursor() < old(self).input_seq().len(),
            peek == old(self).input_seq()[old(self).cursor()],
            is_digit(peek) || peek == 0x2d,
        ensures
            final(self).input_seq() == old(self).input_seq(),
            ({
                let n = run_len(old(self).rest(), number_pred()) as int;
                let res = spec_any_number(old(self).rest().take(n), peek);
                &&& r == res
                &&& (r matches Ok(v) && !(v is Float)) ==> final(self).cursor() == old(self).cursor() + n
                &&& (r is Err || r matches Ok(AnyNumber::Float(_))) ==> final(self).cursor() == old(self).cursor()
            }),
    {
        let token = self.match_float();
        let len = token.len();
        let mut is_float = false;
        let mut i: usize = 0;
        while i < len
            invariant
                len == token@.len(),
                i <= len,
                is_float <==> exists|j: int| 0 <= j < i && (token@[j] == 0x2e || token@[j] == 0x65 || token@[j] == 0x45),
            decreases len - i,
        {
            let b = token[i];
            if b == 0x2e || b == 0x65 || b == 0x45 {
                is_float = true;
            }
            i += 1;
        }
        proof {
            assert(self.rest()[0] == peek);
            assert(number_pred()(self.rest()[0]));
            lemma_run_len_mono(self.rest(), number_pred(), 1);
            lemma_run_len_bound(self.rest(), number_pred());
            assert(token@.len() >= 1);
            let d1 = token@.skip(1);
            if all_digits(d1) {
                lemma_dec_fold_sign(0, d1, true);
            }
            if all_digits(token@.skip(0)) {
                lemma_dec_fold_sign(0, token@.skip(0), false);
            }
            assert(token@.skip(0) =~= token@);
        }
        if is_float {
            return Ok(AnyNumber::Float(len));
        }
        let num = if peek == 0x2d {
            match decimal_value(token, 1, true, i64::MIN as i128, 0) {
                Some(v) => AnyNumber::NegInt(v as i64),
                None => return Err(Error::InvalidNumber),
            }
        } else {
            match decimal_value(token, 0, false, 0, u64::MAX as i128) {
                Some(v) => AnyNumber::PosInt(v as u64),
                None => return Err(Error::InvalidNumber),
            }
        };
        proof {
            self.lemma_input_len();
            lemma_run_len_bound(self.rest(), number_pred());
            assert(token@.skip(0) =~= token@);
        }
        self.eat_some(len);
        Ok(num)
    }

    /// Read a JSON boolean after whitespace.
    pub fn parse_bool(&mut self) -> (r: Result<bool>)
        requires
            old(self).in_bounds(),
        ensures
            final(self).input_seq() == old(self).input_seq(),
            final(self).in_bounds(),
            ({
                let t = old(self).rest();
                let w = run_len(t, ws_pred()) as int;
                &&& w >= t.len() ==> r == Err::<bool, Error>(Error::UnexpectedEof)
                &&& w < t.len() && t[w] == 0x74 ==> token_read(t, w + 1, seq![0x72u8, 0x75, 0x65], true, r)
                    && (r is Ok ==> final(self).cursor() == old(self).cursor() + w + 4)
                &&& w < t.len() && t[w] == 0x66 ==> token_read(t, w + 1, seq![0x61u8, 0x6c, 0x73, 0x65], false, r)
                    && (r is Ok ==> final(self).cursor() == old(self).cursor() + w + 5)
                &&& w < t.len() && t[w] != 0x74 && t[w] != 0x66 ==> r == Err::<bool, Error>(Error::UnexpectedChar)
            }),
    {
        let ghost t = self.rest();
        proof {
            self.lemma_input_len();
            lemma_run_len_bound(t, ws_pred());
        }
        let peek = self.eat_whitespace()?;
        let ghost w = run_len(t, ws_pred()) as int;
        if peek == 0x74 {
            self.eat_some(1);
            let token = [0x72u8, 0x75, 0x65];
            let r = self.parse_token_content(token.as_slice());
            proof { lemma_token_at(t, old(self).cursor(), w + 1, old(self).input_seq(), token@); }
            r?;
            Ok(true)
        } else if peek == 0x66 {
            self.eat_some(1);
            let token = [0x61u8, 0x6c, 0x73, 0x65];
            let r = self.parse_token_content(token.as_slice());
            proof { lemma_token_at(t, old(self).cursor(), w + 1, old(self).input_seq(), token@); }
            r?;
            Ok(false)
        } else {
            Err(Error::UnexpectedChar)
        }
    }

    /// Read a JSON `null` after whitespace.
    pub fn parse_null(&mut self) -> (r: Result<()>)
        requires
            old(self).in_bounds(),
        ensures
            final(self).input_seq() == old(self).input_seq(),
            final(self).in_bounds(),
            ({
                let t = old(self).rest();
                let w = run_len(t, ws_pred()) as int;
                &&& w >= t.len() ==> r == Err::<(), Error>(Error::UnexpectedEof)
                &&& w < t.len() && t[w] == 0x6e ==> token_read(t, w + 1, seq![0x75u8, 0x6c, 0x6c], (), r)
                    && (r is Ok ==> final(self).cursor() == old(self).cursor() + w + 4)
                &&& w < t.len() && t[w] != 0x6e ==> r == Err::<(), Error>(Error::ExpectedNull)
            }),
    {
        let ghost t = self.rest();
        proof {
            self.lemma_input_len();
            lemma_run_len_bound(t, ws_pred());
        }
        let peek = self.eat_whitespace()?;
        let ghost w = run_len(t, ws_pred()) as int;
        if peek == 0x6e {
            self.eat_some(1);
            let token = [0x75u8, 0x6c, 0x6c];
            let r = self.parse_token_content(token.as_slice());
            proof { lemma_token_at(t, old(self).cursor(), w + 1, old(self).input_seq(), token@); }
            r?;
            Ok(())
        } else {
            Err(Error::ExpectedNull)
        }
    }
}

/// Reader of the comma separated items of a JSON array or object.
pub struct CommaSeparated<'a, 'de, P> {
    de: &'a mut Deserializer<'de, P>,
    first: bool,
}

impl<'a, 'de, P> CommaSeparated<'a, 'de, P> {
    /// The reference to the deserializer that reads the items.
    pub closed spec fn target(&self) -> &'a mut Deserializer<'de, P> {
        self.de
    }

    /// Whether no item has been started yet.
    pub closed spec fn is_first(&self) -> bool {
        self.first
    }

    /// Start reading the items that follow the opening bracket.
    pub fn new(de: &'a mut Deserializer<'de, P>) -> (r: Self)
        ensures
            *r.target() == *old(de),
            *final(de) == *final(r.target()),
            r.is_first(),
    {
        CommaSeparated { de, first: true }
    }

    /// Provide access to the deserializer that reads the items.
    pub fn deserializer(&mut self) -> (r: &mut Deserializer<'de, P>)
        ensures
            *r == *old(self).target(),
            *final(self).target() == *final(r),
            final(self).is_first() == old(self).is_first(),
    {
        &mut *self.de
    }

    /// Start the next element of an array: whether one follows, or the
    /// closing `]` comes. The element itself, or the `]`, is left unread.
    pub fn next_element(&mut self) -> (r: Result<bool>)
        requires
            old(self).target().in_bounds(),
        ensures
            final(self).target().input_seq() == old(self).target().input_seq(),
            final(self).target().in_bounds(),
            ({
                let (res, k) = spec_next_element(old(self).target().rest(), old(self).is_first());
                &&& r == res
                &&& r is Ok ==> final(self).target().cursor() == old(self).target().cursor() + k
                &&& final(self).is_first() == (old(self).is_first() && !(r == Ok::<bool, Error>(true)))
            }),
    {
        let ghost t = self.de.rest();
        proof {
            self.de.lemma_input_len();
            lemma_run_len_bound(t, ws_pred());
        }
        let c = self.de.eat_whitespace()?;
        let ghost w = run_len(t, ws_pred()) as int;
        if c == 0x5d {
            Ok(false)
        } else if c == 0x2c {
            if self.first {
                return Err(Error::LeadingArrayComma);
            }
            self.de.eat_some(1);
            proof {
                assert(self.de.rest() =~= t.skip(w + 1));
                lemma_run_len_bound(t.skip(w + 1), ws_pred());
            }
            if 0x5d == self.de.eat_whitespace()? {
                Err(Error::TrailingArrayComma)
            } else {
                Ok(true)
            }
        } else if self.first {
            self.first = false;
            Ok(true)
        } else {
            Err(Error::ExpectedArrayCommaOrEnd)
        }
    }

    /// Start the next entry of an object: whether a key follows, or the
    /// closing `}` comes. The key, or the `}`, is left unread.
    pub fn next_key(&mut self) -> (r: Result<bool>)
        requires
            old(self).target().in_bounds(),
        ensures
            final(self).target().input_seq() == old(self).target().input_seq(),
            final(self).target().in_bounds(),
            ({
                let (res, k) = spec_next_key(old(self).target().rest(), old(self).is_first());
                &&& r == res
                &&& r is Ok ==> final(self).target().cursor() == old(self).target().cursor() + k
                &&& final(self).is_first() == (old(self).is_first() && (old(self).target().rest().len() <= run_len(old(self).target().rest(), ws_pred())
                    || old(self).target().rest()[run_len(old(self).target().rest(), ws_pred()) as int] == 0x7d
                    || old(self).target().rest()[run_len(old(self).target().rest(), ws_pred()) as int] == 0x2c))
            }),
    {
        let ghost t = self.de.rest();
        proof {
            self.de.lemma_input_len();
            lemma_run_len_bound(t, ws_pred());
        }
        let c = self.de.eat_whitespace()?;
        let ghost w = run_len(t, ws_pred()) as int;
        let peek = if c == 0x7d {
            return Ok(false);
        } else if c == 0x2c {
            if self.first {
                return Err(Error::LeadingObjectComma);
            }
            self.de.eat_some(1);
            proof {
                assert(self.de.rest() =~= t.skip(w + 1));
                lemma_run_len_bound(t.skip(w + 1), ws_pred());
            }
            let ch = self.de.eat_whitespace()?;
            if ch == 0x7d {
                return Err(Error::TrailingObjectComma);
            }
            ch
        } else if self.first {
            self.first = false;
            c
        } else {
            return Err(Error::ExpectedObjectCommaOrEnd);
        };
        if peek == 0x22 {
            Ok(true)
        } else {
            Err(Error::KeyMustBeAString)
        }
    }
}

impl<'de, P> Deserializer<'de, P> {
    /// Read a JSON string after whitespace, unescaped in place.
    pub fn parse_str(&mut self) -> (r: Result<&'de str>)
        requires
            old(self).in_bounds(),
        ensures
            ({
                let s = old(self).input_seq();
                let c = old(self).cursor();
                let t = old(self).rest();
                let w = run_len(t, ws_pred()) as int;
                &&& w >= t.len() ==> r == Err::<&str, Error>(Error::UnexpectedEof)
                &&& w < t.len() && t[w] != 0x22 ==> r == Err::<&str, Error>(Error::ExpectedString)
                &&& w < t.len() && t[w] == 0x22 ==> match spec_unescape(s, c + w + 1) {
                    Ok((b, e)) => final(self).input_seq() == s.skip(e) && final(self).cursor() == 0
                        && if vstd::utf8::valid_utf8(b) {
                            r matches Ok(v) && v.spec_bytes() == b
                        } else {
                            r == Err::<&str, Error>(Error::InvalidUnicodeCodePoint)
                        },
                    Err(err) => r == Err::<&str, Error>(err),
                }
            }),
    {
        proof {
            self.lemma_input_len();
            lemma_run_len_bound(self.rest(), ws_pred());
        }
        if 0x22 == self.eat_whitespace()? {
            self.eat_some(1);
            self.parse_str_content()
        } else {
            Err(Error::ExpectedString)
        }
    }

    /// Read a JSON string holding exactly one character after whitespace.
    pub fn parse_char(&mut self) -> (r: Result<char>)
        requires
            old(self).in_bounds(),
        ensures
            ({
                let s = old(self).input_seq();
                let c = old(self).cursor();
                let t = old(self).rest();
                let w = run_len(t, ws_pred()) as int;
                &&& w >= t.len() ==> r == Err::<char, Error>(Error::UnexpectedEof)
                &&& w < t.len() && t[w] != 0x22 ==> r == Err::<char, Error>(Error::ExpectedString)
                &&& w < t.len() && t[w] == 0x22 ==> match spec_unescape(s, c + w + 1) {
                    Ok((b, e)) => if !vstd::utf8::valid_utf8(b) {
                        r == Err::<char, Error>(Error::InvalidUnicodeCodePoint)
                    } else if vstd::utf8::decode_utf8(b).len() == 1 {
                        r == Ok::<char, Error>(vstd::utf8::decode_utf8(b)[0])
                    } else {
                        r == Err::<char, Error>(Error::InvalidLength)
                    },
                    Err(err) => r == Err::<char, Error>(err),
                }
            }),
    {
        let s = self.parse_str()?;
        proof { vstd::utf8::encode_utf8_decode_utf8(s@); }
        match crate::text::char_from_str(s) {
            Some(c) => Ok(c),
            None => Err(Error::InvalidLength),
        }
    }

    /// Read bytes after whitespace: from a string, decoded as `P` does, or
    /// from an array of numbers.
    pub fn parse_bytes(&mut self) -> (r: Result<&'de [u8]>)
        where P: StringByteDecoder<'de>,
        requires
            old(self).in_bounds(),
        ensures
            ({
                let s = old(self).input_seq();
                let c = old(self).cursor();
                let t = old(self).rest();
                let w = run_len(t, ws_pred()) as int;
                &&& w >= t.len() ==> r == Err::<&[u8], Error>(Error::UnexpectedEof)
                &&& w < t.len() && t[w] != 0x22 && t[w] != 0x5b ==> r == Err::<&[u8], Error>(Error::UnexpectedChar)
                &&& w < t.len() && t[w] == 0x22 ==> match P::decoded(t.skip(w + 1)) {
                    Ok((b, e)) => r matches Ok(v) && v@ == b && final(self).input_seq() == t.skip(w + 1).skip(e)
                        && final(self).cursor() == 0,
                    Err(err) => r matches Err(x) && x == err,
                }
                &&& w < t.len() && t[w] == 0x5b ==> match spec_array_bytes(s, c + w + 1) {
                    Ok((b, e)) => r matches Ok(v) && v@ == b && final(self).input_seq() == s.skip(e)
                        && final(self).cursor() == 0,
                    Err(err) => r matches Err(x) && x == err,
                }
            }),
    {
        let ghost t = self.rest();
        proof {
            self.lemma_input_len();
            lemma_run_len_bound(t, ws_pred());
        }
        let c = self.eat_whitespace()?;
        let ghost w = run_len(t, ws_pred()) as int;
        if c == 0x22 {
            self.eat_some(1);
            proof { assert(self.rest() =~= t.skip(w + 1)); }
            P::decode_string_to_bytes(self)
        } else if c == 0x5b {
            self.eat_some(1);
            self.parse_array_bytes_content()
        } else {
            Err(Error::UnexpectedChar)
        }
    }

    /// Read a boolean written as an object key: after its opening `"`, which
    /// the caller has found, and up to the closing `"`.
    pub fn parse_bool_key(&mut self) -> (r: Result<bool>)
        requires
            old(self).cursor() < old(self).input_seq().len(),
        ensures
            final(self).input_seq() == old(self).input_seq(),
            ({
                let t = old(self).rest().skip(1);
                let w = run_len(t, ws_pred()) as int;
                let is_true = w < t.len() && t[w] == 0x74;
                let n: int = if is_true { 4 } else { 5 };
                let word = if is_true { seq![0x72u8, 0x75, 0x65] } else { seq![0x61u8, 0x6c, 0x73, 0x65] };
                &&& w >= t.len() ==> r == Err::<bool, Error>(Error::UnexpectedEof)
                &&& w < t.len() && t[w] != 0x74 && t[w] != 0x66 ==> r == Err::<bool, Error>(Error::UnexpectedChar)
                &&& w < t.len() && (t[w] == 0x74 || t[w] == 0x66) ==> if w + n > t.len() || t.subrange(w + 1, w + n) != word {
                    token_read(t, w + 1, word, is_true, r)
                } else if w + n < t.len() && t[w + n] == 0x22 {
                    r == Ok::<bool, Error>(is_true) && final(self).cursor() == old(self).cursor() + w + n + 2
                } else if w + n < t.len() {
                    r == Err::<bool, Error>(Error::InvalidType)
                } else {
                    r == Err::<bool, Error>(Error::UnexpectedEof)
                }
            }),
    {
        let ghost t0 = self.rest();
        proof { self.lemma_input_len(); }
        self.eat_some(1);
        proof { assert(self.rest() =~= t0.skip(1)); }
        let ghost mid = *self;
        let v = self.parse_bool()?;
        proof {
            let t = t0.skip(1);
            assert(self.input_seq().skip(self.cursor()) =~= t.skip(self.cursor() - mid.cursor()));
        }
        if 0x22 == self.peek()? {
            self.eat_some(1);
            Ok(v)
        } else {
            Err(Error::InvalidType)
        }
    }

    /// Read an unsigned integer written as an object key: after its opening
    /// `"`, which the caller has found, and up to the closing `"`.
    pub fn parse_unsigned_numkey<T: NumParseTool>(&mut self) -> (r: Result<T>)
        requires
            old(self).cursor() < old(self).input_seq().len(),
        ensures
            ({
                let t = old(self).rest().skip(1);
                let (res, k) = spec_unsigned(t, T::min_value(), T::max_value());
                match res {
                    Ok(v) => if 1 + k < old(self).rest().len() && old(self).rest()[1 + k] == 0x22 {
                        mapped(r, |n: T| n.value()) == Ok::<int, Error>(v) && final(self).cursor() == old(self).cursor() + k + 2
                    } else if 1 + k < old(self).rest().len() {
                        r == Err::<T, Error>(Error::InvalidNumber)
                    } else {
                        r == Err::<T, Error>(Error::UnexpectedEof)
                    },
                    Err(e) => r == Err::<T, Error>(e),
                }
            }),
    {
        let ghost t0 = self.rest();
        proof { self.lemma_input_len(); }
        self.eat_some(1);
        proof { assert(self.rest() =~= t0.skip(1)); }
        let n = self.parse_unsigned()?;
        if 0x22 == self.peek()? {
            self.eat_some(1);
            Ok(n)
        } else {
            Err(Error::InvalidNumber)
        }
    }

    /// Read a signed integer written as an object key: after its opening
    /// `"`, which the caller has found, and up to the closing `"`.
    pub fn parse_signed_numkey<T: NumParseTool + CheckedSub>(&mut self) -> (r: Result<T>)
        requires
            old(self).cursor() < old(self).input_seq().len(),
        ensures
            ({
                let t = old(self).rest().skip(1);
                let (res, k) = spec_signed(t, T::min_value(), T::max_value());
                match res {
                    Ok(v) => if 1 + k < old(self).rest().len() && old(self).rest()[1 + k] == 0x22 {
                        mapped(r, |n: T| n.value()) == Ok::<int, Error>(v) && final(self).cursor() == old(self).cursor() + k + 2
                    } else if 1 + k < old(self).rest().len() {
                        r == Err::<T, Error>(Error::InvalidNumber)
                    } else {
                        r == Err::<T, Error>(Error::UnexpectedEof)
                    },
                    Err(e) => r == Err::<T, Error>(e),
                }
            }),
    {
        let ghost t0 = self.rest();
        proof { self.lemma_input_len(); }
        self.eat_some(1);
        proof { assert(self.rest() =~= t0.skip(1)); }
        let n = self.parse_signed()?;
        if 0x22 == self.peek()? {
            self.eat_some(1);
            Ok(n)
        } else {
            Err(Error::InvalidNumber)
        }
    }
}


/// The kind of JSON value that its first character starts.
#[derive(Debug, Clone, Copy, PartialEq, Eq)]
pub enum ValueKind {
    /// `null`
    Null,
    /// `true` or `false`
    Bool,
    /// A string
    Str,
    /// A number
    Number,
    /// An array
    Array,
    /// An object
    Object,
}

/// The kind of JSON value that starts with the character `c`.
pub open spec fn spec_value_kind(c: u8) -> Result<ValueKind> {
    if c == 0x6e {
        Ok(ValueKind::Null)
    } else if c == 0x74 || c == 0x66 {
        Ok(ValueKind::Bool)
    } else if c == 0x22 {
        Ok(ValueKind::Str)
    } else if is_digit(c) || c == 0x2d {
        Ok(ValueKind::Number)
    } else if c == 0x5b {
        Ok(ValueKind::Array)
    } else if c == 0x7b {
        Ok(ValueKind::Object)
    } else {
        Err(Error::UnexpectedChar)
    }
}

impl<'de, P> Deserializer<'de, P> {
    /// Eat whitespace and tell the kind of the value that comes next, whose
    /// first character is left unread.
    pub fn peek_value_kind(&mut self) -> (r: Result<ValueKind>)
        requires
            old(self).in_bounds(),
        ensures
            final(self).input_seq() == old(self).input_seq(),
            final(self).in_bounds(),
            ({
                let t = old(self).rest();
                let w = run_len(t, ws_pred()) as int;
                &&& w >= t.len() ==> r == Err::<ValueKind, Error>(Error::UnexpectedEof)
                &&& w < t.len() ==> r == spec_value_kind(t[w]) && final(self).cursor() == old(self).cursor() + w
            }),
    {
        proof { lemma_run_len_bound(self.rest(), ws_pred()); }
        let c = self.eat_whitespace()?;
        if c == 0x6e {
            Ok(ValueKind::Null)
        } else if c == 0x74 || c == 0x66 {
            Ok(ValueKind::Bool)
        } else if c == 0x22 {
            Ok(ValueKind::Str)
        } else if (0x30 <= c && c <= 0x39) || c == 0x2d {
            Ok(ValueKind::Number)
        } else if c == 0x5b {
            Ok(ValueKind::Array)
        } else if c == 0x7b {
            Ok(ValueKind::Object)
        } else {
            Err(Error::UnexpectedChar)
        }
    }

    /// Eat whitespace and the delimiter `delim` that must follow it, such as
    /// the bracket that opens or closes an array or an object; otherwise
    /// return `err`.
    pub fn eat_delimiter(&mut self, delim: u8, err: Error) -> (r: Result<()>)
        requires
            old(self).in_bounds(),
        ensures
            final(self).input_seq() == old(self).input_seq(),
            final(self).in_bounds(),
            ({
                let t = old(self).rest();
                let w = run_len(t, ws_pred()) as int;
                &&& w >= t.len() ==> r == Err::<(), Error>(Error::UnexpectedEof)
                &&& w < t.len() && t[w] == delim ==> r is Ok && final(self).cursor() == old(self).cursor() + w + 1
                &&& w < t.len() && t[w] != delim ==> r == Err::<(), Error>(err) && final(self).cursor() == old(self).cursor() + w
            }),
    {
        proof {
            self.lemma_input_len();
            lemma_run_len_bound(self.rest(), ws_pred());
        }
        if delim == self.eat_whitespace()? {
            self.eat_some(1);
            Ok(())
        } else {
            Err(err)
        }
    }
}

} // verus!
