use std::collections::BTreeMap;

use ser_write::msgpack::de::{Deserializer, Error, Identifier, Kind, Number};
use ser_write::msgpack::magick::{FIXMAP, NIL};
use ser_write::msgpack::ser::{
    write_array_len, write_bin, write_bool, write_f32_bits, write_f64_bits, write_i64,
    write_map_len, write_nil, write_str, write_u32, write_u64, CompactSerializer,
    StructMapIdxSerializer, StructMapStrSerializer,
};
use ser_write::msgpack::ser::Error as SerErr;
use ser_write::{SerError, SliceWriter};

type Res<T> = core::result::Result<T, Error>;

/// Read one value with `f` from the whole input: the value and the number of
/// bytes it took.
fn whole<'a, T>(input: &'a [u8], f: impl FnOnce(&mut Deserializer<'a>) -> Res<T>) -> Res<(T, usize)> {
    let mut de = Deserializer::from_slice(input);
    let value = f(&mut de)?;
    let tail_len = de.end()?;
    Ok((value, input.len() - tail_len))
}

/// Read one value with `f`: the value and the input after it.
fn split_tail<'a, T>(input: &'a [u8], f: impl FnOnce(&mut Deserializer<'a>) -> Res<T>) -> Res<(T, &'a [u8])> {
    let (value, len) = whole(input, f)?;
    Ok((value, &input[len..]))
}

fn number_f64(n: Number) -> f64 {
    match n {
        Number::Integer(i) => i as f64,
        Number::Float32(bits) => f32::from_bits(bits) as f64,
        Number::Float64(bits) => f64::from_bits(bits),
        Number::Nil => f64::NAN,
    }
}

fn number_f32(n: Number) -> f32 {
    match n {
        Number::Integer(i) => i as f32,
        Number::Float32(bits) => f32::from_bits(bits),
        Number::Float64(bits) => f64::from_bits(bits) as f32,
        Number::Nil => f32::NAN,
    }
}

fn f64_of(input: &[u8]) -> Res<(f64, usize)> {
    whole(input, |de| de.parse_number().map(number_f64))
}

fn f32_of(input: &[u8]) -> Res<(f32, usize)> {
    whole(input, |de| de.parse_number().map(number_f32))
}

#[derive(Debug, PartialEq)]
struct Unit;

#[derive(Debug, PartialEq)]
struct Test {
    compact: bool,
    schema: u32,
    unit: Unit,
}

fn missing(field: &str) -> Error {
    Error::DeserializeError(format!("missing field `{}`", field))
}

fn parse_test(de: &mut Deserializer<'_>) -> Res<Test> {
    let (is_map, len) = de.parse_struct_header()?;
    let mut compact = None;
    let mut schema = None;
    let mut unit = None;
    if is_map {
        for _ in 0..len {
            match de.parse_identifier()? {
                Identifier::Name("compact") | Identifier::Index(0) => compact = Some(de.parse_bool()?),
                Identifier::Name("schema") | Identifier::Index(1) => schema = Some(de.parse_u32()?),
                Identifier::Name("unit") | Identifier::Index(2) => {
                    de.parse_nil()?;
                    unit = Some(Unit)
                }
                _ => de.eat_message()?,
            }
        }
    } else {
        if len > 0 {
            compact = Some(de.parse_bool()?);
        }
        if len > 1 {
            schema = Some(de.parse_u32()?);
        }
        if len > 2 {
            de.parse_nil()?;
            unit = Some(Unit);
        }
        if len > 3 {
            return Err(Error::TrailingElements);
        }
    }
    Ok(Test {
        compact: compact.ok_or_else(|| missing("compact"))?,
        schema: schema.ok_or_else(|| missing("schema"))?,
        unit: unit.ok_or_else(|| missing("unit"))?,
    })
}

fn i32_array<const N: usize>(de: &mut Deserializer<'_>) -> Res<[i32; N]> {
    let len = de.parse_array_len()?;
    let mut out = [0i32; N];
    for (i, item) in out.iter_mut().enumerate() {
        if i >= len {
            return Err(Error::DeserializeError(format!(
                "invalid length {}, expected an array of length {}",
                i, N
            )));
        }
        *item = de.parse_i32()?;
    }
    if len > N {
        return Err(Error::TrailingElements);
    }
    Ok(out)
}

fn u32_array<const N: usize>(de: &mut Deserializer<'_>) -> Res<[u32; N]> {
    let len = de.parse_array_len()?;
    let mut out = [0u32; N];
    for (i, item) in out.iter_mut().enumerate() {
        if i >= len {
            return Err(Error::DeserializeError(format!(
                "invalid length {}, expected an array of length {}",
                i, N
            )));
        }
        *item = de.parse_u32()?;
    }
    if len > N {
        return Err(Error::TrailingElements);
    }
    Ok(out)
}

fn bool_vec(de: &mut Deserializer<'_>) -> Res<Vec<bool>> {
    let len = de.parse_array_len()?;
    let mut out = Vec::new();
    for _ in 0..len {
        out.push(de.parse_bool()?);
    }
    Ok(out)
}

fn unit_option(de: &mut Deserializer<'_>) -> Res<Option<()>> {
    if de.eat_code(NIL)? {
        Ok(None)
    } else {
        de.parse_nil()?;
        Ok(Some(()))
    }
}

#[test]
fn test_de_msgpack() {
    let test = Test { compact: true, schema: 0, unit: Unit };
    assert_eq!(
        whole(b"\x83\xA7compact\xC3\xA6schema\x00\xA4unit\xC0", parse_test),
        Ok((test, 24))
    );
    assert_eq!(whole(b"\xC1", |de| de.parse_nil()), Err(Error::ExpectedNil));
    assert_eq!(Deserializer::from_slice(b"\xC1").eat_message(), Err(Error::ReservedCode));
}

#[test]
fn de_test_de_array() {
    assert_eq!(whole(&[0x90], i32_array::<0>), Ok(([], 1)));
    assert_eq!(whole(&[0x93, 0, 1, 2], i32_array::<3>), Ok(([0, 1, 2], 4)));
    assert_eq!(
        whole(&[0x9F, 1, 2, 3, 4, 5, 6, 7, 8, 9, 10, 11, 12, 13, 14, 15], i32_array::<15>),
        Ok(([1, 2, 3, 4, 5, 6, 7, 8, 9, 10, 11, 12, 13, 14, 15], 16))
    );
    assert_eq!(whole(&[0xDC, 0, 3, 0, 1, 2], i32_array::<3>), Ok(([0, 1, 2], 6)));
    assert_eq!(whole(&[0xDD, 0, 0, 0, 3, 0, 1, 2], i32_array::<3>), Ok(([0, 1, 2], 8)));

    let mut vec = vec![0xDC, 0xFF, 0xFF];
    for _ in 0..65535 {
        vec.push(0xC3);
    }
    let (res, len) = whole(&vec, bool_vec).unwrap();
    assert_eq!(len, 65535 + 3);
    assert_eq!(res.len(), 65535);
    for i in 0..65535 {
        assert_eq!(res[i], true);
    }

    let mut vec = vec![0xDD, 0x00, 0x01, 0x00, 0x00];
    for _ in 0..65536 {
        vec.push(0xC2);
    }
    let (res, len) = whole(&vec, bool_vec).unwrap();
    assert_eq!(len, 65536 + 5);
    assert_eq!(res.len(), 65536);
    for i in 0..65536 {
        assert_eq!(res[i], false);
    }

    // error
    assert_eq!(whole(&[0x80], i32_array::<2>), Err(Error::ExpectedArray));
    assert_eq!(whole(&[], i32_array::<2>), Err(Error::UnexpectedEof));
    assert_eq!(whole(&[0x91], i32_array::<2>), Err(Error::UnexpectedEof));
    assert_eq!(whole(&[0x92, 0x00], i32_array::<2>), Err(Error::UnexpectedEof));
    assert_eq!(whole(&[0x92, 0xC0], i32_array::<2>), Err(Error::ExpectedInteger));
    assert_eq!(whole(&[0xDC], i32_array::<2>), Err(Error::UnexpectedEof));
    assert_eq!(whole(&[0xDC, 0x00, 0x01], i32_array::<2>), Err(Error::UnexpectedEof));
    assert_eq!(whole(&[0xDD], i32_array::<2>), Err(Error::UnexpectedEof));
    assert_eq!(whole(&[0xDD, 0x00, 0x00, 0x00, 0x01], i32_array::<2>), Err(Error::UnexpectedEof));
}

#[test]
fn de_test_de_bool() {
    assert_eq!(whole(&[0xC2], |de| de.parse_bool()), Ok((false, 1)));
    assert_eq!(whole(&[0xC3], |de| de.parse_bool()), Ok((true, 1)));
    // error
    assert_eq!(whole(&[], |de| de.parse_bool()), Err(Error::UnexpectedEof));
    assert_eq!(whole(&[0xC1], |de| de.parse_bool()), Err(Error::InvalidType));
    assert_eq!(whole(&[0xC0], |de| de.parse_bool()), Err(Error::InvalidType));
}

#[test]
fn de_test_de_floating_point() {
    assert_eq!(f64_of(&[1]), Ok((1.0f64, 1)));
    assert_eq!(f64_of(&[-1i8 as u8]), Ok((-1.0f64, 1)));
    assert_eq!(f64_of(&[0xCC, 1]), Ok((1.0f64, 2)));
    assert_eq!(f64_of(&[0xCD, 0, 1]), Ok((1.0f64, 3)));
    assert_eq!(f64_of(&[0xCE, 0, 0, 0, 1]), Ok((1.0f64, 5)));
    assert_eq!(f64_of(&[0xCF, 0, 0, 0, 0, 0, 0, 0, 1]), Ok((1.0f64, 9)));
    assert_eq!(f64_of(&[0xD0, 0xff]), Ok((-1.0f64, 2)));
    assert_eq!(f64_of(&[0xD1, 0xff, 0xff]), Ok((-1.0f64, 3)));
    assert_eq!(f64_of(&[0xD2, 0xff, 0xff, 0xff, 0xff]), Ok((-1.0f64, 5)));
    assert_eq!(f64_of(&[0xD3, 0xff, 0xff, 0xff, 0xff, 0xff, 0xff, 0xff, 0xff]), Ok((-1.0f64, 9)));

    assert_eq!(f32_of(&[5]), Ok((5.0f32, 1)));
    assert_eq!(f32_of(&[0xCC, 1]), Ok((1.0f32, 2)));
    assert_eq!(f32_of(&[0xCD, 0, 1]), Ok((1.0f32, 3)));
    assert_eq!(f32_of(&[0xCE, 0, 0, 0, 1]), Ok((1.0f32, 5)));
    assert_eq!(f32_of(&[0xCF, 0, 0, 0, 0, 0, 0, 0, 1]), Ok((1.0f32, 9)));
    assert_eq!(f32_of(&[0xD0, 0xff]), Ok((-1.0f32, 2)));
    assert_eq!(f32_of(&[0xD1, 0xff, 0xff]), Ok((-1.0f32, 3)));
    assert_eq!(f32_of(&[0xD2, 0xff, 0xff, 0xff, 0xff]), Ok((-1.0f32, 5)));
    assert_eq!(f32_of(&[0xD3, 0xff, 0xff, 0xff, 0xff, 0xff, 0xff, 0xff, 0xff]), Ok((-1.0f32, 9)));

    let mut input = [0xCA, 0, 0, 0, 0];
    input[1..].copy_from_slice(&(-2.5f32).to_be_bytes());
    assert_eq!(f64_of(&input), Ok((-2.5, 5)));
    assert_eq!(f32_of(&input), Ok((-2.5f32, 5)));
    let mut input = [0xCB, 0, 0, 0, 0, 0, 0, 0, 0];
    input[1..].copy_from_slice(&(-999.9f64).to_be_bytes());
    assert_eq!(f64_of(&input), Ok((-999.9, 9)));
    assert_eq!(f32_of(&input), Ok((-999.9f32, 9)));
    let (f, len) = f32_of(&[0xC0]).unwrap();
    assert_eq!(len, 1);
    assert!(f.is_nan());
    let (f, len) = f64_of(&[0xC0]).unwrap();
    assert_eq!(len, 1);
    assert!(f.is_nan());
    // error
    assert_eq!(f32_of(&[0xc1]), Err(Error::ExpectedNumber));
    assert_eq!(f64_of(&[0x90]), Err(Error::ExpectedNumber));
    assert_eq!(f32_of(&[]), Err(Error::UnexpectedEof));
    assert_eq!(f64_of(&[]), Err(Error::UnexpectedEof));
    assert_eq!(f32_of(&[0xCA, 0]), Err(Error::UnexpectedEof));
    assert_eq!(f64_of(&[0xCB, 0]), Err(Error::UnexpectedEof));
    for code in [0xCA, 0xCB, 0xCC, 0xCD, 0xCE, 0xCF, 0xD0, 0xD1, 0xD2, 0xD3] {
        assert_eq!(f32_of(&[code]), Err(Error::UnexpectedEof));
        assert_eq!(f64_of(&[code]), Err(Error::UnexpectedEof));
    }
}

/// The integer readers by target type, each giving its value as `i128`.
fn int_readers() -> Vec<fn(&mut Deserializer<'_>) -> Res<i128>> {
    vec![
        |de| de.parse_i8().map(i128::from),
        |de| de.parse_i16().map(i128::from),
        |de| de.parse_i32().map(i128::from),
        |de| de.parse_i64().map(i128::from),
    ]
}

fn uint_readers() -> Vec<fn(&mut Deserializer<'_>) -> Res<i128>> {
    vec![
        |de| de.parse_u8().map(i128::from),
        |de| de.parse_u16().map(i128::from),
        |de| de.parse_u32().map(i128::from),
        |de| de.parse_u64().map(i128::from),
    ]
}

#[test]
fn de_test_de_integer() {
    for read in int_readers() {
        assert_eq!(whole(&[1], read), Ok((1, 1)));
        assert_eq!(whole(&[-1i8 as u8], read), Ok((-1, 1)));
        assert_eq!(whole(&[0xCC, 1], read), Ok((1, 2)));
        assert_eq!(whole(&[0xCD, 0, 1], read), Ok((1, 3)));
        assert_eq!(whole(&[0xCE, 0, 0, 0, 1], read), Ok((1, 5)));
        assert_eq!(whole(&[0xCF, 0, 0, 0, 0, 0, 0, 0, 1], read), Ok((1, 9)));
        assert_eq!(whole(&[0xD0, 0xff], read), Ok((-1, 2)));
        assert_eq!(whole(&[0xD1, 0xff, 0xff], read), Ok((-1, 3)));
        assert_eq!(whole(&[0xD2, 0xff, 0xff, 0xff, 0xff], read), Ok((-1, 5)));
        assert_eq!(whole(&[0xD3, 0xff, 0xff, 0xff, 0xff, 0xff, 0xff, 0xff, 0xff], read), Ok((-1, 9)));
    }
    for read in uint_readers() {
        assert_eq!(whole(&[1], read), Ok((1, 1)));
        assert_eq!(whole(&[-1i8 as u8], read), Err(Error::InvalidInteger));
        assert_eq!(whole(&[0xCC, 1], read), Ok((1, 2)));
        assert_eq!(whole(&[0xCD, 0, 1], read), Ok((1, 3)));
        assert_eq!(whole(&[0xCE, 0, 0, 0, 1], read), Ok((1, 5)));
        assert_eq!(whole(&[0xCF, 0, 0, 0, 0, 0, 0, 0, 1], read), Ok((1, 9)));
        assert_eq!(whole(&[0xD0, 1], read), Ok((1, 2)));
        assert_eq!(whole(&[0xD0, 0xff], read), Err(Error::InvalidInteger));
        assert_eq!(whole(&[0xD1, 0, 1], read), Ok((1, 3)));
        assert_eq!(whole(&[0xD1, 0xff, 0xff], read), Err(Error::InvalidInteger));
        assert_eq!(whole(&[0xD2, 0, 0, 0, 1], read), Ok((1, 5)));
        assert_eq!(whole(&[0xD2, 0xff, 0xff, 0xff, 0xff], read), Err(Error::InvalidInteger));
        assert_eq!(whole(&[0xD3, 0, 0, 0, 0, 0, 0, 0, 1], read), Ok((1, 9)));
        assert_eq!(
            whole(&[0xD3, 0xff, 0xff, 0xff, 0xff, 0xff, 0xff, 0xff, 0xff], read),
            Err(Error::InvalidInteger)
        );
    }
    let mut all = int_readers();
    all.extend(uint_readers());
    for read in all {
        assert_eq!(whole(&[0xC0], read), Err(Error::ExpectedInteger));
        assert_eq!(whole(&[0xCC], read), Err(Error::UnexpectedEof));
        assert_eq!(whole(&[0xCD], read), Err(Error::UnexpectedEof));
        assert_eq!(whole(&[0xCE], read), Err(Error::UnexpectedEof));
        assert_eq!(whole(&[0xCF], read), Err(Error::UnexpectedEof));
        assert_eq!(whole(&[0xCD, 0], read), Err(Error::UnexpectedEof));
        assert_eq!(whole(&[0xCE, 0], read), Err(Error::UnexpectedEof));
        assert_eq!(whole(&[0xCF, 0], read), Err(Error::UnexpectedEof));
        assert_eq!(whole(&[0xD0], read), Err(Error::UnexpectedEof));
        assert_eq!(whole(&[0xD1], read), Err(Error::UnexpectedEof));
        assert_eq!(whole(&[0xD2], read), Err(Error::UnexpectedEof));
        assert_eq!(whole(&[0xD3], read), Err(Error::UnexpectedEof));
        assert_eq!(whole(&[0xD1, 0], read), Err(Error::UnexpectedEof));
        assert_eq!(whole(&[0xD2, 0], read), Err(Error::UnexpectedEof));
        assert_eq!(whole(&[0xD3, 0], read), Err(Error::UnexpectedEof));
    }
    assert_eq!(whole(&[0xCC, 0x80], |de| de.parse_i8()), Err(Error::InvalidInteger));
    assert_eq!(whole(&[0xCD, 0x80, 0x00], |de| de.parse_i16()), Err(Error::InvalidInteger));
    assert_eq!(whole(&[0xCE, 0x80, 0x00, 0x00, 0x00], |de| de.parse_i32()), Err(Error::InvalidInteger));
    assert_eq!(
        whole(&[0xCF, 0x80, 0x00, 0x00, 0x00, 0x00, 0x00, 0x00, 0x00], |de| de.parse_i64()),
        Err(Error::InvalidInteger)
    );
}

fn read_char(de: &mut Deserializer<'_>) -> Res<char> {
    de.parse_char()
}

fn read_string(de: &mut Deserializer<'_>) -> Res<String> {
    de.parse_str().map(|s| s.to_string())
}

fn read_str<'a>(de: &mut Deserializer<'a>) -> Res<&'a str> {
    de.parse_str()
}

fn read_bytes<'a>(de: &mut Deserializer<'a>) -> Res<&'a [u8]> {
    de.parse_bytes()
}

#[test]
fn test_de_char() {
    let read = read_char;
    assert_eq!(whole(&[0xA4, 0xf0, 0x9f, 0x91, 0x8f], read), Ok(('👏', 5)));
    assert_eq!(whole(&[0xD9, 4, 0xf0, 0x9f, 0x91, 0x8f], read), Ok(('👏', 6)));
    assert_eq!(whole(&[0xDA, 0, 4, 0xf0, 0x9f, 0x91, 0x8f], read), Ok(('👏', 7)));
    assert_eq!(whole(&[0xDB, 0, 0, 0, 4, 0xf0, 0x9f, 0x91, 0x8f], read), Ok(('👏', 9)));
    assert_eq!(whole(b"", read), Err(Error::UnexpectedEof));
    assert_eq!(whole(b"\xC0", read), Err(Error::ExpectedString));
    assert_eq!(whole(b"\xA0", read), Err(Error::InvalidLength));
    assert_eq!(whole(b"\xA2ab", read), Err(Error::InvalidLength));
    assert_eq!(whole(b"\xA1", read), Err(Error::UnexpectedEof));
}

#[test]
fn de_test_de_string() {
    let read = read_string;
    assert_eq!(whole(&[0xA0], read), Ok(("".to_string(), 1)));
    assert_eq!(whole(&[0xD9, 0], read), Ok(("".to_string(), 2)));
    assert_eq!(whole(&[0xDA, 0, 0], read), Ok(("".to_string(), 3)));
    assert_eq!(whole(&[0xDB, 0, 0, 0, 0], read), Ok(("".to_string(), 5)));
    assert_eq!(whole(&[0xA1], read), Err(Error::UnexpectedEof));
}

#[test]
fn de_test_de_str() {
    let read = read_str;
    assert_eq!(whole(&[0xA0], read), Ok(("", 1)));
    assert_eq!(whole(&[0xD9, 0], read), Ok(("", 2)));
    assert_eq!(whole(&[0xDA, 0, 0], read), Ok(("", 3)));
    assert_eq!(whole(&[0xDB, 0, 0, 0, 0], read), Ok(("", 5)));
    assert_eq!(whole(&[0xA4, 0xf0, 0x9f, 0x91, 0x8f], read), Ok(("👏", 5)));
    assert_eq!(whole(&[0xD9, 4, 0xf0, 0x9f, 0x91, 0x8f], read), Ok(("👏", 6)));
    assert_eq!(whole(&[0xDA, 0, 4, 0xf0, 0x9f, 0x91, 0x8f], read), Ok(("👏", 7)));
    assert_eq!(whole(&[0xDB, 0, 0, 0, 4, 0xf0, 0x9f, 0x91, 0x8f], read), Ok(("👏", 9)));
    assert_eq!(
        whole(b"\xBF01234567890ABCDEFGHIJKLMNOPQRST", read),
        Ok(("01234567890ABCDEFGHIJKLMNOPQRST", 32))
    );
    let text = "O, mógłże sęp chlań wyjść furtką bździn";
    let mut input = [0u8; 50];
    input[..2].copy_from_slice(&[0xd9, text.len() as u8]);
    input[2..].copy_from_slice(text.as_bytes());
    assert_eq!(whole(&input, read), Ok((text, 50)));
    // error
    assert_eq!(whole(&[0xC4], read), Err(Error::ExpectedString));
    assert_eq!(whole(b"\xA2\xff\xfe", read), Err(Error::InvalidUnicodeCodePoint));
    assert_eq!(whole(&[], read), Err(Error::UnexpectedEof));
    assert_eq!(whole(&[0xA1], read), Err(Error::UnexpectedEof));
    assert_eq!(whole(&[0xA2, 0], read), Err(Error::UnexpectedEof));
    assert_eq!(whole(&[0xD9], read), Err(Error::UnexpectedEof));
    assert_eq!(whole(&[0xD9, 1], read), Err(Error::UnexpectedEof));
    assert_eq!(whole(&[0xDA, 0], read), Err(Error::UnexpectedEof));
    assert_eq!(whole(&[0xDA, 0, 1], read), Err(Error::UnexpectedEof));
    assert_eq!(whole(&[0xDB, 0, 0, 0], read), Err(Error::UnexpectedEof));
    assert_eq!(whole(&[0xDB, 0, 0, 0, 1], read), Err(Error::UnexpectedEof));
}

#[test]
fn de_test_de_bytes() {
    let read = read_bytes;
    assert_eq!(whole(&[0xC4, 0], read), Ok((&[][..], 2)));
    assert_eq!(whole(&[0xC5, 0, 0], read), Ok((&[][..], 3)));
    assert_eq!(whole(&[0xC6, 0, 0, 0, 0], read), Ok((&[][..], 5)));
    assert_eq!(whole(&[0xC4, 1, 0xff], read), Ok((&[0xff][..], 3)));
    assert_eq!(whole(&[0xC5, 0, 1, 0xff], read), Ok((&[0xff][..], 4)));
    assert_eq!(whole(&[0xC6, 0, 0, 0, 1, 0xff], read), Ok((&[0xff][..], 6)));
    // error
    assert_eq!(whole(&[0xA0], read), Err(Error::ExpectedBin));
    assert_eq!(whole(&[], read), Err(Error::UnexpectedEof));
    assert_eq!(whole(&[0xC4], read), Err(Error::UnexpectedEof));
    assert_eq!(whole(&[0xC4, 1], read), Err(Error::UnexpectedEof));
    assert_eq!(whole(&[0xC5, 0], read), Err(Error::UnexpectedEof));
    assert_eq!(whole(&[0xC5, 0, 1], read), Err(Error::UnexpectedEof));
    assert_eq!(whole(&[0xC6, 0, 0, 0], read), Err(Error::UnexpectedEof));
    assert_eq!(whole(&[0xC6, 0, 0, 0, 1], read), Err(Error::UnexpectedEof));
}

#[derive(Debug, PartialEq)]
enum Type {
    Boolean,
    Number,
    Thing,
}

/// A unit-only enum whose variants are named `boolean`, `number` and `thing`.
fn parse_type(de: &mut Deserializer<'_>) -> Res<Type> {
    let with_content = de.eat_code(FIXMAP | 1)?;
    let variant = match de.parse_identifier()? {
        Identifier::Index(0) | Identifier::Name("boolean") => Type::Boolean,
        Identifier::Index(1) | Identifier::Name("number") => Type::Number,
        Identifier::Index(2) | Identifier::Name("thing") => Type::Thing,
        Identifier::Index(n) => {
            return Err(Error::DeserializeError(format!(
                "invalid value: integer `{}`, expected variant index 0 <= i < 3",
                n
            )))
        }
        Identifier::Name(s) => {
            return Err(Error::DeserializeError(format!(
                "unknown variant `{}`, expected one of `boolean`, `number`, `thing`",
                s
            )))
        }
    };
    if with_content {
        return Err(Error::InvalidType);
    }
    Ok(variant)
}

#[test]
fn de_test_de_enum_clike() {
    assert_eq!(whole(b"\xA7boolean", parse_type), Ok((Type::Boolean, 8)));
    assert_eq!(whole(b"\xA6number", parse_type), Ok((Type::Number, 7)));
    assert_eq!(whole(b"\xA5thing", parse_type), Ok((Type::Thing, 6)));

    assert_eq!(whole(b"\x00", parse_type), Ok((Type::Boolean, 1)));
    assert_eq!(whole(b"\x01", parse_type), Ok((Type::Number, 1)));
    assert_eq!(whole(b"\x02", parse_type), Ok((Type::Thing, 1)));
    // error
    assert_eq!(
        whole(b"\xA0", parse_type),
        Err(Error::DeserializeError(
            r#"unknown variant ``, expected one of `boolean`, `number`, `thing`"#.into()
        ))
    );
    assert_eq!(
        whole(b"\xA3xyz", parse_type),
        Err(Error::DeserializeError(
            r#"unknown variant `xyz`, expected one of `boolean`, `number`, `thing`"#.into()
        ))
    );
    assert_eq!(
        whole(b"\x03", parse_type),
        Err(Error::DeserializeError(
            r#"invalid value: integer `3`, expected variant index 0 <= i < 3"#.into()
        ))
    );
    assert_eq!(whole(&[0xC0], parse_type), Err(Error::ExpectedIdentifier));
    assert_eq!(whole(&[0x80], parse_type), Err(Error::ExpectedIdentifier));
    assert_eq!(whole(&[0x90], parse_type), Err(Error::ExpectedIdentifier));
    assert_eq!(whole(b"", parse_type), Err(Error::UnexpectedEof));
    assert_eq!(whole(b"\x81\xA7boolean\xC0", parse_type), Err(Error::InvalidType));
    assert_eq!(whole(b"\x81\xA7boolean\x90", parse_type), Err(Error::InvalidType));
    assert_eq!(whole(b"\x81\xA7boolean\x80", parse_type), Err(Error::InvalidType));
}

fn map_i32_str<'a>(de: &mut Deserializer<'a>) -> Res<BTreeMap<i32, &'a str>> {
    let len = de.parse_map_len()?;
    let mut map = BTreeMap::new();
    for _ in 0..len {
        let k = de.parse_i32()?;
        let v = de.parse_str()?;
        map.insert(k, v);
    }
    Ok(map)
}

fn map_i32_bool(de: &mut Deserializer<'_>) -> Res<BTreeMap<i32, bool>> {
    let len = de.parse_map_len()?;
    let mut map = BTreeMap::new();
    for _ in 0..len {
        let k = de.parse_i32()?;
        let v = de.parse_bool()?;
        map.insert(k, v);
    }
    Ok(map)
}

fn map_u32_bool(de: &mut Deserializer<'_>) -> Res<BTreeMap<u32, bool>> {
    let len = de.parse_map_len()?;
    let mut map = BTreeMap::new();
    for _ in 0..len {
        let k = de.parse_u32()?;
        let v = de.parse_bool()?;
        map.insert(k, v);
    }
    Ok(map)
}

#[test]
fn de_test_de_map() {
    let (map, len) = whole(
        b"\x83\xff\xA1A\xfe\xA3wee\xD1\x01\xA4\xD9\x24Waltz, bad nymph, for quick jigs vex",
        map_i32_str,
    )
    .unwrap();
    assert_eq!(len, 50);
    assert_eq!(map.len(), 3);
    assert_eq!(map[&-1], "A");
    assert_eq!(map[&-2], "wee");
    assert_eq!(map[&420], "Waltz, bad nymph, for quick jigs vex");

    let (map, len) = whole(&[0x80], map_i32_bool).unwrap();
    assert_eq!(len, 1);
    assert_eq!(map.len(), 0);

    let (map, len) = whole(
        b"\x8F\x01\xC3\x02\xC3\x03\xC3\x04\xC3\x05\xC3\x06\xC3\x07\xC3\x08\xC3\x09\xC3\x0A\xC3\x0B\xC3\x0C\xC3\x0D\xC3\x0E\xC3\x0F\xC3",
        map_i32_bool,
    )
    .unwrap();
    assert_eq!(len, 31);
    assert_eq!(map.len(), 15);
    for i in 1..=15 {
        assert_eq!(map[&i], true);
    }

    let mut vec = vec![0xDE, 0xFF, 0xFF];
    vec.reserve(65536 * 2);
    for i in 1..=65535u16 {
        if i < 128 {
            vec.push(i as u8);
        } else if i < 256 {
            vec.push(0xCC);
            vec.push(i as u8);
        } else {
            vec.push(0xCD);
            vec.extend_from_slice(&i.to_be_bytes());
        }
        vec.push(0xC3);
    }
    let (map, len) = whole(vec.as_slice(), map_u32_bool).unwrap();
    assert_eq!(len, vec.len());
    assert_eq!(map.len(), 65535);
    for i in 1..=65535 {
        assert!(map[&i]);
    }

    let mut vec = vec![0xDF, 0x00, 0x01, 0x00, 0x00];
    vec.reserve(65536 * 2);
    for i in 1..=65536u32 {
        if i < 128 {
            vec.push(i as u8);
        } else if i < 256 {
            vec.push(0xCC);
            vec.push(i as u8);
        } else if i < 65536 {
            vec.push(0xCD);
            vec.extend_from_slice(&(i as u16).to_be_bytes());
        } else {
            vec.push(0xCE);
            vec.extend_from_slice(&i.to_be_bytes());
        }
        vec.push(0xC3);
    }
    let (map, len) = whole(vec.as_slice(), map_u32_bool).unwrap();
    assert_eq!(len, vec.len());
    assert_eq!(map.len(), 65536);
    for i in 1..=65536 {
        assert!(map[&i]);
    }

    // error
    assert_eq!(whole(&[0x90], map_i32_bool), Err(Error::ExpectedMap));
    assert_eq!(whole(&[], map_i32_bool), Err(Error::UnexpectedEof));
    assert_eq!(whole(&[0x81], map_i32_bool), Err(Error::UnexpectedEof));
    assert_eq!(whole(&[0x81, 0x00], map_i32_bool), Err(Error::UnexpectedEof));
    assert_eq!(whole(&[0x82, 0x00, 0xC2], map_i32_bool), Err(Error::UnexpectedEof));
    assert_eq!(whole(&[0xDE], map_i32_bool), Err(Error::UnexpectedEof));
    assert_eq!(whole(&[0xDE, 0x00, 0x01], map_i32_bool), Err(Error::UnexpectedEof));
    assert_eq!(whole(&[0xDF], map_i32_bool), Err(Error::UnexpectedEof));
    assert_eq!(whole(&[0xDF, 0x00, 0x00, 0x00, 0x01], map_i32_bool), Err(Error::UnexpectedEof));
}

#[test]
fn test_de_streaming() {
    let test = Test { compact: true, schema: 0, unit: Unit };
    let input = b"\xC0\xC2\x00\xA3ABC\xC4\x04_xyz\x83\xA7compact\xC3\xA6schema\x00\xA4unit\xC0\x93\x01\x02\x03\xC0";
    let (res, input) = split_tail(input, |de| de.parse_nil()).unwrap();
    assert_eq!(res, ());
    let (res, input) = split_tail(input, |de| de.parse_bool()).unwrap();
    assert_eq!(res, false);
    let (res, input) = split_tail(input, |de| de.parse_i8()).unwrap();
    assert_eq!(res, 0);
    let (res, input) = split_tail(input, |de| de.parse_str()).unwrap();
    assert_eq!(res, "ABC");
    let (res, input) = split_tail(input, |de| de.parse_bytes()).unwrap();
    assert_eq!(res, b"_xyz");
    let (res, input) = split_tail(input, parse_test).unwrap();
    assert_eq!(res, test);
    let (res, input) = split_tail(input, u32_array::<3>).unwrap();
    assert_eq!(res, [1, 2, 3]);
    let (res, input) = split_tail(input, unit_option).unwrap();
    assert_eq!(res, None);
    assert_eq!(input, b"");
    // error
    assert_eq!(split_tail(input, |de| de.parse_nil()), Err(Error::UnexpectedEof));
}

fn eat(input: &[u8]) -> Res<()> {
    Deserializer::from_slice(input).eat_message()
}

#[test]
fn test_de_ignore_err() {
    assert_eq!(eat(b""), Err(Error::UnexpectedEof));
    assert_eq!(eat(b"\x81"), Err(Error::UnexpectedEof));
    assert_eq!(eat(b"\x81\xC0"), Err(Error::UnexpectedEof));
    assert_eq!(eat(b"\x91"), Err(Error::UnexpectedEof));
    assert_eq!(eat(b"\xA1"), Err(Error::UnexpectedEof));
    assert_eq!(eat(b"\xC4"), Err(Error::UnexpectedEof));
    assert_eq!(eat(b"\xC4\x01"), Err(Error::UnexpectedEof));
    assert_eq!(eat(b"\xC5\x00"), Err(Error::UnexpectedEof));
    assert_eq!(eat(b"\xC5\x00\x01"), Err(Error::UnexpectedEof));
    assert_eq!(eat(b"\xC6\x00\x00\x00"), Err(Error::UnexpectedEof));
    assert_eq!(eat(b"\xC6\x00\x00\x00\x01"), Err(Error::UnexpectedEof));
    assert_eq!(eat(b"\xC7"), Err(Error::UnexpectedEof));
    assert_eq!(eat(b"\xC7\x00"), Err(Error::UnexpectedEof));
    assert_eq!(eat(b"\xC7\x01\x7f"), Err(Error::UnexpectedEof));
    assert_eq!(eat(b"\xC8"), Err(Error::UnexpectedEof));
    assert_eq!(eat(b"\xC8\x00\x00"), Err(Error::UnexpectedEof));
    assert_eq!(eat(b"\xC8\x00\x01\x7f"), Err(Error::UnexpectedEof));
    assert_eq!(eat(b"\xC9"), Err(Error::UnexpectedEof));
    assert_eq!(eat(b"\xC9\x00\x00\x00\x00"), Err(Error::UnexpectedEof));
    assert_eq!(eat(b"\xC9\x00\x00\x00\x01\x7f"), Err(Error::UnexpectedEof));
    assert_eq!(eat(b"\xCA"), Err(Error::UnexpectedEof));
    assert_eq!(eat(b"\xCA\x00\x00\x00"), Err(Error::UnexpectedEof));
    assert_eq!(eat(b"\xCB"), Err(Error::UnexpectedEof));
    assert_eq!(eat(b"\xCB\x00\x00\x00\x00\x00\x00\x00"), Err(Error::UnexpectedEof));
    assert_eq!(eat(b"\xCC"), Err(Error::UnexpectedEof));
    assert_eq!(eat(b"\xCD\x00"), Err(Error::UnexpectedEof));
    assert_eq!(eat(b"\xCE\x00\x00\x00"), Err(Error::UnexpectedEof));
    assert_eq!(eat(b"\xCF\x00\x00\x00\x00\x00\x00\x00"), Err(Error::UnexpectedEof));
    assert_eq!(eat(b"\xD0"), Err(Error::UnexpectedEof));
    assert_eq!(eat(b"\xD1\x00"), Err(Error::UnexpectedEof));
    assert_eq!(eat(b"\xD2\x00\x00\x00"), Err(Error::UnexpectedEof));
    assert_eq!(eat(b"\xD3\x00\x00\x00\x00\x00\x00\x00"), Err(Error::UnexpectedEof));
    assert_eq!(eat(b"\xD4"), Err(Error::UnexpectedEof));
    assert_eq!(eat(b"\xD4\x7f"), Err(Error::UnexpectedEof));
    assert_eq!(eat(b"\xD5"), Err(Error::UnexpectedEof));
    assert_eq!(eat(b"\xD5\x7f"), Err(Error::UnexpectedEof));
    assert_eq!(eat(b"\xD5\x7f\x00"), Err(Error::UnexpectedEof));
    assert_eq!(eat(b"\xD6"), Err(Error::UnexpectedEof));
    assert_eq!(eat(b"\xD6\x7f"), Err(Error::UnexpectedEof));
    assert_eq!(eat(b"\xD6\x7f\x00\x00\x00"), Err(Error::UnexpectedEof));
    assert_eq!(eat(b"\xD7"), Err(Error::UnexpectedEof));
    assert_eq!(eat(b"\xD7\x7f"), Err(Error::UnexpectedEof));
    assert_eq!(eat(b"\xD7\x7f\x00\x00\x00\x00\x00\x00\x00"), Err(Error::UnexpectedEof));
    assert_eq!(eat(b"\xD8"), Err(Error::UnexpectedEof));
    assert_eq!(eat(b"\xD8\x7f"), Err(Error::UnexpectedEof));
    assert_eq!(
        eat(b"\xD8\x7f\x00\x00\x00\x00\x00\x00\x00\x00\x00\x00\x00\x00\x00\x00\x00"),
        Err(Error::UnexpectedEof)
    );
    assert_eq!(eat(b"\xD9"), Err(Error::UnexpectedEof));
    assert_eq!(eat(b"\xD9\x01"), Err(Error::UnexpectedEof));
    assert_eq!(eat(b"\xDA\x00"), Err(Error::UnexpectedEof));
    assert_eq!(eat(b"\xDA\x00\x01"), Err(Error::UnexpectedEof));
    assert_eq!(eat(b"\xDB\x00\x00\x00"), Err(Error::UnexpectedEof));
    assert_eq!(eat(b"\xDB\x00\x00\x00\x01"), Err(Error::UnexpectedEof));
    assert_eq!(eat(b"\xDC"), Err(Error::UnexpectedEof));
    assert_eq!(eat(b"\xDC\x00"), Err(Error::UnexpectedEof));
    assert_eq!(eat(b"\xDC\x00\x01"), Err(Error::UnexpectedEof));
    assert_eq!(eat(b"\xDD"), Err(Error::UnexpectedEof));
    assert_eq!(eat(b"\xDD\x00\x00\x00"), Err(Error::UnexpectedEof));
    assert_eq!(eat(b"\xDD\x00\x00\x00\x01"), Err(Error::UnexpectedEof));
    assert_eq!(eat(b"\xDE"), Err(Error::UnexpectedEof));
    assert_eq!(eat(b"\xDE\x00"), Err(Error::UnexpectedEof));
    assert_eq!(eat(b"\xDE\x00\x01"), Err(Error::UnexpectedEof));
    assert_eq!(eat(b"\xDE\x00\x01\xC0"), Err(Error::UnexpectedEof));
    assert_eq!(eat(b"\xDF"), Err(Error::UnexpectedEof));
    assert_eq!(eat(b"\xDF\x00\x00\x00"), Err(Error::UnexpectedEof));
    assert_eq!(eat(b"\xDF\x00\x00\x00\x01"), Err(Error::UnexpectedEof));
    assert_eq!(eat(b"\xDF\x00\x00\x00\x01\xC0"), Err(Error::UnexpectedEof));
}

/// The encodings that three serializers give for one value written by `f`.
fn encodings(f: impl Fn(&mut SliceWriter<'_>) -> Result<(), SerErr<SerError>>) -> [Vec<u8>; 3] {
    let mut buf = [0u8; 9];
    let mut ser = CompactSerializer::new(SliceWriter::new(&mut buf));
    f(ser.writer()).unwrap();
    let compact = ser.into_inner().split().0.to_vec();
    let mut buf = [0u8; 9];
    let mut ser = StructMapIdxSerializer::new(SliceWriter::new(&mut buf));
    f(ser.writer()).unwrap();
    let indexed = ser.into_inner().split().0.to_vec();
    let mut buf = [0u8; 9];
    let mut ser = StructMapStrSerializer::new(SliceWriter::new(&mut buf));
    f(ser.writer()).unwrap();
    let named = ser.into_inner().split().0.to_vec();
    [compact, indexed, named]
}

fn check_signed(v: i64, expected: &[u8]) {
    for enc in encodings(|w| write_i64(w, v)) {
        assert_eq!(enc, expected);
    }
}

fn check_unsigned(v: u64, expected: &[u8]) {
    for enc in encodings(|w| write_u64(w, v)) {
        assert_eq!(enc, expected);
    }
    if let Ok(v32) = u32::try_from(v) {
        for enc in encodings(|w| write_u32(w, v32)) {
            assert_eq!(enc, expected);
        }
    }
}

#[test]
fn test_msgpack_ints() {
    // fixints of every width, signed and unsigned
    for _ in 0..5 {
        check_signed(0, b"\x00");
        check_signed(127, b"\x7f");
        check_unsigned(0, b"\x00");
        check_unsigned(127, b"\x7f");
        check_signed(-1, b"\xff");
        check_signed(-32, b"\xe0");
    }

    // i8
    check_signed(-33, b"\xD0\xdf");
    check_signed(-128, b"\xD0\x80");
    // u8
    check_unsigned(128, b"\xCC\x80");
    check_unsigned(255, b"\xCC\xff");
    // i16
    check_signed(-33, b"\xD0\xdf");
    check_signed(-128, b"\xD0\x80");
    check_signed(128, b"\xCC\x80");
    check_signed(255, b"\xCC\xff");
    check_signed(256, b"\xD1\x01\x00");
    check_signed(i16::MAX.into(), b"\xD1\x7f\xff");
    check_signed(i16::MIN.into(), b"\xD1\x80\x00");
    // u16
    check_unsigned(128, b"\xCC\x80");
    check_unsigned(255, b"\xCC\xff");
    check_unsigned(256, b"\xCD\x01\x00");
    check_unsigned(u16::MAX.into(), b"\xCD\xff\xff");
    // i32
    check_signed(-33, b"\xD0\xdf");
    check_signed(-128, b"\xD0\x80");
    check_signed(128, b"\xCC\x80");
    check_signed(255, b"\xCC\xff");
    check_signed(256, b"\xD1\x01\x00");
    check_signed(i16::MAX.into(), b"\xD1\x7f\xff");
    check_signed(i16::MIN.into(), b"\xD1\x80\x00");
    check_signed(u16::MAX.into(), b"\xCD\xff\xff");
    check_signed(i32::MAX.into(), b"\xD2\x7f\xff\xff\xff");
    check_signed(i32::MIN.into(), b"\xD2\x80\x00\x00\x00");
    // u32
    check_unsigned(128, b"\xCC\x80");
    check_unsigned(255, b"\xCC\xff");
    check_unsigned(256, b"\xCD\x01\x00");
    check_unsigned(u16::MAX.into(), b"\xCD\xff\xff");
    check_unsigned(u32::MAX.into(), b"\xCE\xff\xff\xff\xff");
    // i64
    check_signed(-33, b"\xD0\xdf");
    check_signed(-128, b"\xD0\x80");
    check_signed(128, b"\xCC\x80");
    check_signed(255, b"\xCC\xff");
    check_signed(256, b"\xD1\x01\x00");
    check_signed(i16::MAX.into(), b"\xD1\x7f\xff");
    check_signed(i16::MIN.into(), b"\xD1\x80\x00");
    check_signed(u16::MAX.into(), b"\xCD\xff\xff");
    check_signed(i32::MAX.into(), b"\xD2\x7f\xff\xff\xff");
    check_signed(i32::MIN.into(), b"\xD2\x80\x00\x00\x00");
    check_signed(u32::MAX.into(), b"\xCE\xff\xff\xff\xff");
    check_signed(i64::MAX, b"\xD3\x7f\xff\xff\xff\xff\xff\xff\xff");
    check_signed(i64::MIN, b"\xD3\x80\x00\x00\x00\x00\x00\x00\x00");
    // u64
    check_unsigned(128, b"\xCC\x80");
    check_unsigned(255, b"\xCC\xff");
    check_unsigned(256, b"\xCD\x01\x00");
    check_unsigned(u16::MAX.into(), b"\xCD\xff\xff");
    check_unsigned(u32::MAX.into(), b"\xCE\xff\xff\xff\xff");
    check_unsigned(u64::MAX, b"\xCF\xff\xff\xff\xff\xff\xff\xff\xff");
}

#[test]
fn test_msgpack_array() {
    let mut out = Vec::new();
    write_array_len(&mut out, 65536).unwrap();
    for _ in 0..65536 {
        write_i64(&mut out, -1).unwrap();
    }
    let mut expected = vec![0xDD, 0x00, 0x01, 0x00, 0x00];
    for _ in 0..65536 {
        expected.push(0xff);
    }
    assert_eq!(out, expected);
}

#[test]
fn test_msgpack_str() {
    let mut s = String::new();
    for _ in 0..256u16 {
        for i in 0..=255u8 {
            s.push(i.into());
        }
    }
    let mut expected = vec![0xDB];
    expected.extend_from_slice(&u32::try_from(s.len()).unwrap().to_be_bytes());
    expected.extend_from_slice(s.as_bytes());
    let mut out = Vec::new();
    write_str(&mut out, &s).unwrap();
    assert_eq!(out, expected);
}

#[test]
fn test_msgpack_map() {
    for (count, header) in [(65536u32, &[0xDF, 0x00, 0x01, 0x00, 0x00][..]), (256, &[0xDE, 0x01, 0x00][..])] {
        let mut out = Vec::new();
        write_map_len(&mut out, count as usize).unwrap();
        for k in 0..count {
            write_u32(&mut out, k).unwrap();
            write_bool(&mut out, true).unwrap();
        }
        assert_eq!(&out[0..header.len()], header);
        let (map, len) = whole(&out, map_u32_bool).unwrap();
        assert_eq!(len, out.len());
        assert_eq!(map.len(), count as usize);
        assert!(map.values().all(|v| *v));
    }
}

#[test]
fn written_values_read_back() {
    let ints: [i64; 9] = [0, 1, -1, -32, -33, 127, 128, i64::MIN, i64::MAX];
    for v in ints {
        let mut out = Vec::new();
        write_i64(&mut out, v).unwrap();
        assert_eq!(whole(&out, |de| de.parse_i64()), Ok((v, out.len())));
        assert_eq!(Deserializer::from_slice(&out).eat_message(), Ok(()));
    }
    let uints: [u64; 5] = [0, 200, 70000, 1 << 40, u64::MAX];
    for v in uints {
        let mut out = Vec::new();
        write_u64(&mut out, v).unwrap();
        assert_eq!(whole(&out, |de| de.parse_u64()), Ok((v, out.len())));
    }
    let mut out = Vec::new();
    write_str(&mut out, "żółw").unwrap();
    write_bin(&mut out, &[1, 2, 3]).unwrap();
    write_bool(&mut out, true).unwrap();
    write_nil(&mut out).unwrap();
    write_f32_bits(&mut out, 1.5f32.to_bits()).unwrap();
    write_f64_bits(&mut out, (-0.25f64).to_bits()).unwrap();
    write_array_len(&mut out, 20).unwrap();
    write_map_len(&mut out, 3).unwrap();
    let mut de = Deserializer::from_slice(&out);
    assert_eq!(de.parse_str(), Ok("żółw"));
    assert_eq!(de.parse_bytes(), Ok(&[1u8, 2, 3][..]));
    assert_eq!(de.parse_bool(), Ok(true));
    assert_eq!(de.parse_nil(), Ok(()));
    assert_eq!(de.parse_number(), Ok(Number::Float32(1.5f32.to_bits())));
    assert_eq!(de.parse_number(), Ok(Number::Float64((-0.25f64).to_bits())));
    assert_eq!(de.parse_array_len(), Ok(20));
    assert_eq!(de.parse_map_len(), Ok(3));
    assert_eq!(de.end(), Ok(0));
}

#[test]
fn kinds_of_items() {
    let cases: [(u8, Result<Kind, Error>); 16] = [
        (0x05, Ok(Kind::U8)),
        (0x85, Ok(Kind::Entries)),
        (0x95, Ok(Kind::Array)),
        (0xA5, Ok(Kind::Str)),
        (0xC0, Ok(Kind::Nil)),
        (0xC1, Err(Error::ReservedCode)),
        (0xC3, Ok(Kind::Bool)),
        (0xC5, Ok(Kind::Bin)),
        (0xC8, Err(Error::UnsupportedExt)),
        (0xCA, Ok(Kind::F32)),
        (0xCD, Ok(Kind::U16)),
        (0xD2, Ok(Kind::I32)),
        (0xD6, Err(Error::UnsupportedExt)),
        (0xDB, Ok(Kind::Str)),
        (0xDE, Ok(Kind::Entries)),
        (0xF0, Ok(Kind::I8)),
    ];
    for (code, kind) in cases {
        let input = [code];
        let de = Deserializer::from_slice(&input);
        assert_eq!(de.peek_kind(), kind);
    }
    assert_eq!(Deserializer::from_slice(&[]).peek_kind(), Err(Error::UnexpectedEof));
}

#[test]
fn deserializer_cursor() {
    let input = [0xC0];
    let mut de = Deserializer::from_slice(&input);
    assert_eq!(de.input_ref().unwrap(), &[0xC0]);
    assert_eq!(de.remaining_len(), 1);
    assert_eq!(de.eat_code(0xC2), Ok(false));
    assert_eq!(de.eat_code(0xC0), Ok(true));
    assert_eq!(de.eat_code(0xC0), Err(Error::UnexpectedEof));
    assert_eq!(de.input_ref().unwrap(), &[]);
    assert_eq!(de.split_input(2), Err(Error::UnexpectedEof));
    de.eat_some(1);
    assert_eq!(de.peek(), Err(Error::UnexpectedEof));
    assert_eq!(de.fetch(), Err(Error::UnexpectedEof));
    assert_eq!(de.remaining_len(), 0);
    assert_eq!(de.input_ref(), Err(Error::UnexpectedEof));
    assert_eq!(de.split_input(1), Err(Error::UnexpectedEof));
    assert_eq!(de.end(), Err(Error::UnexpectedEof));
}

#[test]
fn struct_headers_and_identifiers() {
    assert_eq!(whole(&[0x82], |de| de.parse_struct_header()), Ok(((true, 2), 1)));
    assert_eq!(whole(&[0xDC, 0, 3], |de| de.parse_struct_header()), Ok(((false, 3), 3)));
    assert_eq!(whole(&[0xC0], |de| de.parse_struct_header()), Err(Error::ExpectedStruct));
    assert_eq!(whole(&[0xCE, 0, 1, 0, 0], |de| de.parse_identifier()), Ok((Identifier::Index(65536), 5)));
    assert_eq!(whole(&[0xCF, 0, 0, 0, 0, 0, 0, 0, 1], |de| de.parse_identifier()), Err(Error::ExpectedIdentifier));
    assert_eq!(whole(b"\xA1x", |de| de.parse_identifier()), Ok((Identifier::Name("x"), 2)));
}

#[test]
fn serializers_count_items() {
    let mut out = Vec::new();
    let mut ser = CompactSerializer::new(&mut out);
    {
        let mut seq = ser.serialize_seq(Some(1)).unwrap();
        assert_eq!(seq.element::<SerError>(), Ok(()));
        write_bool(seq.serializer().writer(), true).unwrap();
        assert_eq!(seq.element::<SerError>(), Err(SerErr::SeqLength));
        assert_eq!(seq.end_seq::<SerError>(), Ok(()));
    }
    assert!(matches!(ser.serialize_seq(None), Err(SerErr::SeqLength)));
    assert!(matches!(ser.serialize_map(None), Err(SerErr::MapLength)));
    {
        let mut st = ser.serialize_struct(2).unwrap();
        assert_eq!(st.field::<SerError>(), Ok(()));
        write_nil(st.serializer().writer()).unwrap();
        assert_eq!(st.skip_field::<SerError>(), Err(SerErr::FieldSkipped));
        assert_eq!(st.end::<SerError>(), Err(SerErr::SeqLength));
    }
    ser.begin_variant(2, "Two").unwrap();
    assert_eq!(out, b"\x91\xC3\x92\xC0\x81\x02");

    let mut out = Vec::new();
    let mut ser = StructMapIdxSerializer::new(&mut out);
    {
        let mut st = ser.serialize_struct(2).unwrap();
        st.field().unwrap();
        write_bool(st.serializer().writer(), false).unwrap();
        st.skip_field::<SerError>().unwrap();
        st.field().unwrap();
        write_nil(st.serializer().writer()).unwrap();
        assert_eq!(st.end::<SerError>(), Ok(()));
    }
    ser.serialize_variant(1, "One").unwrap();
    assert_eq!(out, b"\x82\x00\xC2\x02\xC0\x01");

    let mut out = Vec::new();
    let mut ser = StructMapStrSerializer::new(&mut out);
    {
        let mut st = ser.serialize_struct(1).unwrap();
        st.field("a").unwrap();
        write_bool(st.serializer().writer(), true).unwrap();
        assert_eq!(st.field("b"), Err(SerErr::MapLength));
        assert_eq!(st.end::<SerError>(), Ok(()));
    }
    ser.begin_variant(1, "One").unwrap();
    assert_eq!(out, b"\x81\xA1a\xC3\x81\xA3One");
}

#[test]
fn writer_errors_are_passed_on() {
    let mut buf = [0u8; 2];
    let mut writer = SliceWriter::new(&mut buf);
    assert_eq!(write_u64(&mut writer, 300), Err(SerErr::Writer(SerError::BufferFull)));
    let mut buf = [0u8; 2];
    let mut writer = SliceWriter::new(&mut buf);
    assert_eq!(write_str(&mut writer, "abc"), Err(SerErr::Writer(SerError::BufferFull)));
}

#[test]
fn nested_messages_are_skipped_whole() {
    let mut out = Vec::new();
    write_array_len(&mut out, 4).unwrap();
    write_i64(&mut out, -300).unwrap();
    write_str(&mut out, "skip me").unwrap();
    write_map_len(&mut out, 2).unwrap();
    write_u64(&mut out, 1).unwrap();
    write_bin(&mut out, &[9, 9, 9]).unwrap();
    write_str(&mut out, "k").unwrap();
    write_array_len(&mut out, 2).unwrap();
    write_nil(&mut out).unwrap();
    write_f64_bits(&mut out, 2.5f64.to_bits()).unwrap();
    write_bool(&mut out, false).unwrap();
    let len = out.len();
    out.extend_from_slice(b"\xA3end");
    let mut de = Deserializer::from_slice(&out);
    assert_eq!(de.eat_message(), Ok(()));
    assert_eq!(de.remaining_len(), out.len() - len);
    assert_eq!(de.parse_str(), Ok("end"));
    // a truncated message is not skipped
    let mut de = Deserializer::from_slice(&out[..len - 1]);
    assert_eq!(de.eat_message(), Err(Error::UnexpectedEof));
}

#[test]
fn msgpack_error_descriptions() {
    assert_eq!(Error::UnexpectedEof.description(), Some("Unexpected end of MessagePack input"));
    assert_eq!(Error::ExpectedIdentifier.description(), Some("Expected a struct field or enum variant identifier"));
    assert_eq!(Error::DeserializeError("x".into()).description(), None);
    assert_eq!(SerErr::<SerError>::FieldSkipped.description(), Some("skipped a field in a middle of struct"));
    assert_eq!(SerErr::Writer(SerError::BufferFull).description(), None);
}

#[test]
fn counting_items() {
    let mut count = ser_write::msgpack::de::CountingAccess::new(2);
    assert_eq!(count.size_hint(), 2);
    assert_eq!(count.finish(), Err(Error::TrailingElements));
    assert!(count.next_item());
    assert!(count.next_item());
    assert!(!count.next_item());
    assert_eq!(count.size_hint(), 0);
    assert_eq!(count.finish(), Ok(()));
}

#[test]
fn variants_read_back_as_identifiers() {
    for index in [0u32, 127, 128, 300, 70000, u32::MAX] {
        let mut out = Vec::new();
        CompactSerializer::new(&mut out).serialize_variant(index, "ignored").unwrap();
        assert_eq!(whole(&out, |de| de.parse_identifier()), Ok((Identifier::Index(index), out.len())));
    }
    let mut out = Vec::new();
    StructMapStrSerializer::new(&mut out).serialize_variant(7, "Chocolate").unwrap();
    assert_eq!(out, b"\xA9Chocolate");
    assert_eq!(whole(&out, |de| de.parse_identifier()), Ok((Identifier::Name("Chocolate"), 10)));
}

#[test]
fn a_truncated_message_is_unexpected_eof() {
    let mut buf = [0u8; 64];
    let mut writer = SliceWriter::new(&mut buf);
    write_array_len(&mut writer, 3).unwrap();
    write_str(&mut writer, "abc").unwrap();
    write_map_len(&mut writer, 1).unwrap();
    write_u32(&mut writer, 70000).unwrap();
    write_bin(&mut writer, &[1, 2, 3]).unwrap();
    write_i64(&mut writer, -5).unwrap();
    let len = writer.len();
    let message = &buf[..len];
    let mut de = Deserializer::from_slice(message);
    assert_eq!(de.eat_message(), Ok(()));
    assert_eq!(de.end(), Ok(0));
    for k in 0..len {
        assert_eq!(Deserializer::from_slice(&message[..k]).eat_message(), Err(Error::UnexpectedEof));
    }
}
