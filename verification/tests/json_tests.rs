use core::fmt::Write;

use ser_write::json::base64::{decode, encode};
use ser_write::json::de::{
    AnyNumber, CommaSeparated, Deserializer, DeserializerNopeByteStr, Error, ValueKind,
};
use ser_write::json::ser::{
    format_escaped_str_contents, KeySer, SerializerByteArray, SerializerByteBase64,
    SerializerByteHexStr, StringCollector,
};
use ser_write::{SerError, SerWrite, SliceWriter};

type Res<T> = core::result::Result<T, Error>;

#[test]
fn test_base64_encode() {
    let vec = &mut Vec::new();
    encode(vec, &[]).unwrap();
    assert_eq!(&*vec, b"");
    encode(vec, &[0]).unwrap();
    assert_eq!(&*vec, b"AA");
    vec.clear();
    encode(vec, &[1]).unwrap();
    assert_eq!(&*vec, b"AQ");
    vec.clear();
    encode(vec, &[0, 0]).unwrap();
    assert_eq!(&*vec, b"AAA");
    vec.clear();
    encode(vec, &[0, 0, 0]).unwrap();
    assert_eq!(&*vec, b"AAAA");
    vec.clear();
    encode(vec, &[0, 0, 0, 0]).unwrap();
    assert_eq!(&*vec, b"AAAAAA");
    vec.clear();
    encode(vec, &[1, 2]).unwrap();
    assert_eq!(&*vec, b"AQI");
    vec.clear();
    encode(vec, &[1, 2, 3]).unwrap();
    assert_eq!(&*vec, b"AQID");
    vec.clear();
    encode(vec, &[1, 2, 3, 4]).unwrap();
    assert_eq!(&*vec, b"AQIDBA");
    vec.clear();
    encode(vec, &[0x80]).unwrap();
    assert_eq!(&*vec, b"gA");
    vec.clear();
    encode(vec, &[0x80, 0x81]).unwrap();
    assert_eq!(&*vec, b"gIE");
    vec.clear();
    encode(vec, &[0x80, 0x81, 0x82]).unwrap();
    assert_eq!(&*vec, b"gIGC");
    vec.clear();
    encode(vec, &[0xFF]).unwrap();
    assert_eq!(&*vec, b"/w");
    vec.clear();
    encode(vec, &[0xFF, 0xFF]).unwrap();
    assert_eq!(&*vec, b"//8");
    vec.clear();
    encode(vec, &[0xFF, 0xFF, 0xFF]).unwrap();
    assert_eq!(&*vec, b"////");
}

fn check_decode(vec: &mut Vec<u8>, encoded: &[u8], expected: (usize, usize), decoded: &[u8]) {
    vec.clear();
    vec.extend_from_slice(encoded);
    assert_eq!(decode(vec.as_mut_slice()), None);
    for i in 1..=4 {
        vec.clear();
        vec.extend_from_slice(encoded);
        for _ in 0..i {
            vec.push(b'=');
        }
        assert_eq!(decode(vec.as_mut_slice()), Some(expected));
        assert_eq!(&vec[..expected.0], decoded);
        assert_eq!(vec[expected.1], b'=');
    }
}

#[test]
fn test_base64_decode() {
    let vec = &mut Vec::new();
    check_decode(vec, b"", (0, 0), &[]);
    check_decode(vec, b"A", (0, 1), &[]);
    check_decode(vec, br"/", (0, 1), &[]);
    check_decode(vec, br"AA", (1, 2), &[0]);
    check_decode(vec, br"AAA", (2, 3), &[0, 0]);
    check_decode(vec, br"AAAA", (3, 4), &[0, 0, 0]);
    check_decode(vec, br"AAAAA", (3, 5), &[0, 0, 0]);
    check_decode(vec, br"AAAAAA", (4, 6), &[0, 0, 0, 0]);
    check_decode(vec, br"AQ", (1, 2), &[1]);
    check_decode(vec, br"AQI", (2, 3), &[1, 2]);
    check_decode(vec, br"AQID", (3, 4), &[1, 2, 3]);
    check_decode(vec, br"AQIDB", (3, 5), &[1, 2, 3]);
    check_decode(vec, br"AQIDBA", (4, 6), &[1, 2, 3, 4]);
    check_decode(vec, br"gA", (1, 2), &[0x80]);
    check_decode(vec, br"gIE", (2, 3), &[0x80, 0x81]);
    check_decode(vec, br"gIGC", (3, 4), &[0x80, 0x81, 0x82]);
    check_decode(vec, br"/w", (1, 2), &[0xFF]);
    check_decode(vec, br"//8", (2, 3), &[0xFF, 0xFF]);
    check_decode(vec, br"////", (3, 4), &[0xFF, 0xFF, 0xFF]);
    check_decode(vec, br"/////w", (4, 6), &[0xFF, 0xFF, 0xFF, 0xFF]);
    check_decode(vec, br"//////8", (5, 7), &[0xFF, 0xFF, 0xFF, 0xFF, 0xFF]);
    check_decode(vec, br"////////", (6, 8), &[0xFF, 0xFF, 0xFF, 0xFF, 0xFF, 0xFF]);
}

#[test]
fn base64_encoding_then_decoding_gives_the_bytes_back() {
    let data: Vec<u8> = (0u16..300).map(|i| (i * 7 % 256) as u8).collect();
    for n in 0..data.len() {
        let mut text = Vec::new();
        encode(&mut text, &data[..n]).unwrap();
        text.push(b'"');
        let (len, end) = decode(text.as_mut_slice()).unwrap();
        assert_eq!(len, n);
        assert_eq!(end, text.len() - 1);
        assert_eq!(&text[..len], &data[..n]);
    }
}

#[test]
fn test_parse_str_content() {
    let mut test = [0; 1];
    test.copy_from_slice(br#"""#);
    let mut deser = DeserializerNopeByteStr::from_mut_slice(&mut test);
    assert_eq!(deser.parse_str_content().unwrap(), "");

    let mut test = [0; 13];
    test.copy_from_slice(br#"Hello World!""#);
    let mut deser = DeserializerNopeByteStr::from_mut_slice(&mut test);
    assert_eq!(deser.parse_str_content().unwrap(), "Hello World!");
    assert!(deser.input.is_empty());
    assert_eq!(deser.index, 0);

    let mut test = [0; 46];
    test.copy_from_slice(br#"\u0020Hello\r\\ \b\nW\tor\fld\u007Fy\u0306!\"""#);
    let mut deser = DeserializerNopeByteStr::from_mut_slice(&mut test);
    assert_eq!(
        deser.parse_str_content().unwrap(),
        " Hello\r\\ \x08\nW\tor\x0cld\x7fy̆!\""
    );
    assert!(deser.input.is_empty());
    assert_eq!(deser.index, 0);

    let mut test = [0; 13];
    test.copy_from_slice(br#"Hello World!""#);
    let mut deser = DeserializerNopeByteStr::from_mut_slice(&mut test);
    assert_eq!(deser.parse_str_content().unwrap(), "Hello World!");
    assert!(deser.input.is_empty());
    assert_eq!(deser.index, 0);

    let mut test = [0; 2];
    test.copy_from_slice(b"\n\"");
    let mut deser = DeserializerNopeByteStr::from_mut_slice(&mut test);
    assert_eq!(deser.parse_str_content(), Err(Error::StringControlChar));
}

/// A whole input holding one string.
fn str_from_mut_slice(input: &mut [u8]) -> Res<&str> {
    let mut de = DeserializerNopeByteStr::from_mut_slice(input);
    let s = de.parse_str()?;
    de.end()?;
    Ok(s)
}

/// A JSON number read as a float, as a float parser reads its text.
fn parse_f64<P>(de: &mut Deserializer<'_, P>) -> Res<f64> {
    if de.eat_whitespace()? == b'n' {
        de.parse_null()?;
        return Ok(f64::NAN);
    }
    let text = de.match_float();
    let len = text.len();
    let v = core::str::from_utf8(text)
        .unwrap()
        .parse::<f64>()
        .map_err(|_| Error::InvalidNumber)?;
    de.eat_some(len);
    Ok(v)
}

fn parse_f32<P>(de: &mut Deserializer<'_, P>) -> Res<f32> {
    if de.eat_whitespace()? == b'n' {
        de.parse_null()?;
        return Ok(f32::NAN);
    }
    let text = de.match_float();
    let len = text.len();
    let v = core::str::from_utf8(text)
        .unwrap()
        .parse::<f32>()
        .map_err(|_| Error::InvalidNumber)?;
    de.eat_some(len);
    Ok(v)
}

fn expect_element<P>(seq: &mut CommaSeparated<'_, '_, P>) -> Res<()> {
    if seq.next_element()? {
        Ok(())
    } else {
        Err(Error::UnexpectedChar)
    }
}

#[test]
fn de_test_deserializer() {
    let mut test = [0; 14];
    let s: &str = {
        test.copy_from_slice(br#""Hello World!""#);
        str_from_mut_slice(&mut test).unwrap()
    };
    assert_eq!(s, "Hello World!");
    let mut test = [0; 21];
    let s: &str = {
        test.copy_from_slice(br#" "Hello\tWorld!\r\n" "#);
        str_from_mut_slice(&mut test).unwrap()
    };
    assert_eq!(s, "Hello\tWorld!\r\n");
    let mut test = [0; 57];
    let tup: (i8, u32, i64, f32, f64) = {
        test.copy_from_slice(br#" [ 0 , 4294967295, -9223372036854775808 ,3.14 , 1.2e+8 ] "#);
        let mut de = DeserializerNopeByteStr::from_mut_slice(&mut test);
        de.eat_delimiter(b'[', Error::ExpectedArray).unwrap();
        let mut seq = CommaSeparated::new(&mut de);
        expect_element(&mut seq).unwrap();
        let a: i8 = seq.deserializer().parse_signed().unwrap();
        expect_element(&mut seq).unwrap();
        let b: u32 = seq.deserializer().parse_unsigned().unwrap();
        expect_element(&mut seq).unwrap();
        let c: i64 = seq.deserializer().parse_signed().unwrap();
        expect_element(&mut seq).unwrap();
        let d: f32 = parse_f32(seq.deserializer()).unwrap();
        expect_element(&mut seq).unwrap();
        let e: f64 = parse_f64(seq.deserializer()).unwrap();
        assert_eq!(seq.next_element(), Ok(false));
        de.eat_delimiter(b']', Error::ExpectedArrayEnd).unwrap();
        de.end().unwrap();
        (a, b, c, d, e)
    };
    assert_eq!(tup, (0i8, 4294967295u32, -9223372036854775808i64, 3.14f32, 1.2e+8));
    let mut test = [0; 40];
    let ary: [&str; 3] = {
        test.copy_from_slice(br#" ["one\u0031", "\u0032two", "\u003333"] "#);
        let mut de = DeserializerNopeByteStr::from_mut_slice(&mut test);
        de.eat_delimiter(b'[', Error::ExpectedArray).unwrap();
        let mut items = ["", "", ""];
        {
            let mut seq = CommaSeparated::new(&mut de);
            for item in items.iter_mut() {
                expect_element(&mut seq).unwrap();
                *item = seq.deserializer().parse_str().unwrap();
            }
            assert_eq!(seq.next_element(), Ok(false));
        }
        de.eat_delimiter(b']', Error::ExpectedArrayEnd).unwrap();
        de.end().unwrap();
        items
    };
    assert_eq!(ary, ["one1", "2two", "333"]);
}

#[test]
fn test_ser_string_collector() {
    let mut buf = [0u8; 22];
    let mut writer = SliceWriter::new(&mut buf);
    let mut col = StringCollector::new(&mut writer);
    col.write_str("foo bar").unwrap();
    col.write_str("ℝ\tä\x00\n").unwrap();
    let (res, writer) = writer.split();
    assert_eq!(res, b"foo bar\xe2\x84\x9d\\t\xc3\xa4\\u0000\\n");
    assert_eq!(writer.capacity(), 0);
}

#[test]
fn test_json_string() {
    let mut buf = [0u8; 39];
    let mut writer = SliceWriter::new(&mut buf);
    let s = "\"\x00\x08\x09\n\x0C\rłączka\x1f\\\x7f\"";
    let expected = "\"\\\"\\u0000\\b\\t\\n\\f\\rłączka\\u001F\\\\\x7f\\\"\"";
    let mut ser = SerializerByteArray::new(&mut writer);
    ser.serialize_str(s).unwrap();
    assert_eq!(writer.as_ref(), expected.as_bytes());
}

#[test]
fn escaped_strings_unescape_to_the_original() {
    let samples = [
        "", "plain", "quote \" and \\ backslash", "\x00\x01\x1f\x7f", "tab\tnew\nline\r",
        "ünïcödé ℝ 👏", "\u{8}\u{c}",
    ];
    for s in samples {
        let mut text = vec![b'"'];
        format_escaped_str_contents(&mut text, s).unwrap();
        text.push(b'"');
        let mut de = DeserializerNopeByteStr::from_mut_slice(text.as_mut_slice());
        assert_eq!(de.parse_str().unwrap(), s);
    }
}

#[test]
fn integers_written_read_back() {
    let values: [i64; 7] = [0, 1, -1, 42, -9999, i64::MAX, i64::MIN];
    for v in values {
        let mut out = Vec::new();
        let mut ser = SerializerByteArray::new(&mut out);
        ser.serialize_i64(v).unwrap();
        out.push(b' ');
        let mut de = DeserializerNopeByteStr::from_mut_slice(out.as_mut_slice());
        assert_eq!(de.parse_signed::<i64>(), Ok(v));
    }
    let uvalues: [u64; 4] = [0, 7, 1 << 40, u64::MAX];
    for v in uvalues {
        let mut out = Vec::new();
        let mut ser = SerializerByteArray::new(&mut out);
        ser.serialize_u64(v).unwrap();
        assert_eq!(out, v.to_string().as_bytes());
        let mut de = DeserializerNopeByteStr::from_mut_slice(out.as_mut_slice());
        assert_eq!(de.parse_unsigned::<u64>(), Ok(v));
    }
}

#[test]
fn serializer_writes_compact_json() {
    let mut out = Vec::new();
    let mut ser = SerializerByteArray::new(&mut out);
    {
        let mut seq = ser.serialize_seq().unwrap();
        seq.element().unwrap();
        seq.serializer().serialize_u64(1).unwrap();
        seq.element().unwrap();
        seq.serializer().serialize_bool(false).unwrap();
        seq.element().unwrap();
        seq.serializer().serialize_none().unwrap();
        seq.element().unwrap();
        seq.serializer().serialize_bytes(&[1, 255]).unwrap();
        seq.end_seq().unwrap();
    }
    {
        let mut map = ser.serialize_map().unwrap();
        map.element().unwrap();
        KeySer::new(map.serializer()).serialize_i64(-5).unwrap();
        map.value().unwrap();
        map.serializer().serialize_str("x").unwrap();
        map.element().unwrap();
        KeySer::new(map.serializer()).serialize_bool(true).unwrap();
        map.value().unwrap();
        map.serializer().serialize_u64(2).unwrap();
        map.field("k").unwrap();
        map.serializer().serialize_i64(0).unwrap();
        map.end_map().unwrap();
    }
    ser.begin_newtype_variant("A").unwrap();
    ser.serialize_u64(54).unwrap();
    ser.end_newtype_variant().unwrap();
    {
        let mut tv = ser.serialize_tuple_variant("T").unwrap();
        tv.element().unwrap();
        tv.serializer().serialize_u64(1).unwrap();
        tv.end_tuple_variant().unwrap();
    }
    {
        let mut sv = ser.serialize_struct_variant("S").unwrap();
        sv.field("a").unwrap();
        sv.serializer().serialize_u64(1).unwrap();
        sv.end_struct_variant().unwrap();
    }
    assert_eq!(
        core::str::from_utf8(&out).unwrap(),
        r#"[1,false,null,[1,255]]{"-5":"x","true":2,"k":0}{"A":54}{"T":[1]}{"S":{"a":1}}"#
    );
}

#[test]
fn bytes_are_encoded_as_the_encoder_says() {
    let mut out = Vec::new();
    SerializerByteHexStr::new(&mut out).serialize_bytes(&[0x00, 0xAB, 0x7f]).unwrap();
    assert_eq!(out, b"\"00AB7F\"");
    let mut out = Vec::new();
    SerializerByteBase64::new(&mut out).serialize_bytes(b"{\"Struct\":{\"a\":1}}").unwrap();
    assert_eq!(out, b"\"eyJTdHJ1Y3QiOnsiYSI6MX19\"");
    let mut out = Vec::new();
    SerializerByteArray::new(&mut out).serialize_bytes(&[]).unwrap();
    assert_eq!(out, b"[]");
    let mut out = Vec::new();
    SerializerByteArray::new(&mut out).serialize_bytes_as_hex_str(&[0x12, 0xef]).unwrap();
    assert_eq!(out, b"12EF");
}

#[test]
fn serializer_reports_a_full_writer() {
    let mut buf = [0u8; 3];
    let mut writer = SliceWriter::new(&mut buf);
    let mut ser = SerializerByteArray::new(&mut writer);
    assert_eq!(ser.serialize_str("long"), Err(ser_write::json::ser::Error::Writer(SerError::BufferFull)));
}

#[test]
fn deserializer_errors() {
    let mut text = *b" [1,]";
    let mut de = DeserializerNopeByteStr::from_mut_slice(&mut text);
    de.eat_delimiter(b'[', Error::ExpectedArray).unwrap();
    let mut seq = CommaSeparated::new(&mut de);
    assert_eq!(seq.next_element(), Ok(true));
    assert_eq!(seq.deserializer().parse_unsigned::<u8>(), Ok(1));
    assert_eq!(seq.next_element(), Err(Error::TrailingArrayComma));

    let mut text = *b"[,1]";
    let mut de = DeserializerNopeByteStr::from_mut_slice(&mut text);
    de.eat_delimiter(b'[', Error::ExpectedArray).unwrap();
    assert_eq!(CommaSeparated::new(&mut de).next_element(), Err(Error::LeadingArrayComma));

    let mut text = *b"[1 2]";
    let mut de = DeserializerNopeByteStr::from_mut_slice(&mut text);
    de.eat_delimiter(b'[', Error::ExpectedArray).unwrap();
    let mut seq = CommaSeparated::new(&mut de);
    assert_eq!(seq.next_element(), Ok(true));
    assert_eq!(seq.deserializer().parse_unsigned::<u8>(), Ok(1));
    assert_eq!(seq.next_element(), Err(Error::ExpectedArrayCommaOrEnd));

    let mut text = *b"{1:2}";
    let mut de = DeserializerNopeByteStr::from_mut_slice(&mut text);
    de.eat_delimiter(b'{', Error::ExpectedObject).unwrap();
    assert_eq!(CommaSeparated::new(&mut de).next_key(), Err(Error::KeyMustBeAString));

    let mut text = *b"{,}";
    let mut de = DeserializerNopeByteStr::from_mut_slice(&mut text);
    de.eat_delimiter(b'{', Error::ExpectedObject).unwrap();
    assert_eq!(CommaSeparated::new(&mut de).next_key(), Err(Error::LeadingObjectComma));

    let mut text = *b"{\"a\" 1}";
    let mut de = DeserializerNopeByteStr::from_mut_slice(&mut text);
    de.eat_delimiter(b'{', Error::ExpectedObject).unwrap();
    let mut map = CommaSeparated::new(&mut de);
    assert_eq!(map.next_key(), Ok(true));
    assert_eq!(map.deserializer().parse_str(), Ok("a"));
    assert_eq!(map.deserializer().parse_key_colon(), Err(Error::ExpectedColon));

    let mut text = *b"256";
    assert_eq!(DeserializerNopeByteStr::from_mut_slice(&mut text).parse_unsigned::<u8>(), Err(Error::InvalidNumber));
    let mut text = *b"-129";
    assert_eq!(DeserializerNopeByteStr::from_mut_slice(&mut text).parse_signed::<i8>(), Err(Error::InvalidNumber));
    // a leading zero ends the number
    let mut text = *b"-01";
    let mut de = DeserializerNopeByteStr::from_mut_slice(&mut text);
    assert_eq!(de.parse_signed::<i8>(), Ok(0));
    assert_eq!(de.end(), Err(Error::TrailingCharacters));
    let mut text = *b"-";
    assert_eq!(DeserializerNopeByteStr::from_mut_slice(&mut text).parse_signed::<i8>(), Err(Error::UnexpectedEof));
    let mut text = *b"-x";
    assert_eq!(DeserializerNopeByteStr::from_mut_slice(&mut text).parse_signed::<i8>(), Err(Error::InvalidType));
    let mut text = *b"tru";
    assert_eq!(DeserializerNopeByteStr::from_mut_slice(&mut text).parse_bool(), Err(Error::UnexpectedEof));
    let mut text = *b"trux";
    assert_eq!(DeserializerNopeByteStr::from_mut_slice(&mut text).parse_bool(), Err(Error::ExpectedToken));
    let mut text = *b"x";
    assert_eq!(DeserializerNopeByteStr::from_mut_slice(&mut text).parse_bool(), Err(Error::UnexpectedChar));
    let mut text = *b"0";
    assert_eq!(DeserializerNopeByteStr::from_mut_slice(&mut text).parse_null(), Err(Error::ExpectedNull));
    let mut text = *b"  1";
    assert_eq!(DeserializerNopeByteStr::from_mut_slice(&mut text).parse_str(), Err(Error::ExpectedString));
    let mut text = *b"\"\\x\"";
    assert_eq!(DeserializerNopeByteStr::from_mut_slice(&mut text).parse_str(), Err(Error::InvalidEscapeSequence));
    let mut text = *b"\"ab";
    assert_eq!(DeserializerNopeByteStr::from_mut_slice(&mut text).parse_str(), Err(Error::UnexpectedEof));
    let mut text = *b"\"\\ud800\"";
    assert_eq!(DeserializerNopeByteStr::from_mut_slice(&mut text).parse_str(), Err(Error::InvalidUnicodeCodePoint));
    let mut text = *b"\"\xff\"";
    assert_eq!(DeserializerNopeByteStr::from_mut_slice(&mut text).parse_str(), Err(Error::InvalidUnicodeCodePoint));
    let mut text = *b"\"ab\"";
    assert_eq!(DeserializerNopeByteStr::from_mut_slice(&mut text).parse_char(), Err(Error::InvalidLength));
    let mut text = *b" \"\\u00e4\" ";
    assert_eq!(DeserializerNopeByteStr::from_mut_slice(&mut text).parse_char(), Ok('ä'));
    let mut text = *b"1 x";
    let mut de = DeserializerNopeByteStr::from_mut_slice(&mut text);
    assert_eq!(de.parse_unsigned::<u8>(), Ok(1));
    assert_eq!(de.end(), Err(Error::TrailingCharacters));
    let mut text = *b"[256]";
    let mut de = DeserializerNopeByteStr::from_mut_slice(&mut text);
    assert_eq!(de.parse_bytes(), Err(Error::InvalidNumber));
}

#[test]
fn value_kinds_and_numbers() {
    let mut text = *b" n t f \"s\" -1 [ { x";
    let mut de = DeserializerNopeByteStr::from_mut_slice(&mut text);
    assert_eq!(de.peek_value_kind(), Ok(ValueKind::Null));
    de.eat_some(1);
    assert_eq!(de.peek_value_kind(), Ok(ValueKind::Bool));
    de.eat_some(1);
    assert_eq!(de.peek_value_kind(), Ok(ValueKind::Bool));
    de.eat_some(1);
    assert_eq!(de.peek_value_kind(), Ok(ValueKind::Str));
    de.eat_some(3);
    assert_eq!(de.peek_value_kind(), Ok(ValueKind::Number));
    assert_eq!(de.parse_float_or_int(b'-'), Ok(AnyNumber::NegInt(-1)));
    assert_eq!(de.peek_value_kind(), Ok(ValueKind::Array));
    de.eat_some(1);
    assert_eq!(de.peek_value_kind(), Ok(ValueKind::Object));
    de.eat_some(1);
    assert_eq!(de.peek_value_kind(), Err(Error::UnexpectedChar));
    de.eat_some(1);
    assert_eq!(de.peek_value_kind(), Err(Error::UnexpectedEof));

    let mut text = *b"18446744073709551615 1.5e3 18446744073709551616";
    let mut de = DeserializerNopeByteStr::from_mut_slice(&mut text);
    assert_eq!(de.parse_float_or_int(b'1'), Ok(AnyNumber::PosInt(u64::MAX)));
    de.eat_whitespace().unwrap();
    assert_eq!(de.parse_float_or_int(b'1'), Ok(AnyNumber::Float(5)));
    assert_eq!(parse_f64(&mut de), Ok(1500.0));
    de.eat_whitespace().unwrap();
    assert_eq!(de.parse_float_or_int(b'1'), Err(Error::InvalidNumber));
}

#[test]
fn bytes_are_decoded_in_place() {
    let mut text = *b" [0, 1 ,255] ";
    let mut de = DeserializerNopeByteStr::from_mut_slice(&mut text);
    assert_eq!(de.parse_bytes(), Ok(&[0u8, 1, 255][..]));
    let mut text = *b"\"Ff00ABab\"";
    let mut de = ser_write::json::de::DeserializerHexByteStr::from_mut_slice(&mut text);
    assert_eq!(de.parse_bytes(), Ok(&[0xffu8, 0x00, 0xab, 0xab][..]));
    let mut text = *b"\"Ff0\"";
    let mut de = ser_write::json::de::DeserializerHexByteStr::from_mut_slice(&mut text);
    assert_eq!(de.parse_bytes(), Err(Error::UnexpectedChar));
    let mut text = *b"\"/wCrqw==\"";
    let mut de = ser_write::json::de::DeserializerBase64ByteStr::from_mut_slice(&mut text);
    assert_eq!(de.parse_bytes(), Ok(&[0xffu8, 0x00, 0xab, 0xab][..]));
    let mut text = *b"\"Hello!\\r\\n\"";
    let mut de = DeserializerNopeByteStr::from_mut_slice(&mut text);
    assert_eq!(de.parse_bytes(), Ok(&b"Hello!\r\n"[..]));
}

#[test]
fn numeric_keys() {
    let mut text = *b"\"-17\":";
    let mut de = DeserializerNopeByteStr::from_mut_slice(&mut text);
    assert_eq!(de.parse_signed_numkey::<i32>(), Ok(-17));
    assert_eq!(de.parse_key_colon(), Ok(()));
    let mut text = *b"\"42 \"";
    let mut de = DeserializerNopeByteStr::from_mut_slice(&mut text);
    assert_eq!(de.parse_unsigned_numkey::<u8>(), Err(Error::InvalidNumber));
}

#[test]
fn split_input_keeps_the_tail() {
    let mut text = *b"abcdef";
    let mut de = DeserializerNopeByteStr::from_mut_slice(&mut text);
    de.eat_some(1);
    let head = de.split_input(2, 1);
    assert_eq!(head, b"bc");
    assert_eq!(de.input, b"ef");
    assert_eq!(de.index, 0);
    assert_eq!(de.input_mut().unwrap(), b"ef");
}

#[test]
fn writes_to_an_appending_writer() {
    let mut out = Vec::new();
    out.write(b"x").unwrap();
    format_escaped_str_contents(&mut out, "\"").unwrap();
    assert_eq!(out, b"x\\\"");
}

#[test]
fn encoded_bytes_decode_back() {
    let data: [&[u8]; 4] = [b"", b"\x00", b"\xff\x10\x7f", b"{\"Struct\":{\"a\":1}}"];
    for bytes in data {
        let mut text = Vec::new();
        SerializerByteHexStr::new(&mut text).serialize_bytes(bytes).unwrap();
        text.extend_from_slice(b" ,");
        let mut de = ser_write::json::de::DeserializerHexByteStr::from_mut_slice(text.as_mut_slice());
        assert_eq!(de.parse_bytes(), Ok(bytes));
        assert_eq!(de.eat_whitespace(), Ok(b','));

        let mut text = Vec::new();
        SerializerByteBase64::new(&mut text).serialize_bytes(bytes).unwrap();
        text.extend_from_slice(b"]");
        let mut de = ser_write::json::de::DeserializerBase64ByteStr::from_mut_slice(text.as_mut_slice());
        assert_eq!(de.parse_bytes(), Ok(bytes));
        assert_eq!(de.peek(), Ok(b']'));

        let mut text = Vec::new();
        SerializerByteArray::new(&mut text).serialize_bytes(bytes).unwrap();
        text.extend_from_slice(b"}");
        let mut de = DeserializerNopeByteStr::from_mut_slice(text.as_mut_slice());
        assert_eq!(de.parse_bytes(), Ok(bytes));
        assert_eq!(de.peek(), Ok(b'}'));
    }
}

#[test]
fn boolean_keys() {
    let mut text = *b"\"true\":";
    let mut de = DeserializerNopeByteStr::from_mut_slice(&mut text);
    assert_eq!(de.parse_bool_key(), Ok(true));
    assert_eq!(de.parse_key_colon(), Ok(()));
    let mut text = *b"\"false\"";
    assert_eq!(DeserializerNopeByteStr::from_mut_slice(&mut text).parse_bool_key(), Ok(false));
    let mut text = *b"\"false \"";
    assert_eq!(DeserializerNopeByteStr::from_mut_slice(&mut text).parse_bool_key(), Err(Error::InvalidType));
    let mut text = *b"\"fals\"";
    assert_eq!(DeserializerNopeByteStr::from_mut_slice(&mut text).parse_bool_key(), Err(Error::ExpectedToken));
    let mut text = *b"\"true";
    assert_eq!(DeserializerNopeByteStr::from_mut_slice(&mut text).parse_bool_key(), Err(Error::UnexpectedEof));
    let mut text = *b"\"1\"";
    assert_eq!(DeserializerNopeByteStr::from_mut_slice(&mut text).parse_bool_key(), Err(Error::UnexpectedChar));
}

#[test]
fn delimiters() {
    let mut text = *b" [ ] x";
    let mut de = DeserializerNopeByteStr::from_mut_slice(&mut text);
    assert_eq!(de.eat_delimiter(b'[', Error::ExpectedArray), Ok(()));
    assert_eq!(de.eat_delimiter(b'[', Error::ExpectedArray), Err(Error::ExpectedArray));
    assert_eq!(de.eat_delimiter(b']', Error::ExpectedArrayEnd), Ok(()));
    assert_eq!(de.eat_delimiter(b'}', Error::ExpectedObjectCommaOrEnd), Err(Error::ExpectedObjectCommaOrEnd));
    de.eat_some(1);
    assert_eq!(de.eat_delimiter(b'}', Error::ExpectedEnumObjectEnd), Err(Error::UnexpectedEof));
}

#[test]
fn object_separators() {
    let mut text = *b"{\"a\":1,}";
    let mut de = DeserializerNopeByteStr::from_mut_slice(&mut text);
    de.eat_delimiter(b'{', Error::ExpectedObject).unwrap();
    let mut map = CommaSeparated::new(&mut de);
    assert_eq!(map.next_key(), Ok(true));
    assert_eq!(map.deserializer().parse_str(), Ok("a"));
    assert_eq!(map.deserializer().parse_key_colon(), Ok(()));
    assert_eq!(map.deserializer().parse_unsigned::<u8>(), Ok(1));
    assert_eq!(map.next_key(), Err(Error::TrailingObjectComma));

    let mut text = *b"{\"a\":1 \"b\":2}";
    let mut de = DeserializerNopeByteStr::from_mut_slice(&mut text);
    de.eat_delimiter(b'{', Error::ExpectedObject).unwrap();
    let mut map = CommaSeparated::new(&mut de);
    assert_eq!(map.next_key(), Ok(true));
    assert_eq!(map.deserializer().parse_str(), Ok("a"));
    assert_eq!(map.deserializer().parse_key_colon(), Ok(()));
    assert_eq!(map.deserializer().parse_unsigned::<u8>(), Ok(1));
    assert_eq!(map.next_key(), Err(Error::ExpectedObjectCommaOrEnd));

    let mut text = *b"[1}";
    let mut de = DeserializerNopeByteStr::from_mut_slice(&mut text);
    assert_eq!(de.eat_delimiter(b'{', Error::ExpectedObject), Err(Error::ExpectedObject));
    de.eat_delimiter(b'[', Error::ExpectedArray).unwrap();
    assert_eq!(de.parse_unsigned::<u8>(), Ok(1));
    assert_eq!(de.eat_delimiter(b']', Error::ExpectedArrayEnd), Err(Error::ExpectedArrayEnd));
}

#[test]
fn error_descriptions() {
    assert_eq!(Error::UnexpectedEof.description(), Some("Unexpected end of JSON input"));
    assert_eq!(Error::KeyMustBeAString.description(), Some("Object key is not a string"));
    assert_eq!(Error::DeserializeError("x".into()).description(), None);
    type SerErr = ser_write::json::ser::Error<SerError>;
    assert_eq!(SerErr::InvalidKeyType.description(), Some("invalid JSON object key data type"));
    assert_eq!(SerErr::Writer(SerError::BufferFull).description(), None);
}

#[test]
fn keywords_read_back() {
    for v in [true, false] {
        let mut out = Vec::new();
        SerializerByteArray::new(&mut out).serialize_bool(v).unwrap();
        out.push(b',');
        let mut de = DeserializerNopeByteStr::from_mut_slice(out.as_mut_slice());
        assert_eq!(de.parse_bool(), Ok(v));
        assert_eq!(de.peek(), Ok(b','));
    }
    let mut out = Vec::new();
    SerializerByteArray::new(&mut out).serialize_none().unwrap();
    let mut de = DeserializerNopeByteStr::from_mut_slice(out.as_mut_slice());
    assert_eq!(de.parse_null(), Ok(()));
    assert_eq!(de.end(), Ok(()));
}

#[test]
fn decoding_and_skipping_a_string_stop_at_the_same_quote() {
    let text = br#"a\"b\\c\u0041\n"]tail"#;
    let mut one = *text;
    let mut two = *text;
    let mut de1 = DeserializerNopeByteStr::from_mut_slice(&mut one);
    let mut de2 = DeserializerNopeByteStr::from_mut_slice(&mut two);
    assert_eq!(de1.parse_str_bytes_content().unwrap(), b"a\"b\\cA\n");
    assert_eq!(de2.eat_str_content(), Ok(()));
    assert_eq!(&de2.input[de2.index..], &de1.input[de1.index..]);
    assert_eq!(&de1.input[de1.index..], b"]tail");
}

#[test]
fn hex_digits_of_either_case_are_decoded() {
    let mut text = *b"0aFf7e\"tail";
    let mut de = ser_write::json::de::DeserializerHexByteStr::from_mut_slice(&mut text);
    assert_eq!(de.parse_hex_bytes_content().unwrap(), &[0x0a, 0xff, 0x7e]);
    assert_eq!(&de.input[de.index..], b"tail");
}

#[test]
fn base64_with_any_padding_is_decoded() {
    for text in [&b"AQI\"tail"[..], b"AQI=\"tail", b"AQI==\"tail"] {
        let mut buf = text.to_vec();
        let mut de = ser_write::json::de::DeserializerBase64ByteStr::from_mut_slice(&mut buf);
        assert_eq!(de.parse_base64_bytes_content().unwrap(), &[1, 2]);
        assert_eq!(&de.input[de.index..], b"tail");
    }
}

#[test]
fn empty_inputs_write_nothing_even_to_a_full_writer() {
    let mut buf = [0u8; 0];
    let mut writer = SliceWriter::new(&mut buf);
    assert_eq!(encode(&mut writer, &[]), Ok(()));
    assert_eq!(format_escaped_str_contents(&mut writer, ""), Ok(()));
    let mut ser = SerializerByteHexStr::new(&mut writer);
    assert_eq!(ser.serialize_bytes_as_hex_str(&[]), Ok(()));
    assert_eq!(writer.len(), 0);
    assert_eq!(encode(&mut writer, &[1]), Err(SerError::BufferFull));
}

#[test]
fn base64_encoding_splits_at_whole_groups() {
    let a = [1u8, 2, 3, 250, 251, 252];
    let b = [7u8, 8];
    let (mut w1, mut w2, mut w3) = (Vec::new(), Vec::new(), Vec::new());
    encode(&mut w1, &a).unwrap();
    encode(&mut w2, &b).unwrap();
    encode(&mut w3, &[&a[..], &b[..]].concat()).unwrap();
    assert_eq!(w3, [w1, w2].concat());
    assert_eq!(w3, b"AQID+vv8Bwg");
}

#[test]
fn unescaped_string_lies_in_place_over_its_escaped_form() {
    let mut buf = *b"a\\nb\"rest";
    {
        let mut de = DeserializerNopeByteStr::from_mut_slice(&mut buf);
        assert_eq!(de.parse_str_bytes_content().unwrap(), b"a\nb");
        assert_eq!(&de.input[de.index..], b"rest");
    }
    assert_eq!(&buf[..3], b"a\nb");
    assert_eq!(&buf[5..], b"rest");
}
