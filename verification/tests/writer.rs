use std::collections::VecDeque;

use ser_write::bounded::{
    ArrayVecWriter, HeaplessWriter, SliceVecWriter, SmallVecWriter, TinyArrayVecWriter, TinyVecWriter,
};
use ser_write::{SerError, SerWrite, SliceWriter};

#[test]
fn lib_test_ser_error() {
    assert_eq!(SerError::BufferFull.to_string(), "buffer is full");
    let mut buf = [0u8; 0];
    let mut writer = SliceWriter::new(&mut buf);
    assert_eq!(core::fmt::Write::write_str(&mut writer, "!"), Err(core::fmt::Error));
}

#[test]
fn test_slice_writer() {
    let mut buf = [0u8; 22];
    let mut writer = SliceWriter::new(&mut buf);
    assert_eq!(writer.capacity(), 22);
    assert_eq!(writer.rem_capacity(), 22);
    assert_eq!(writer.len(), 0);
    assert_eq!(writer.is_empty(), true);
    writer.write(b"Hello World!").unwrap();
    assert_eq!(writer.rem_capacity(), 10);
    assert_eq!(writer.len(), 12);
    assert_eq!(writer.is_empty(), false);
    writer.write_byte(b' ').unwrap();
    assert_eq!(writer.rem_capacity(), 9);
    assert_eq!(writer.len(), 13);
    assert_eq!(writer.is_empty(), false);
    SerWrite::write_str(&mut writer, "Good Bye!").unwrap();
    let expected = b"Hello World! Good Bye!";
    assert_eq!(writer.as_ref(), expected);
    assert_eq!(writer.as_mut(), expected);
    assert_eq!(writer.capacity(), 22);
    assert_eq!(writer.rem_capacity(), 0);
    assert_eq!(writer.is_empty(), false);
    assert_eq!(writer.len(), 22);
    let (head, mut writer) = writer.split();
    assert_eq!(head, expected);
    assert_eq!(writer.write_byte(b' ').unwrap_err(), SerError::BufferFull);
}

#[test]
fn test_ser_write_vec() {
    let mut writer = Vec::new();
    writer.write(b"Hello World!").unwrap();
    writer.write_byte(b' ').unwrap();
    writer.write_str("Good Bye!").unwrap();
    let expected = b"Hello World! Good Bye!";
    assert_eq!(&writer, expected);
}

#[test]
fn test_ser_write_vec_deque() {
    let mut writer = VecDeque::new();
    writer.write(b"Hello World!").unwrap();
    writer.write_byte(b' ').unwrap();
    writer.write_str("Good Bye!").unwrap();
    let expected = b"Hello World! Good Bye!";
    assert_eq!(&writer, expected);
}

#[test]
fn slice_writer_refuses_what_does_not_fit() {
    let mut buf = [7u8; 5];
    let mut writer = SliceWriter::new(&mut buf);
    writer.write(b"abc").unwrap();
    // a write that does not fit leaves the writer unchanged
    assert_eq!(writer.write(b"def"), Err(SerError::BufferFull));
    assert_eq!(writer.len(), 3);
    assert_eq!(writer.as_ref(), b"abc");
    writer.write(b"de").unwrap();
    assert_eq!(writer.as_ref(), b"abcde");
    assert_eq!(writer.write(b""), Ok(()));
    assert_eq!(writer.write_byte(b'!'), Err(SerError::BufferFull));
}

#[test]
fn slice_writer_clear_and_split() {
    let mut buf = [0u8; 6];
    let mut writer = SliceWriter::new(&mut buf);
    writer.write(b"xyz").unwrap();
    writer.clear();
    assert_eq!(writer.len(), 0);
    assert!(writer.is_empty());
    assert_eq!(writer.rem_capacity(), 6);
    writer.write(b"ab").unwrap();
    let (head, mut rest) = writer.split();
    assert_eq!(head, b"ab");
    assert_eq!(rest.capacity(), 4);
    rest.write(b"cdef").unwrap();
    assert_eq!(rest.as_ref(), b"cdef");
    assert_eq!(buf, *b"abcdef");
}

#[test]
fn slice_writer_formats() {
    let mut buf = [0u8; 4];
    let mut writer = SliceWriter::new(&mut buf);
    assert_eq!(core::fmt::Write::write_str(&mut writer, "ok"), Ok(()));
    assert_eq!(core::fmt::Write::write_str(&mut writer, "too long"), Err(core::fmt::Error));
    assert_eq!(writer.as_ref(), b"ok");
}

#[test]
fn writer_through_a_mutable_reference() {
    let mut vec = Vec::new();
    {
        let mut by_ref = &mut vec;
        by_ref.write(b"12").unwrap();
        by_ref.write_byte(b'3').unwrap();
        SerWrite::write_str(&mut by_ref, "45").unwrap();
    }
    assert_eq!(vec, b"12345");
}

#[test]
fn vec_deque_appends_after_existing_content() {
    let mut deque: VecDeque<u8> = VecDeque::new();
    deque.push_back(b'<');
    deque.write(b"abc").unwrap();
    deque.write_byte(b'>').unwrap();
    assert_eq!(deque, b"<abc>");
}

#[test]
fn slice_writer_length_stays_within_the_buffer() {
    let mut buf = [0u8; 5];
    let mut writer = SliceWriter::new(&mut buf);
    let check = |w: &SliceWriter| {
        assert!(w.len() <= w.capacity());
        assert_eq!(w.len() + w.rem_capacity(), w.capacity());
        assert_eq!(w.is_empty(), w.len() == 0);
    };
    check(&writer);
    assert_eq!(writer.write_byte(1), Ok(()));
    check(&writer);
    assert_eq!(SerWrite::write_str(&mut writer, "abc"), Ok(()));
    check(&writer);
    assert_eq!(writer.write(b"xy"), Err(SerError::BufferFull));
    check(&writer);
    assert_eq!(writer.write(b"z"), Ok(()));
    check(&writer);
    assert_eq!(writer.write_byte(2), Err(SerError::BufferFull));
    assert_eq!(writer.len(), 5);
    writer.clear();
    check(&writer);
    assert_eq!(writer.write(b"pq"), Ok(()));
    let (head, rest) = writer.split();
    assert_eq!(head, b"pq");
    check(&rest);
    assert_eq!(rest.capacity(), 3);
}

#[test]
fn test_ser_write_arrayvec() {
    let mut writer = ArrayVecWriter::<22>::new();
    writer.write(b"Hello World!").unwrap();
    writer.write_byte(b' ').unwrap();
    writer.write_str("Good Bye!").unwrap();
    let expected = b"Hello World! Good Bye!";
    assert_eq!(writer.as_slice(), expected);
    assert_eq!(writer.write_byte(b' ').unwrap_err(), SerError::BufferFull);
    assert_eq!(writer.write(b" ").unwrap_err(), SerError::BufferFull);
    assert_eq!(writer.into_inner().as_slice(), expected);
}

#[test]
fn test_ser_write_heapless() {
    let mut writer = HeaplessWriter::<22>::new();
    writer.write(b"Hello World!").unwrap();
    writer.write_byte(b' ').unwrap();
    writer.write_str("Good Bye!").unwrap();
    let expected = b"Hello World! Good Bye!";
    assert_eq!(writer.as_slice(), expected);
    assert_eq!(writer.write_byte(b' ').unwrap_err(), SerError::BufferFull);
    assert_eq!(writer.write(b" ").unwrap_err(), SerError::BufferFull);
}

#[test]
fn test_ser_write_smallvec() {
    let mut writer = SmallVecWriter::<12>::new();
    writer.write(b"Hello World!").unwrap();
    writer.write_byte(b' ').unwrap();
    writer.write_str("Good Bye!").unwrap();
    let expected = b"Hello World! Good Bye!";
    assert_eq!(writer.as_slice(), expected);
}

#[test]
fn test_ser_write_tinyvec_arrayvec() {
    let mut writer = TinyArrayVecWriter::<22>::new();
    writer.write(b"Hello World!").unwrap();
    writer.write_byte(b' ').unwrap();
    writer.write_str("Good Bye!").unwrap();
    let expected = b"Hello World! Good Bye!";
    assert_eq!(writer.as_slice(), expected);
    assert_eq!(writer.write_byte(b' ').unwrap_err(), SerError::BufferFull);
    assert_eq!(writer.write(b" ").unwrap_err(), SerError::BufferFull);
    assert_eq!(writer.into_inner().as_slice(), expected);
}

#[test]
fn test_ser_write_tinyvec_slicevec() {
    let mut buf = [0u8; 22];
    let mut writer = SliceVecWriter::from_slice_len(&mut buf, 0);
    writer.write(b"Hello World!").unwrap();
    writer.write_byte(b' ').unwrap();
    writer.write_str("Good Bye!").unwrap();
    let expected = b"Hello World! Good Bye!";
    assert_eq!(writer.as_slice(), expected);
    assert_eq!(writer.write_byte(b' ').unwrap_err(), SerError::BufferFull);
    assert_eq!(writer.write(b" ").unwrap_err(), SerError::BufferFull);
}

#[test]
fn test_ser_write_tinyvec_tinyvec() {
    let mut writer = TinyVecWriter::<12>::new();
    writer.write(b"Hello World!").unwrap();
    writer.write_byte(b' ').unwrap();
    writer.write_str("Good Bye!").unwrap();
    let expected = b"Hello World! Good Bye!";
    assert_eq!(writer.as_slice(), expected);
}

#[test]
fn slicevec_writer_keeps_what_the_slice_held() {
    let mut buf = *b"ab\0\0\0";
    let mut writer = SliceVecWriter::from_slice_len(&mut buf, 2);
    assert_eq!(writer.as_slice(), b"ab");
    assert_eq!(writer.write(b"cde"), Ok(()));
    assert_eq!(writer.write(b""), Ok(()));
    assert_eq!(writer.write(b"f"), Err(SerError::BufferFull));
    assert_eq!(writer.as_slice(), b"abcde");
}

#[test]
fn fixed_writers_refuse_what_does_not_fit_and_keep_the_rest() {
    let mut a = ArrayVecWriter::<4>::new();
    let mut h = HeaplessWriter::<4>::new();
    let mut t = TinyArrayVecWriter::<4>::new();
    assert_eq!(a.write(b"abc"), Ok(()));
    assert_eq!(h.write(b"abc"), Ok(()));
    assert_eq!(t.write(b"abc"), Ok(()));
    assert_eq!(a.write(b"de"), Err(SerError::BufferFull));
    assert_eq!(h.write(b"de"), Err(SerError::BufferFull));
    assert_eq!(t.write(b"de"), Err(SerError::BufferFull));
    assert_eq!(a.as_slice(), b"abc");
    assert_eq!(h.as_slice(), b"abc");
    assert_eq!(t.as_slice(), b"abc");
    assert_eq!(a.write_byte(b'd'), Ok(()));
    assert_eq!(h.write_byte(b'd'), Ok(()));
    assert_eq!(t.write_byte(b'd'), Ok(()));
    assert_eq!(a.as_slice(), b"abcd");
    assert_eq!(h.as_slice(), b"abcd");
    assert_eq!(t.as_slice(), b"abcd");
}

#[test]
fn growing_writers_spill_past_their_inline_capacity() {
    let mut s = SmallVecWriter::<2>::new();
    let mut t = TinyVecWriter::<2>::new();
    for _ in 0..100 {
        s.write(b"xyz").unwrap();
        t.write(b"xyz").unwrap();
        s.write_byte(b'.').unwrap();
        t.write_byte(b'.').unwrap();
    }
    assert_eq!(s.as_slice(), b"xyz.".repeat(100).as_slice());
    assert_eq!(t.as_slice(), b"xyz.".repeat(100).as_slice());
}
