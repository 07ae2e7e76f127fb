//! What the MessagePack serializer writes, the deserializer reads back.
//!
//! Each law speaks of the encoding that a writer function of [`super::ser`]
//! appends, followed by arbitrary further input, and of the parse that the
//! corresponding reader of [`super::de`] makes of it.
use vstd::prelude::*;

use super::de::{
    is_index_code, is_str_code, items_end, lemma_msg_end_bounds, msg_end, msg_header, spec_bin,
    spec_bool, spec_header_len, spec_integer, spec_nil, spec_number, spec_str, sint_at, uint_at,
    within, Error, Number,
};
use super::magick;
use super::magick::{
    ARRAY_16, ARRAY_32, BIN_16, BIN_32, BIN_8, FALSE, FIXARRAY, FIXMAP, FIXSTR, FLOAT_32, FLOAT_64,
    MAP_16, MAP_32, NIL, STR_16, STR_32, STR_8, TRUE,
};
use super::ser::{enc_array_len, enc_bin_len, enc_int, enc_map_len, enc_str_len, enc_uint, marked, twos};

verus! {

/// Reading the `n` byte number that follows a marker.
proof fn lemma_read_marked(m: u8, x: nat, n: nat, rest: Seq<u8>)
    requires
        n <= 8,
        x < magick::pow256(n),
    ensures
        marked(m, x, n).len() == 1 + n,
        (marked(m, x, n) + rest).len() == 1 + n + rest.len(),
        (marked(m, x, n) + rest)[0] == m,
        (marked(m, x, n) + rest).subrange(1, 1 + n as int) == magick::be_bytes(x, n),
        uint_at(marked(m, x, n) + rest, 1, n as int) == Ok::<(int, int), Error>((x as int, 1 + n as int)),
{
    magick::lemma_be_bytes_len(x, n);
    magick::lemma_be_value_bytes(x, n);
    let t = marked(m, x, n) + rest;
    assert(t.subrange(1, 1 + n as int) =~= magick::be_bytes(x, n));
    vstd::arithmetic::div_mod::lemma_small_mod(x, magick::pow256(n));
}

/// Reading the `n` byte two's complement number that follows a marker.
proof fn lemma_read_marked_signed(m: u8, v: int, n: nat, rest: Seq<u8>)
    requires
        n == 1 || n == 2 || n == 4 || n == 8,
        -(magick::pow256(n) / 2) <= v < magick::pow256(n) / 2,
    ensures
        twos(v, n) < magick::pow256(n),
        marked(m, twos(v, n), n).len() == 1 + n,
        (marked(m, twos(v, n), n) + rest)[0] == m,
        sint_at(marked(m, twos(v, n), n) + rest, 1, n as int) == Ok::<(int, int), Error>((v, 1 + n as int)),
{
    super::de::lemma_pow256_values();
    let p = magick::pow256(n) as int;
    let x = twos(v, n);
    assert(0 <= v % p < p);
    if v >= 0 {
        vstd::arithmetic::div_mod::lemma_small_mod(v as nat, p as nat);
    } else {
        vstd::arithmetic::div_mod::lemma_mod_add_multiples_vanish(v, p);
        vstd::arithmetic::div_mod::lemma_small_mod((v + p) as nat, p as nat);
    }
    lemma_read_marked(m, x, n, rest);
    let t = marked(m, x, n) + rest;
    magick::lemma_be_value_bytes(x, n);
    vstd::arithmetic::div_mod::lemma_small_mod(x, p as nat);
    assert(magick::be_value(t.subrange(1, 1 + n as int)) == x);
}

/// What [`write_i64`](super::ser::write_i64) writes for a signed integer,
/// [`parse_integer`](super::de::Deserializer::parse_integer) reads back as
/// that integer, from exactly the bytes written.
pub proof fn law_int_roundtrip(v: i64, rest: Seq<u8>)
    ensures
        spec_integer(enc_int(v as int) + rest) == Ok::<(int, int), Error>((v as int, enc_int(v as int).len() as int)),
{
    super::de::lemma_pow256_values();
    let e = enc_int(v as int);
    let t = e + rest;
    if -32 <= v <= 0x7f {
        if v < 0 {
            vstd::arithmetic::div_mod::lemma_mod_add_multiples_vanish(v as int, 256);
            vstd::arithmetic::div_mod::lemma_small_mod((v + 256) as nat, 256);
        } else {
            vstd::arithmetic::div_mod::lemma_small_mod(v as nat, 256);
        }
    } else if -0x80 <= v <= 0x7f {
        lemma_read_marked_signed(super::magick::INT_8, v as int, 1, rest);
    } else if 0 <= v <= 0xff {
        assert(t.subrange(1, 2) =~= seq![v as u8]);
        lemma_be_value_one(v as u8);
    } else if -0x8000 <= v <= 0x7fff {
        lemma_read_marked_signed(super::magick::INT_16, v as int, 2, rest);
    } else if 0 <= v <= 0xffff {
        lemma_read_marked(super::magick::UINT_16, v as nat, 2, rest);
    } else if -0x8000_0000 <= v <= 0x7fff_ffff {
        lemma_read_marked_signed(super::magick::INT_32, v as int, 4, rest);
    } else if 0 <= v <= 0xffff_ffff {
        lemma_read_marked(super::magick::UINT_32, v as nat, 4, rest);
    } else {
        lemma_read_marked_signed(super::magick::INT_64, v as int, 8, rest);
    }
}

/// The value of a single byte.
proof fn lemma_be_value_one(b: u8)
    ensures
        magick::be_value(seq![b]) == b,
{
    assert(seq![b].drop_last() =~= Seq::<u8>::empty());
    assert(magick::be_value(Seq::<u8>::empty()) == 0);
}

/// A marker and a one-byte length.
proof fn lemma_read_byte_after(m: u8, b: u8, rest: Seq<u8>)
    ensures
        (seq![m, b] + rest)[0] == m,
        uint_at(seq![m, b] + rest, 1, 1) == Ok::<(int, int), Error>((b as int, 2)),
{
    assert((seq![m, b] + rest).subrange(1, 2) =~= seq![b]);
    lemma_be_value_one(b);
}

/// What [`write_u64`](super::ser::write_u64) writes for an unsigned integer,
/// [`parse_integer`](super::de::Deserializer::parse_integer) reads back as
/// that integer, from exactly the bytes written.
pub proof fn law_uint_roundtrip(v: u64, rest: Seq<u8>)
    ensures
        spec_integer(enc_uint(v as nat) + rest) == Ok::<(int, int), Error>((v as int, enc_uint(v as nat).len() as int)),
{
    super::de::lemma_pow256_values();
    if v <= 0x7f {
    } else if v <= 0xff {
        lemma_read_byte_after(super::magick::UINT_8, v as u8, rest);
    } else if v <= 0xffff {
        lemma_read_marked(super::magick::UINT_16, v as nat, 2, rest);
    } else if v <= 0xffff_ffff {
        lemma_read_marked(super::magick::UINT_32, v as nat, 4, rest);
    } else {
        lemma_read_marked(super::magick::UINT_64, v as nat, 8, rest);
    }
}

/// The header of a string of `n` bytes is read back as that length.
proof fn lemma_str_header(n: nat, tail: Seq<u8>)
    requires
        n <= 0xffff_ffff,
    ensures
        spec_header_len(enc_str_len(n) + tail, FIXSTR, 0x20, Some(STR_8), STR_16, STR_32, Error::ExpectedString)
            == Ok::<(int, int), Error>((n as int, enc_str_len(n).len() as int)),
{
    super::de::lemma_pow256_values();
    if n <= 0x1f {
    } else if n <= 0xff {
        lemma_read_byte_after(STR_8, n as u8, tail);
    } else if n <= 0xffff {
        lemma_read_marked(STR_16, n, 2, tail);
    } else {
        lemma_read_marked(STR_32, n, 4, tail);
    }
}

/// The header of a binary of `n` bytes is read back as that length.
proof fn lemma_bin_header(n: nat, tail: Seq<u8>)
    requires
        n <= 0xffff_ffff,
    ensures
        spec_header_len(enc_bin_len(n) + tail, BIN_8, 0, Some(BIN_8), BIN_16, BIN_32, Error::ExpectedBin)
            == Ok::<(int, int), Error>((n as int, enc_bin_len(n).len() as int)),
{
    super::de::lemma_pow256_values();
    if n <= 0xff {
        lemma_read_byte_after(BIN_8, n as u8, tail);
    } else if n <= 0xffff {
        lemma_read_marked(BIN_16, n, 2, tail);
    } else {
        lemma_read_marked(BIN_32, n, 4, tail);
    }
}

/// What [`write_str`](super::ser::write_str) writes for a string of at most
/// `u32::MAX` bytes, [`parse_str`](super::de::Deserializer::parse_str) reads back
/// as that string, from exactly the bytes written.
pub proof fn law_str_roundtrip(b: Seq<u8>, rest: Seq<u8>)
    requires
        vstd::utf8::valid_utf8(b),
        b.len() <= 0xffff_ffff,
    ensures
        spec_str(enc_str_len(b.len()) + b + rest) == Ok::<(Seq<u8>, int), Error>((b, (enc_str_len(b.len()) + b).len() as int)),
{
    let h = enc_str_len(b.len());
    let t = h + b + rest;
    assert(t =~= h + (b + rest));
    lemma_str_header(b.len(), b + rest);
    assert(t.subrange(h.len() as int, (h.len() + b.len()) as int) =~= b);
}

/// What [`write_bin`](super::ser::write_bin) writes for at most `u32::MAX`
/// bytes, [`parse_bytes`](super::de::Deserializer::parse_bytes) reads back as
/// those bytes, from exactly the bytes written.
pub proof fn law_bin_roundtrip(b: Seq<u8>, rest: Seq<u8>)
    requires
        b.len() <= 0xffff_ffff,
    ensures
        spec_bin(enc_bin_len(b.len()) + b + rest) == Ok::<(Seq<u8>, int), Error>((b, (enc_bin_len(b.len()) + b).len() as int)),
{
    let h = enc_bin_len(b.len());
    let t = h + b + rest;
    assert(t =~= h + (b + rest));
    lemma_bin_header(b.len(), b + rest);
    assert(t.subrange(h.len() as int, (h.len() + b.len()) as int) =~= b);
}

/// The header that [`write_array_len`](super::ser::write_array_len) writes is
/// read back by [`parse_array_len`](super::de::Deserializer::parse_array_len)
/// as the same number of items.
pub proof fn law_array_len_roundtrip(n: nat, rest: Seq<u8>)
    requires
        n <= 0xffff_ffff,
    ensures
        spec_header_len(enc_array_len(n) + rest, FIXARRAY, 0x10, None, ARRAY_16, ARRAY_32, Error::ExpectedArray)
            == Ok::<(int, int), Error>((n as int, enc_array_len(n).len() as int)),
{
    super::de::lemma_pow256_values();
    if n <= 0x0f {
    } else if n <= 0xffff {
        lemma_read_marked(ARRAY_16, n, 2, rest);
    } else {
        lemma_read_marked(ARRAY_32, n, 4, rest);
    }
}

/// The header that [`write_map_len`](super::ser::write_map_len) writes is read
/// back by [`parse_map_len`](super::de::Deserializer::parse_map_len) as the
/// same number of entries.
pub proof fn law_map_len_roundtrip(n: nat, rest: Seq<u8>)
    requires
        n <= 0xffff_ffff,
    ensures
        spec_header_len(enc_map_len(n) + rest, FIXMAP, 0x10, None, MAP_16, MAP_32, Error::ExpectedMap)
            == Ok::<(int, int), Error>((n as int, enc_map_len(n).len() as int)),
{
    super::de::lemma_pow256_values();
    if n <= 0x0f {
    } else if n <= 0xffff {
        lemma_read_marked(MAP_16, n, 2, rest);
    } else {
        lemma_read_marked(MAP_32, n, 4, rest);
    }
}

/// What [`write_bool`](super::ser::write_bool) writes is read back by
/// [`parse_bool`](super::de::Deserializer::parse_bool) as the same boolean.
pub proof fn law_bool_roundtrip(v: bool, rest: Seq<u8>)
    ensures
        spec_bool(seq![if v { TRUE } else { FALSE }] + rest) == Ok::<(bool, int), Error>((v, 1)),
{
}

/// What [`write_nil`](super::ser::write_nil) writes is read back by
/// [`parse_nil`](super::de::Deserializer::parse_nil).
pub proof fn law_nil_roundtrip(rest: Seq<u8>)
    ensures
        spec_nil(seq![NIL] + rest) == Ok::<((), int), Error>(((), 1)),
{
}

/// The bits of a single precision float written by
/// [`write_f32_bits`](super::ser::write_f32_bits) are read back by
/// [`parse_number`](super::de::Deserializer::parse_number).
pub proof fn law_f32_roundtrip(bits: u32, rest: Seq<u8>)
    ensures
        spec_number(marked(FLOAT_32, bits as nat, 4) + rest) == Ok::<(Number, int), Error>((Number::Float32(bits), 5)),
{
    super::de::lemma_pow256_values();
    lemma_read_marked(FLOAT_32, bits as nat, 4, rest);
}

/// The bits of a double precision float written by
/// [`write_f64_bits`](super::ser::write_f64_bits) are read back by
/// [`parse_number`](super::de::Deserializer::parse_number).
pub proof fn law_f64_roundtrip(bits: u64, rest: Seq<u8>)
    ensures
        spec_number(marked(FLOAT_64, bits as nat, 8) + rest) == Ok::<(Number, int), Error>((Number::Float64(bits), 9)),
{
    super::de::lemma_pow256_values();
    lemma_read_marked(FLOAT_64, bits as nat, 8, rest);
}

/// What [`write_i64`](super::ser::write_i64) writes for an integer is one
/// whole message: [`eat_message`](super::de::Deserializer::eat_message) skips
/// exactly it.
pub proof fn law_int_is_message(v: i64)
    ensures
        is_message(enc_int(v as int)),
{
    super::de::lemma_pow256_values();
    let e = enc_int(v as int);
    assert forall|rest: Seq<u8>| #[trigger] msg_end(e + rest, 0) == Ok::<int, Error>(e.len() as int) by {
        law_int_roundtrip(v, rest);
        if -0x80 <= v <= 0x7f {
        } else if 0 <= v <= 0xff {
        } else if -0x8000 <= v <= 0xffff {
            magick::lemma_be_bytes_len(twos(v as int, 2), 2);
        } else if -0x8000_0000 <= v <= 0xffff_ffff {
            magick::lemma_be_bytes_len(twos(v as int, 4), 4);
        } else {
            magick::lemma_be_bytes_len(twos(v as int, 8), 8);
        }
    }
}

/// What [`write_u64`](super::ser::write_u64) writes for an unsigned integer
/// is one whole message.
pub proof fn law_uint_is_message(v: u64)
    ensures
        is_message(enc_uint(v as nat)),
{
    super::de::lemma_pow256_values();
    let e = enc_uint(v as nat);
    assert forall|rest: Seq<u8>| #[trigger] msg_end(e + rest, 0) == Ok::<int, Error>(e.len() as int) by {
        law_uint_roundtrip(v, rest);
        if v <= 0xff {
        } else if v <= 0xffff {
            magick::lemma_be_bytes_len(v as nat, 2);
        } else if v <= 0xffff_ffff {
            magick::lemma_be_bytes_len(v as nat, 4);
        } else {
            magick::lemma_be_bytes_len(v as nat, 8);
        }
    }
}

/// What [`write_str`](super::ser::write_str) writes for a string of at most
/// `u32::MAX` bytes is one whole message.
pub proof fn law_str_is_message(b: Seq<u8>)
    requires
        b.len() <= 0xffff_ffff,
    ensures
        is_message(enc_str_len(b.len()) + b),
{
    let h = enc_str_len(b.len());
    assert forall|rest: Seq<u8>| #[trigger] msg_end(h + b + rest, 0) == Ok::<int, Error>((h + b).len() as int) by {
        let t = h + b + rest;
        assert(t =~= h + (b + rest));
        lemma_str_header(b.len(), b + rest);
    }
}

/// What [`write_bin`](super::ser::write_bin) writes for at most `u32::MAX`
/// bytes is one whole message.
pub proof fn law_bin_is_message(b: Seq<u8>)
    requires
        b.len() <= 0xffff_ffff,
    ensures
        is_message(enc_bin_len(b.len()) + b),
{
    let h = enc_bin_len(b.len());
    assert forall|rest: Seq<u8>| #[trigger] msg_end(h + b + rest, 0) == Ok::<int, Error>((h + b).len() as int) by {
        let t = h + b + rest;
        assert(t =~= h + (b + rest));
        lemma_bin_header(b.len(), b + rest);
    }
}

/// What [`write_bool`](super::ser::write_bool), [`write_nil`](super::ser::write_nil),
/// [`write_f32_bits`](super::ser::write_f32_bits) and
/// [`write_f64_bits`](super::ser::write_f64_bits) write are whole messages.
pub proof fn law_scalars_are_messages(v: bool, f32_bits: u32, f64_bits: u64)
    ensures
        is_message(seq![if v { TRUE } else { FALSE }]),
        is_message(seq![NIL]),
        is_message(marked(FLOAT_32, f32_bits as nat, 4)),
        is_message(marked(FLOAT_64, f64_bits as nat, 8)),
{
    super::de::lemma_pow256_values();
    magick::lemma_be_bytes_len(f32_bits as nat, 4);
    magick::lemma_be_bytes_len(f64_bits as nat, 8);
    let b = seq![if v { TRUE } else { FALSE }];
    assert forall|rest: Seq<u8>| #[trigger] msg_end(b + rest, 0) == Ok::<int, Error>(1) by {
        assert((b + rest)[0] == b[0]);
    }
    assert forall|rest: Seq<u8>| #[trigger] msg_end(seq![NIL] + rest, 0) == Ok::<int, Error>(1) by {
        assert((seq![NIL] + rest)[0] == NIL);
    }
    assert forall|rest: Seq<u8>| #[trigger] msg_end(marked(FLOAT_32, f32_bits as nat, 4) + rest, 0) == Ok::<int, Error>(5) by {
        lemma_read_marked(FLOAT_32, f32_bits as nat, 4, rest);
    }
    assert forall|rest: Seq<u8>| #[trigger] msg_end(marked(FLOAT_64, f64_bits as nat, 8) + rest, 0) == Ok::<int, Error>(9) by {
        lemma_read_marked(FLOAT_64, f64_bits as nat, 8, rest);
    }
}

/// A position read from `s.skip(i)`, as a position in `s`.
pub open spec fn end_shifted(r: Result<int, Error>, i: int) -> Result<int, Error> {
    match r {
        Ok(k) => Ok(k + i),
        Err(e) => Err(e),
    }
}

/// A number read from `s.skip(i)` and the position after it, as a position in `s`.
spec fn uint_shifted(r: Result<(int, int), Error>, i: int) -> Result<(int, int), Error> {
    match r {
        Ok((v, k)) => Ok((v, k + i)),
        Err(e) => Err(e),
    }
}

/// A header read from `s.skip(i)`, with the position after it in `s`.
spec fn header_shifted(r: Result<(int, int, int), Error>, i: int) -> Result<(int, int, int), Error> {
    match r {
        Ok((kind, n, k)) => Ok((kind, n, k + i)),
        Err(e) => Err(e),
    }
}

/// Reading a number at position `i + j` of `s` is reading it at position `j` of `s.skip(i)`.
proof fn lemma_uint_at_shift(s: Seq<u8>, i: int, j: int, n: int)
    requires
        0 <= i <= s.len(),
        0 <= j,
        0 <= n,
    ensures
        uint_at(s, i + j, n) == uint_shifted(uint_at(s.skip(i), j, n), i),
{
    if i + j + n <= s.len() {
        assert(s.subrange(i + j, i + j + n) =~= s.skip(i).subrange(j, j + n));
    }
}

/// Reading a header at position `i + j` of `s` is reading it at position `j` of `s.skip(i)`.
proof fn lemma_msg_header_shift(s: Seq<u8>, i: int, j: int)
    requires
        0 <= i <= s.len(),
        0 <= j,
    ensures
        msg_header(s, i + j) == header_shifted(msg_header(s.skip(i), j), i),
{
    let t = s.skip(i);
    if j < t.len() {
        assert(s[i + j] == t[j]);
        lemma_uint_at_shift(s, i, j + 1, 1);
        lemma_uint_at_shift(s, i, j + 1, 2);
        lemma_uint_at_shift(s, i, j + 1, 4);
    }
}

/// The end of the message at position `i + j` of `s` is the end of the
/// message at position `j` of `s.skip(i)`: it depends on nothing before.
proof fn lemma_msg_end_shift(s: Seq<u8>, i: int, j: int)
    requires
        0 <= i <= s.len(),
        0 <= j,
    ensures
        msg_end(s, i + j) == end_shifted(msg_end(s.skip(i), j), i),
    decreases s.len() - (i + j), 0int, 0int,
{
    let t = s.skip(i);
    lemma_msg_header_shift(s, i, j);
    match msg_header(t, j) {
        Err(e) => {},
        Ok((kind, n, k)) => {
            if j < k <= t.len() && kind != 0 {
                if kind == 1 {
                    lemma_items_end_shift(s, i, k, n);
                } else {
                    lemma_items_end_shift(s, i, k, 2 * n);
                }
            }
        },
    }
}

/// The end of `n` messages at position `i + j` of `s` is their end at
/// position `j` of `s.skip(i)`.
proof fn lemma_items_end_shift(s: Seq<u8>, i: int, j: int, n: int)
    requires
        0 <= i <= s.len(),
        0 <= j,
    ensures
        items_end(s, i + j, n) == end_shifted(items_end(s.skip(i), j, n), i),
    decreases s.len() - (i + j), 1int, n,
{
    let t = s.skip(i);
    if n > 0 {
        lemma_msg_end_shift(s, i, j);
        match msg_end(t, j) {
            Err(e) => {},
            Ok(k) => {
                if j < k <= t.len() {
                    lemma_items_end_shift(s, i, k, n - 1);
                }
            },
        }
    }
}

/// A whole MessagePack message: whatever follows it,
/// [`eat_message`](super::de::Deserializer::eat_message) skips exactly it.
pub open spec fn is_message(m: Seq<u8>) -> bool {
    forall|rest: Seq<u8>| #[trigger] msg_end(m + rest, 0) == Ok::<int, Error>(m.len() as int)
}

/// Messages one after the other at position `p` of `x` end where their
/// concatenation ends.
proof fn lemma_items_flatten(x: Seq<u8>, p: int, items: Seq<Seq<u8>>)
    requires
        0 <= p,
        p + items.flatten().len() <= x.len(),
        x.subrange(p, p + items.flatten().len()) == items.flatten(),
        forall|k: int| 0 <= k < items.len() ==> is_message(#[trigger] items[k]),
    ensures
        items_end(x, p, items.len() as int) == Ok::<int, Error>(p + items.flatten().len()),
    decreases items.len(),
{
    if items.len() > 0 {
        let m = items[0];
        let f = items.flatten();
        let tail = items.drop_first();
        assert(f == m + tail.flatten());
        assert(is_message(m));
        let after = x.skip(p + m.len());
        assert(x.skip(p) =~= m + after) by {
            assert forall|k: int| 0 <= k < m.len() implies x.skip(p)[k] == m[k] by {
                assert(x.subrange(p, p + f.len())[k] == f[k]);
            }
        }
        assert(msg_end(m + after, 0) == Ok::<int, Error>(m.len() as int));
        assert(msg_end(m + Seq::<u8>::empty(), 0) == Ok::<int, Error>(m.len() as int));
        lemma_msg_end_bounds(m + Seq::<u8>::empty(), 0);
        lemma_msg_end_shift(x, p, 0);
        assert(msg_end(x, p) == Ok::<int, Error>(p + m.len()));
        assert(x.subrange(p + m.len(), p + m.len() + tail.flatten().len()) =~= tail.flatten()) by {
            assert forall|k: int| 0 <= k < tail.flatten().len() implies x.subrange(
                p + m.len(),
                p + m.len() + tail.flatten().len(),
            )[k] == tail.flatten()[k] by {
                assert(x.subrange(p, p + f.len())[m.len() + k] == f[m.len() + k]);
            }
        }
        assert forall|k: int| 0 <= k < tail.len() implies is_message(#[trigger] tail[k]) by {
            assert(tail[k] == items[k + 1]);
        }
        lemma_items_flatten(x, p + m.len(), tail);
    }
}

/// The header of an array of `n` items: an array of `n` items follows.
proof fn lemma_array_header(n: nat, tail: Seq<u8>)
    requires
        n <= 0xffff_ffff,
    ensures
        msg_header(enc_array_len(n) + tail, 0) == Ok::<(int, int, int), Error>((1, n as int, enc_array_len(n).len() as int)),
{
    super::de::lemma_pow256_values();
    if n <= 0x0f {
    } else if n <= 0xffff {
        lemma_read_marked(ARRAY_16, n, 2, tail);
    } else {
        lemma_read_marked(ARRAY_32, n, 4, tail);
    }
}

/// The header of a map of `n` entries: a map of `n` entries follows.
proof fn lemma_map_header(n: nat, tail: Seq<u8>)
    requires
        n <= 0xffff_ffff,
    ensures
        msg_header(enc_map_len(n) + tail, 0) == Ok::<(int, int, int), Error>((2, n as int, enc_map_len(n).len() as int)),
{
    super::de::lemma_pow256_values();
    if n <= 0x0f {
    } else if n <= 0xffff {
        lemma_read_marked(MAP_16, n, 2, tail);
    } else {
        lemma_read_marked(MAP_32, n, 4, tail);
    }
}

/// What [`write_array_len`](super::ser::write_array_len) writes for `n`
/// items, followed by `n` whole messages, is one whole message:
/// [`eat_message`](super::de::Deserializer::eat_message) skips all of it.
pub proof fn law_array_is_message(items: Seq<Seq<u8>>)
    requires
        items.len() <= 0xffff_ffff,
        forall|k: int| 0 <= k < items.len() ==> is_message(#[trigger] items[k]),
    ensures
        is_message(enc_array_len(items.len()) + items.flatten()),
{
    let h = enc_array_len(items.len());
    let f = items.flatten();
    assert forall|rest: Seq<u8>| #[trigger] msg_end(h + f + rest, 0) == Ok::<int, Error>((h + f).len() as int) by {
        let x = h + f + rest;
        assert(x =~= h + (f + rest));
        lemma_array_header(items.len(), f + rest);
        assert(x.subrange(h.len() as int, (h.len() + f.len()) as int) =~= f);
        lemma_items_flatten(x, h.len() as int, items);
    }
}

/// What [`write_map_len`](super::ser::write_map_len) writes for `n` entries,
/// followed by `2 * n` whole messages (the keys and values), is one whole
/// message: [`eat_message`](super::de::Deserializer::eat_message) skips all of it.
pub proof fn law_map_is_message(n: nat, items: Seq<Seq<u8>>)
    requires
        n <= 0xffff_ffff,
        items.len() == 2 * n,
        forall|k: int| 0 <= k < items.len() ==> is_message(#[trigger] items[k]),
    ensures
        is_message(enc_map_len(n) + items.flatten()),
{
    let h = enc_map_len(n);
    let f = items.flatten();
    assert forall|rest: Seq<u8>| #[trigger] msg_end(h + f + rest, 0) == Ok::<int, Error>((h + f).len() as int) by {
        let x = h + f + rest;
        assert(x =~= h + (f + rest));
        lemma_map_header(n, f + rest);
        assert(x.subrange(h.len() as int, (h.len() + f.len()) as int) =~= f);
        lemma_items_flatten(x, h.len() as int, items);
    }
}

/// The index of a field or an enum variant that a serializer writes with
/// [`write_u32`](super::ser::write_u32) is read back by
/// [`parse_identifier`](super::de::Deserializer::parse_identifier) as that index.
pub proof fn law_index_identifier_roundtrip(v: u32, rest: Seq<u8>)
    ensures
        ({
            let t = enc_uint(v as nat) + rest;
            &&& t.len() > 0 && is_index_code(t[0])
            &&& within(spec_integer(t), 0, 0xffff_ffff) == Ok::<(int, int), Error>((v as int, enc_uint(v as nat).len() as int))
        }),
{
    law_uint_roundtrip(v as u64, rest);
    let t = enc_uint(v as nat) + rest;
    assert(t[0] == enc_uint(v as nat)[0]);
}

/// The name of a field or an enum variant that a serializer writes with
/// [`write_str`](super::ser::write_str) is read back by
/// [`parse_identifier`](super::de::Deserializer::parse_identifier) as that name.
pub proof fn law_name_identifier_roundtrip(b: Seq<u8>, rest: Seq<u8>)
    requires
        vstd::utf8::valid_utf8(b),
        b.len() <= 0xffff_ffff,
    ensures
        ({
            let t = enc_str_len(b.len()) + b + rest;
            &&& t.len() > 0 && is_str_code(t[0])
            &&& spec_str(t) == Ok::<(Seq<u8>, int), Error>((b, (enc_str_len(b.len()) + b).len() as int))
        }),
{
    law_str_roundtrip(b, rest);
    let t = enc_str_len(b.len()) + b + rest;
    assert(t[0] == enc_str_len(b.len())[0]);
}

} // verus!
