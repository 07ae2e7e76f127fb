//! What the JSON serializer writes, the deserializer reads back.
//!
//! Each law speaks of the text that a writer of [`super::ser`] appends,
//! followed by further input, and of what the corresponding reader of
//! [`super::de`] makes of it.
use vstd::prelude::*;

use super::base64::{law_decode_encoded, spec_encode};
use super::de::{
    code_pred, pad_pred, dec_fold, digit_pred, digit_val, is_digit, lemma_run_len, prepend, run_len,
    spec_array_bytes, spec_base64_content, spec_byte_list, token_read, spec_hex_content, spec_signed, spec_uuuu, spec_hex_nib, spec_unescape,
    spec_unescape_code, spec_unsigned, ws_pred, Error,
};
use super::ser::{
    dec, dec_list, dec_signed, digit, escape, escape_byte, escape_letter, hex_digit, hex_pair,
    hex_str, ArrayByteEncoder, Base64ByteEncoder, ByteEncoder, HexStrByteEncoder,
};

verus! {

/// A hexadecimal digit is read back as its value.
proof fn lemma_hex_digit(n: nat)
    requires
        n < 16,
    ensures
        spec_hex_nib(hex_digit(n)) == Some(n as int),
{
}

/// The escaped form of a byte, followed by anything, is read back as that byte.
proof fn lemma_unescape_byte(x: Seq<u8>, j: int, b: u8)
    requires
        0 <= j,
        j + escape_byte(b).len() <= x.len(),
        x.subrange(j, j + escape_byte(b).len()) == escape_byte(b),
    ensures
        spec_unescape(x, j) == prepend(seq![b], spec_unescape(x, j + escape_byte(b).len())),
{
    let e = escape_byte(b);
    assert(x[j] == e[0]);
    if b < 0x20 {
        assert(x[j + 1] == e[1]);
        if escape_letter(b) == 0x75 {
            let h = x.subrange(j + 2, j + 6);
            assert(e =~= seq![0x5cu8, 0x75u8, 0x30u8, 0x30u8] + hex_pair(b));
            assert(h =~= seq![0x30u8, 0x30u8] + hex_pair(b)) by {
                assert forall|k: int| 0 <= k < 4 implies h[k] == (seq![0x30u8, 0x30u8] + hex_pair(b))[k] by {
                    assert(x.subrange(j, j + e.len())[k + 2] == e[k + 2]);
                }
            }
            lemma_hex_digit(0);
            lemma_hex_digit((b / 16) as nat);
            lemma_hex_digit((b % 16) as nat);
            assert(spec_uuuu(h) == Some(b as u32));
            assert((b as u32) & 0x7f == b as u32) by (bit_vector)
                requires
                    b < 0x20,
            ;
            assert(vstd::utf8::encode_scalar(b as u32) =~= seq![b]);
        } else {
            assert(spec_unescape_code(escape_letter(b)) == b);
        }
    } else if b == 0x22 || b == 0x5c {
        assert(x[j + 1] == e[1]);
    }
}

/// Escaped bytes followed by anything are read back as those bytes.
proof fn lemma_unescape_escaped(x: Seq<u8>, j: int, s: Seq<u8>)
    requires
        0 <= j,
        j + escape(s).len() <= x.len(),
        x.subrange(j, j + escape(s).len()) == escape(s),
    ensures
        spec_unescape(x, j) == prepend(s, spec_unescape(x, j + escape(s).len())),
    decreases s.len(),
{
    if s.len() == 0 {
        assert(Seq::<u8>::empty() + Seq::<u8>::empty() =~= Seq::<u8>::empty());
        match spec_unescape(x, j) {
            Ok((v, k)) => {
                assert(Seq::<u8>::empty() + v =~= v);
            },
            Err(_) => {},
        }
    } else {
        let init = s.drop_last();
        let b = s.last();
        let ei = escape(init);
        let eb = escape_byte(b);
        assert(escape(s) == ei + eb);
        assert(x.subrange(j, j + ei.len()) =~= ei) by {
            assert forall|k: int| 0 <= k < ei.len() implies x.subrange(j, j + ei.len())[k] == ei[k] by {
                assert(x.subrange(j, j + escape(s).len())[k] == escape(s)[k]);
            }
        }
        assert(x.subrange(j + ei.len(), j + ei.len() + eb.len()) =~= eb) by {
            assert forall|k: int| 0 <= k < eb.len() implies x.subrange(j + ei.len(), j + ei.len() + eb.len())[k] == eb[k] by {
                assert(x.subrange(j, j + escape(s).len())[ei.len() + k] == escape(s)[ei.len() + k]);
            }
        }
        lemma_unescape_escaped(x, j, init);
        lemma_unescape_byte(x, j + ei.len(), b);
        match spec_unescape(x, j + ei.len() + eb.len()) {
            Ok((v, k)) => {
                assert(init + (seq![b] + v) =~= s + v);
            },
            Err(_) => {},
        }
    }
}

/// What [`format_escaped_str_contents`](super::ser::format_escaped_str_contents)
/// writes for any bytes, followed by the closing `"` of a JSON string,
/// [`parse_str_bytes_content`](super::de::Deserializer::parse_str_bytes_content)
/// reads back as those bytes, and it stops right after the closing `"`.
pub proof fn law_str_roundtrip(s: Seq<u8>, rest: Seq<u8>)
    ensures
        spec_unescape(escape(s) + seq![0x22u8] + rest, 0) == Ok::<(Seq<u8>, int), Error>((s, escape(s).len() + 1 as int)),
{
    let x = escape(s) + seq![0x22u8] + rest;
    assert(x.subrange(0, escape(s).len() as int) =~= escape(s));
    lemma_unescape_escaped(x, 0, s);
    assert(x[escape(s).len() as int] == 0x22);
    assert(s + Seq::<u8>::empty() =~= s);
}

/// The decimal digits of a number are digits, and the first of them is not
/// `0` unless the number is.
proof fn lemma_dec_digits(v: nat)
    ensures
        dec(v).len() >= 1,
        forall|j: int| 0 <= j < dec(v).len() ==> is_digit(#[trigger] dec(v)[j]),
        v >= 1 ==> dec(v)[0] != 0x30,
        v < 10 ==> dec(v) == seq![digit(v)],
        dec_fold(0, dec(v), false) == v,
    decreases v,
{
    if v >= 10 {
        lemma_dec_digits(v / 10);
        let d = dec(v / 10);
        assert(dec(v) == d.push(digit(v % 10)));
        assert(dec(v).drop_last() =~= d);
        assert forall|j: int| 0 <= j < dec(v).len() implies is_digit(#[trigger] dec(v)[j]) by {
            if j < d.len() {
                assert(dec(v)[j] == d[j]);
            }
        }
        assert(dec(v)[0] == d[0]);
        assert(dec(v).last() == digit(v % 10));
        assert(digit_val(digit(v % 10)) == v % 10);
        assert(dec_fold(0, dec(v), false) == dec_fold(0, d, false) * 10 + digit_val(digit(v % 10)));
    } else {
        assert(seq![digit(v)].drop_last() =~= Seq::<u8>::empty());
        assert(digit_val(digit(v)) == v);
        assert(dec_fold(0, seq![digit(v)], false) == dec_fold(0, Seq::<u8>::empty(), false) * 10 + digit_val(digit(v)));
    }
}

/// Reading digits from 0 with a first digit `d` is reading the others from `d`.
proof fn lemma_dec_fold_first(d: u8, t: Seq<u8>, neg: bool)
    ensures
        dec_fold(0, seq![d] + t, neg) == dec_fold(if neg { -digit_val(d) } else { digit_val(d) }, t, neg),
    decreases t.len(),
{
    let n = if neg { -digit_val(d) } else { digit_val(d) };
    if t.len() == 0 {
        assert((seq![d] + t).drop_last() =~= Seq::<u8>::empty());
        assert((seq![d] + t).last() == d);
        assert(dec_fold(0, seq![d] + t, neg) == dec_fold(0, Seq::<u8>::empty(), neg) * 10 + if neg { -digit_val(d) } else { digit_val(d) });
    } else {
        assert((seq![d] + t).drop_last() =~= seq![d] + t.drop_last());
        assert((seq![d] + t).last() == t.last());
        lemma_dec_fold_first(d, t.drop_last(), neg);
        let prev = dec_fold(0, seq![d] + t.drop_last(), neg);
        assert(prev == dec_fold(n, t.drop_last(), neg));
        assert(dec_fold(0, seq![d] + t, neg) == prev * 10 + if neg { -digit_val(t.last()) } else { digit_val(t.last()) });
    }
}

/// Reading digits negatively gives the negation of reading them positively.
proof fn lemma_dec_fold_neg(n: int, t: Seq<u8>)
    ensures
        dec_fold(-n, t, true) == -dec_fold(n, t, false),
    decreases t.len(),
{
    if t.len() > 0 {
        lemma_dec_fold_neg(n, t.drop_last());
    }
}

/// The digits after the first of the decimal digits of `v`, then bytes that
/// do not start with a digit.
proof fn lemma_digits_after_first(v: nat, rest: Seq<u8>)
    requires
        rest.len() == 0 || !is_digit(rest[0]),
    ensures
        ({
            let u = dec(v).skip(1) + rest;
            &&& run_len(u, digit_pred()) == dec(v).len() - 1
            &&& u.take(dec(v).len() - 1) == dec(v).skip(1)
            &&& dec_fold(digit_val(dec(v)[0]), dec(v).skip(1), false) == v
        }),
{
    lemma_dec_digits(v);
    let e = dec(v);
    let u = e.skip(1) + rest;
    assert forall|j: int| 0 <= j < e.len() - 1 implies digit_pred()(#[trigger] u[j]) by {
        assert(u[j] == e[j + 1]);
    }
    if rest.len() > 0 {
        assert(u[e.len() - 1] == rest[0]);
    }
    lemma_run_len(u, digit_pred(), e.len() - 1);
    assert(u.take(e.len() - 1) =~= e.skip(1));
    assert(seq![e[0]] + e.skip(1) =~= e);
    lemma_dec_fold_first(e[0], e.skip(1), false);
}

/// What [`Serializer::serialize_u64`](super::ser::Serializer::serialize_u64)
/// writes for an unsigned integer, followed by a byte that is not a digit,
/// [`parse_unsigned`](super::de::Deserializer::parse_unsigned) reads back as
/// that integer, from exactly the bytes written.
pub proof fn law_uint_roundtrip(v: u64, rest: Seq<u8>)
    requires
        rest.len() == 0 || !is_digit(rest[0]),
    ensures
        spec_unsigned(dec(v as nat) + rest, 0, u64::MAX as int) == (Ok::<int, Error>(v as int), dec(v as nat).len() as int),
{
    lemma_uint_read(v as nat, rest, u64::MAX as int);
}

/// The decimal digits of a number up to `max`, followed by a byte that is not
/// a digit, are read back as that number.
proof fn lemma_uint_read(v: nat, rest: Seq<u8>, max: int)
    requires
        v <= max,
        rest.len() == 0 || !is_digit(rest[0]),
    ensures
        spec_unsigned(dec(v) + rest, 0, max) == (Ok::<int, Error>(v as int), dec(v).len() as int),
{
    let e = dec(v);
    let t = e + rest;
    lemma_dec_digits(v);
    assert(t[0] == e[0]);
    lemma_run_len(t, ws_pred(), 0);
    if v >= 1 {
        lemma_digits_after_first(v, rest);
        assert(t.skip(1) =~= e.skip(1) + rest);
    }
}

/// What [`Serializer::serialize_i64`](super::ser::Serializer::serialize_i64)
/// writes for a signed integer, followed by a byte that is not a digit,
/// [`parse_signed`](super::de::Deserializer::parse_signed) reads back as that
/// integer, from exactly the bytes written.
pub proof fn law_int_roundtrip(v: i64, rest: Seq<u8>)
    requires
        rest.len() == 0 || !is_digit(rest[0]),
    ensures
        spec_signed(dec_signed(v as int) + rest, i64::MIN as int, i64::MAX as int)
            == (Ok::<int, Error>(v as int), dec_signed(v as int).len() as int),
{
    let t = dec_signed(v as int) + rest;
    if v >= 0 {
        let e = dec(v as nat);
        lemma_dec_digits(v as nat);
        assert(t[0] == e[0]);
        lemma_run_len(t, ws_pred(), 0);
        if v >= 1 {
            lemma_digits_after_first(v as nat, rest);
            assert(t.skip(1) =~= e.skip(1) + rest);
        }
    } else {
        let m = (-v) as nat;
        let e = dec(m);
        lemma_dec_digits(m);
        assert(t[0] == 0x2d);
        assert(t[1] == e[0]);
        lemma_run_len(t, ws_pred(), 0);
        lemma_digits_after_first(m, rest);
        assert(t.skip(2) =~= e.skip(1) + rest);
        lemma_dec_fold_neg(digit_val(e[0]), e.skip(1));
    }
}


/// Two hexadecimal digits for each byte.
proof fn lemma_hex_str_len(b: Seq<u8>)
    ensures
        hex_str(b).len() == 2 * b.len(),
    decreases b.len(),
{
    if b.len() > 0 {
        lemma_hex_str_len(b.drop_last());
    }
}

/// The hexadecimal digits of some bytes start with those of the first byte.
proof fn lemma_hex_str_first(b: Seq<u8>)
    requires
        b.len() > 0,
    ensures
        hex_str(b) == hex_pair(b[0]) + hex_str(b.skip(1)),
    decreases b.len(),
{
    if b.len() == 1 {
        assert(b.drop_last() =~= Seq::<u8>::empty());
        assert(b.skip(1) =~= Seq::<u8>::empty());
        assert(Seq::<u8>::empty() + hex_pair(b[0]) =~= hex_pair(b[0]) + Seq::<u8>::empty());
    } else {
        let init = b.drop_last();
        lemma_hex_str_first(init);
        assert(b.skip(1).drop_last() =~= init.skip(1));
        assert(init[0] == b[0]);
        assert(b.skip(1).last() == b.last());
        assert(hex_pair(b[0]) + hex_str(init.skip(1)) + hex_pair(b.last())
            =~= hex_pair(b[0]) + (hex_str(init.skip(1)) + hex_pair(b.last())));
    }
}

/// Hexadecimal digits of some bytes at position `j` of `x`, followed by a
/// `"`, are read back as those bytes up to the `"`.
proof fn lemma_hex_content(x: Seq<u8>, j: int, b: Seq<u8>)
    requires
        0 <= j,
        j + hex_str(b).len() < x.len(),
        x.subrange(j, j + hex_str(b).len()) == hex_str(b),
        x[j + hex_str(b).len()] == 0x22,
    ensures
        spec_hex_content(x, j) == Ok::<(Seq<u8>, int), Error>((b, j + hex_str(b).len() + 1)),
    decreases b.len(),
{
    lemma_hex_str_len(b);
    if b.len() == 0 {
        assert(spec_hex_nib(0x22) is None);
        assert(b =~= Seq::<u8>::empty());
    } else {
        let h = hex_str(b);
        let t = b.skip(1);
        let p = hex_pair(b[0]);
        lemma_hex_str_first(b);
        lemma_hex_str_len(t);
        assert(x[j] == h[0] && x[j + 1] == h[1]) by {
            assert(x.subrange(j, j + h.len())[0] == h[0]);
            assert(x.subrange(j, j + h.len())[1] == h[1]);
        }
        assert(h[0] == p[0] && h[1] == p[1]);
        lemma_hex_digit((b[0] / 16) as nat);
        lemma_hex_digit((b[0] % 16) as nat);
        assert(((b[0] / 16) * 16 + b[0] % 16) as u8 == b[0]);
        assert(x.subrange(j + 2, j + 2 + hex_str(t).len()) =~= hex_str(t)) by {
            assert forall|k: int| 0 <= k < hex_str(t).len() implies x.subrange(j + 2, j + 2 + hex_str(t).len())[k]
                == hex_str(t)[k] by {
                assert(x.subrange(j, j + h.len())[k + 2] == h[k + 2]);
            }
        }
        lemma_hex_content(x, j + 2, t);
        assert(spec_hex_nib(x[j]) == Some((b[0] / 16) as int));
        assert(spec_hex_nib(x[j + 1]) == Some((b[0] % 16) as int));
        assert(seq![b[0]] + t =~= b);
    }
}

/// What [`HexStrByteEncoder`] writes for some bytes, followed by anything,
/// [`StringByteHexDecoder`](super::de::StringByteHexDecoder), which reads
/// after the opening `"`, decodes back into those bytes, up to the closing `"`.
pub proof fn law_hex_bytes_roundtrip(b: Seq<u8>, rest: Seq<u8>)
    ensures
        ({
            let text = <HexStrByteEncoder as ByteEncoder>::encoded(b) + rest;
            spec_hex_content(text.skip(1), 0) == Ok::<(Seq<u8>, int), Error>((b, hex_str(b).len() + 1int))
        }),
{
    let text = <HexStrByteEncoder as ByteEncoder>::encoded(b) + rest;
    let t = hex_str(b) + seq![0x22u8] + rest;
    assert(text.skip(1) =~= t);
    assert(t.subrange(0, hex_str(b).len() as int) =~= hex_str(b));
    lemma_hex_content(t, 0, b);
}

/// Whether `h` spells the bytes `b` in hexadecimal: two digits for each byte,
/// the high one first, each digit upper or lower case.
pub open spec fn spells_hex(h: Seq<u8>, b: Seq<u8>) -> bool {
    &&& h.len() == 2 * b.len()
    &&& forall|k: int| 0 <= k < b.len() ==> spec_hex_nib(h[2 * k]) == Some((#[trigger] b[k] / 16) as int)
        && spec_hex_nib(h[2 * k + 1]) == Some((b[k] % 16) as int)
}

/// The lower-case hexadecimal digit of a value below 16.
pub open spec fn hex_digit_lower(n: int) -> u8 {
    if n <= 9 {
        (0x30 + n) as u8
    } else {
        (0x61 + n - 10) as u8
    }
}

/// The lower-case hexadecimal digits of bytes, two for each byte.
pub open spec fn hex_str_lower(b: Seq<u8>) -> Seq<u8> {
    Seq::new(
        2 * b.len(),
        |i: int|
            if i % 2 == 0 {
                hex_digit_lower((b[i / 2] / 16) as int)
            } else {
                hex_digit_lower((b[i / 2] % 16) as int)
            },
    )
}

/// Hexadecimal digits of either case that spell some bytes, at position `j`
/// of `x` and followed by a `"`, are read back as those bytes up to the `"`.
proof fn lemma_hex_spelled(x: Seq<u8>, j: int, h: Seq<u8>, b: Seq<u8>)
    requires
        0 <= j,
        j + h.len() < x.len(),
        x.subrange(j, j + h.len()) == h,
        x[j + h.len()] == 0x22,
        spells_hex(h, b),
    ensures
        spec_hex_content(x, j) == Ok::<(Seq<u8>, int), Error>((b, j + h.len() + 1)),
    decreases b.len(),
{
    if b.len() == 0 {
        assert(spec_hex_nib(0x22) is None);
        assert(b =~= Seq::<u8>::empty());
    } else {
        let h2 = h.skip(2);
        let b1 = b.skip(1);
        assert(x[j] == h[0] && x[j + 1] == h[1]) by {
            assert(x.subrange(j, j + h.len())[0] == h[0]);
            assert(x.subrange(j, j + h.len())[1] == h[1]);
        }
        assert(spec_hex_nib(h[2 * 0int]) == Some((b[0] / 16) as int));
        assert(spec_hex_nib(h[2 * 0int + 1]) == Some((b[0] % 16) as int));
        assert(((b[0] / 16) * 16 + b[0] % 16) as u8 == b[0]);
        assert(spells_hex(h2, b1)) by {
            assert forall|k: int| 0 <= k < b1.len() implies spec_hex_nib(h2[2 * k]) == Some(
                (#[trigger] b1[k] / 16) as int,
            ) && spec_hex_nib(h2[2 * k + 1]) == Some((b1[k] % 16) as int) by {
                assert(h2[2 * k] == h[2 * (k + 1)]);
                assert(h2[2 * k + 1] == h[2 * (k + 1) + 1]);
                assert(b1[k] == b[k + 1]);
            }
        }
        assert(x.subrange(j + 2, j + 2 + h2.len()) =~= h2) by {
            assert forall|k: int| 0 <= k < h2.len() implies x.subrange(j + 2, j + 2 + h2.len())[k] == h2[k] by {
                assert(x.subrange(j, j + h.len())[k + 2] == h[k + 2]);
            }
        }
        lemma_hex_spelled(x, j + 2, h2, b1);
        assert(seq![b[0]] + b1 =~= b);
    }
}

/// Hexadecimal digits of either case, upper, lower or mixed, that spell some
/// bytes, followed by the closing `"` and anything,
/// [`StringByteHexDecoder`](super::de::StringByteHexDecoder) decodes back into
/// those bytes, up to the closing `"`.
pub proof fn law_hex_any_case_read(h: Seq<u8>, b: Seq<u8>, rest: Seq<u8>)
    requires
        spells_hex(h, b),
    ensures
        spec_hex_content(h + seq![0x22u8] + rest, 0) == Ok::<(Seq<u8>, int), Error>((b, h.len() + 1int)),
{
    let x = h + seq![0x22u8] + rest;
    assert(x.subrange(0, h.len() as int) =~= h);
    lemma_hex_spelled(x, 0, h, b);
}

/// The lower-case hexadecimal digits of some bytes, followed by the closing
/// `"` and anything, [`StringByteHexDecoder`](super::de::StringByteHexDecoder)
/// decodes back into those bytes, up to the closing `"`.
pub proof fn law_hex_lower_roundtrip(b: Seq<u8>, rest: Seq<u8>)
    ensures
        spec_hex_content(hex_str_lower(b) + seq![0x22u8] + rest, 0) == Ok::<(Seq<u8>, int), Error>(
            (b, 2 * b.len() + 1int),
        ),
{
    let h = hex_str_lower(b);
    assert forall|k: int| 0 <= k < b.len() implies spec_hex_nib(h[2 * k]) == Some(
        (#[trigger] b[k] / 16) as int,
    ) && spec_hex_nib(h[2 * k + 1]) == Some((b[k] % 16) as int) by {
        assert((2 * k) % 2 == 0 && (2 * k) / 2 == k);
        assert((2 * k + 1) % 2 == 1 && (2 * k + 1) / 2 == k);
    }
    law_hex_any_case_read(h, b, rest);
}

/// What [`encode`](super::base64::encode) writes for some bytes, then any
/// number of `=` padding characters, the closing `"` and anything,
/// [`StringByteBase64Decoder`](super::de::StringByteBase64Decoder) decodes
/// back into those bytes, up to the closing `"`.
pub proof fn law_base64_padded_roundtrip(b: Seq<u8>, n: nat, rest: Seq<u8>)
    ensures
        ({
            let t = spec_encode(b) + Seq::new(n, |k: int| 0x3du8) + seq![0x22u8] + rest;
            spec_base64_content(t) == Ok::<(Seq<u8>, int), Error>((b, spec_encode(b).len() + n + 1int))
        }),
{
    let e = spec_encode(b);
    let pad = Seq::new(n, |k: int| 0x3du8);
    let t = e + pad + seq![0x22u8] + rest;
    let el = e.len() as int;
    let stop = t[el];
    assert(t =~= e + seq![stop] + t.skip(el + 1));
    law_decode_encoded(b, stop, t.skip(el + 1));
    assert(t.take(el) =~= e);
    assert forall|j: int| 0 <= j < el implies code_pred()(#[trigger] t[j]) by {
        assert(super::base64::is_code(t[j]));
    }
    lemma_run_len(t, code_pred(), el);
    if n > 0 {
        let u = t.skip(el + 1);
        assert forall|j: int| 0 <= j < n - 1 implies pad_pred()(#[trigger] u[j]) by {
            assert(u[j] == pad[j + 1]);
        }
        assert(u[n - 1] == 0x22);
        lemma_run_len(u, pad_pred(), n - 1);
        assert(t[el + 1 + (n - 1)] == 0x22);
    }
}

/// What [`Base64ByteEncoder`] writes for some bytes, followed by anything,
/// [`StringByteBase64Decoder`](super::de::StringByteBase64Decoder), which reads
/// after the opening `"`, decodes back into those bytes, up to the closing `"`.
pub proof fn law_base64_bytes_roundtrip(b: Seq<u8>, rest: Seq<u8>)
    ensures
        ({
            let text = <Base64ByteEncoder as ByteEncoder>::encoded(b) + rest;
            spec_base64_content(text.skip(1)) == Ok::<(Seq<u8>, int), Error>((b, spec_encode(b).len() + 1int))
        }),
{
    let text = <Base64ByteEncoder as ByteEncoder>::encoded(b) + rest;
    let e = spec_encode(b);
    let t = e + seq![0x22u8] + rest;
    assert(text.skip(1) =~= t);
    law_decode_encoded(b, 0x22, rest);
    assert forall|j: int| 0 <= j < e.len() implies code_pred()(#[trigger] t[j]) by {
        assert(super::base64::is_code(t[j]));
    }
    lemma_run_len(t, code_pred(), e.len() as int);
}

/// The numbers of a list of bytes start with the first byte.
proof fn lemma_dec_list_first(b: Seq<u8>)
    requires
        b.len() >= 2,
    ensures
        dec_list(b) == dec(b[0] as nat) + seq![0x2cu8] + dec_list(b.skip(1)),
    decreases b.len(),
{
    let init = b.drop_last();
    if b.len() == 2 {
        assert(init[0] == b[0]);
        assert(b.skip(1)[0] == b[1]);
        assert(dec_list(init) == dec(b[0] as nat));
        assert(dec_list(b.skip(1)) == dec(b[1] as nat));
        assert(dec_list(b) == dec_list(init) + seq![0x2cu8] + dec(b.last() as nat));
    } else {
        lemma_dec_list_first(init);
        assert(b.skip(1).drop_last() =~= init.skip(1));
        assert(init[0] == b[0]);
        assert(b.skip(1).last() == b.last());
        let d = dec(b[0] as nat);
        let c = seq![0x2cu8];
        assert(dec_list(b) == dec_list(init) + c + dec(b.last() as nat));
        assert(dec_list(b.skip(1)) == dec_list(init.skip(1)) + c + dec(b.last() as nat));
        assert(d + c + dec_list(init.skip(1)) + c + dec(b.last() as nat)
            =~= d + c + (dec_list(init.skip(1)) + c + dec(b.last() as nat)));
    }
}

/// The numbers of a non-empty list of bytes at position `i` of `x`, followed
/// by a `]`, are read back as those bytes up to the `]`.
proof fn lemma_byte_list(x: Seq<u8>, i: int, b: Seq<u8>)
    requires
        b.len() >= 1,
        0 <= i,
        i + dec_list(b).len() < x.len(),
        x.subrange(i, i + dec_list(b).len()) == dec_list(b),
        x[i + dec_list(b).len()] == 0x5d,
    ensures
        spec_byte_list(x, i) == Ok::<(Seq<u8>, int), Error>((b, i + dec_list(b).len() + 1)),
    decreases b.len(),
{
    let d = dec(b[0] as nat);
    let l = dec_list(b);
    lemma_dec_digits(b[0] as nat);
    if b.len() >= 2 {
        lemma_dec_list_first(b);
    }
    let j = i + d.len();
    assert(x.subrange(i, j) =~= d) by {
        assert forall|k: int| 0 <= k < d.len() implies x.subrange(i, j)[k] == d[k] by {
            assert(x.subrange(i, i + l.len())[k] == l[k]);
        }
    }
    assert(x[j] == (if b.len() >= 2 { 0x2cu8 } else { 0x5du8 })) by {
        if b.len() >= 2 {
            assert(x.subrange(i, i + l.len())[d.len() as int] == l[d.len() as int]);
        }
    }
    assert(x.skip(i) =~= d + x.skip(j));
    lemma_uint_read(b[0] as nat, x.skip(j), 0xff);
    lemma_run_len(x.skip(j), ws_pred(), 0);
    if b.len() >= 2 {
        let t = b.skip(1);
        let lt = dec_list(t);
        assert(x.subrange(j + 1, j + 1 + lt.len()) =~= lt) by {
            assert forall|k: int| 0 <= k < lt.len() implies x.subrange(j + 1, j + 1 + lt.len())[k] == lt[k] by {
                assert(x.subrange(i, i + l.len())[d.len() + 1 + k] == l[d.len() + 1 + k]);
            }
        }
        lemma_byte_list(x, j + 1, t);
        assert(seq![b[0]] + t =~= b);
    } else {
        assert(seq![b[0]] =~= b);
    }
}

/// What [`ArrayByteEncoder`] writes for some bytes, an array of numbers,
/// followed by anything,
/// [`parse_array_bytes_content`](super::de::Deserializer::parse_array_bytes_content)
/// reads back as those bytes, from after the `[` up to after the `]`.
pub proof fn law_array_bytes_roundtrip(b: Seq<u8>, rest: Seq<u8>)
    ensures
        ({
            let text = <ArrayByteEncoder as ByteEncoder>::encoded(b) + rest;
            spec_array_bytes(text, 1) == Ok::<(Seq<u8>, int), Error>((b, dec_list(b).len() + 2int))
        }),
{
    let text = <ArrayByteEncoder as ByteEncoder>::encoded(b) + rest;
    let l = dec_list(b);
    assert(text[l.len() + 1int] == 0x5d);
    if b.len() == 0 {
        assert(text[1] == 0x5d);
        lemma_run_len(text.skip(1), ws_pred(), 0);
        assert(b =~= Seq::<u8>::empty());
    } else {
        lemma_dec_digits(b[0] as nat);
        if b.len() >= 2 {
            lemma_dec_list_first(b);
        }
        assert(text[1] == l[0]);
        assert(l[0] == dec(b[0] as nat)[0]);
        lemma_run_len(text.skip(1), ws_pred(), 0);
        assert(text.subrange(1, 1 + l.len() as int) =~= l);
        lemma_byte_list(text, 1, b);
    }
}

/// What [`Serializer::serialize_bool`](super::ser::Serializer::serialize_bool)
/// writes for a boolean, followed by anything,
/// [`parse_bool`](super::de::Deserializer::parse_bool) reads back as that
/// boolean: no whitespace comes first, the first letter tells which keyword
/// follows and the keyword is there.
pub proof fn law_bool_roundtrip(v: bool, rest: Seq<u8>)
    ensures
        ({
            let word = if v { seq![0x74u8, 0x72, 0x75, 0x65] } else { seq![0x66u8, 0x61, 0x6c, 0x73, 0x65] };
            let t = word + rest;
            &&& run_len(t, ws_pred()) == 0
            &&& t[0] == (if v { 0x74u8 } else { 0x66u8 })
            &&& token_read(t, 1, if v { seq![0x72u8, 0x75, 0x65] } else { seq![0x61u8, 0x6c, 0x73, 0x65] }, v, Ok::<bool, Error>(v))
        }),
{
    let word = if v { seq![0x74u8, 0x72, 0x75, 0x65] } else { seq![0x66u8, 0x61, 0x6c, 0x73, 0x65] };
    let t = word + rest;
    assert(t[0] == word[0]);
    lemma_run_len(t, ws_pred(), 0);
    assert(t.subrange(1, word.len() as int) =~= word.skip(1));
    assert(word.skip(1) =~= if v { seq![0x72u8, 0x75, 0x65] } else { seq![0x61u8, 0x6c, 0x73, 0x65] });
}

/// What [`Serializer::serialize_none`](super::ser::Serializer::serialize_none)
/// writes, followed by anything, [`parse_null`](super::de::Deserializer::parse_null)
/// reads back.
pub proof fn law_null_roundtrip(rest: Seq<u8>)
    ensures
        ({
            let word = seq![0x6eu8, 0x75, 0x6c, 0x6c];
            let t = word + rest;
            &&& run_len(t, ws_pred()) == 0
            &&& t[0] == 0x6e
            &&& token_read(t, 1, seq![0x75u8, 0x6c, 0x6c], (), Ok::<(), Error>(()))
        }),
{
    let word = seq![0x6eu8, 0x75, 0x6c, 0x6c];
    let t = word + rest;
    assert(t[0] == word[0]);
    lemma_run_len(t, ws_pred(), 0);
    assert(t.subrange(1, 4) =~= seq![0x75u8, 0x6c, 0x6c]);
}

} // verus!
