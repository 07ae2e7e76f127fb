//! Base-64 encoding of bytes and in-place decoding.
//!
//! The standard alphabet is used and no `=` padding is written; decoding
//! stops at the first character that is not of the alphabet.
use vstd::prelude::*;

use crate::SerWrite;

verus! {

/// The character of the alphabet for the 6-bit value `n`.
pub open spec fn spec_char(n: u8) -> u8 {
    if n < 26 {
        (0x41 + n) as u8
    } else if n < 52 {
        (0x61 + n - 26) as u8
    } else if n < 62 {
        (0x30 + n - 52) as u8
    } else if n == 62 {
        0x2b
    } else {
        0x2f
    }
}

/// The 6-bit value of a character of the alphabet, `None` for any other byte.
pub open spec fn spec_code(c: u8) -> Option<u8> {
    if 0x41 <= c <= 0x5a {
        Some((c - 0x41) as u8)
    } else if 0x61 <= c <= 0x7a {
        Some((c - 0x61 + 26) as u8)
    } else if 0x30 <= c <= 0x39 {
        Some((c - 0x30 + 52) as u8)
    } else if c == 0x2f {
        Some(63)
    } else if c == 0x2b {
        Some(62)
    } else {
        None
    }
}

/// Whether `c` is a character of the alphabet.
pub open spec fn is_code(c: u8) -> bool {
    spec_code(c) is Some
}

/// The 6-bit value of a character of the alphabet.
pub open spec fn cv(c: u8) -> int {
    spec_code(c)->Some_0 as int
}

/// The characters of a group of at most 3 bytes: 4 for 3 bytes, 3 for 2 and 2 for 1.
pub open spec fn encode_group(g: Seq<u8>) -> Seq<u8> {
    if g.len() >= 3 {
        seq![
            spec_char(g[0] / 4),
            spec_char(((g[0] % 4) * 16 + g[1] / 16) as u8),
            spec_char(((g[1] % 16) * 4 + g[2] / 64) as u8),
            spec_char(g[2] % 64),
        ]
    } else if g.len() == 2 {
        seq![
            spec_char(g[0] / 4),
            spec_char(((g[0] % 4) * 16 + g[1] / 16) as u8),
            spec_char(((g[1] % 16) * 4) as u8),
        ]
    } else if g.len() == 1 {
        seq![spec_char(g[0] / 4), spec_char(((g[0] % 4) * 16) as u8)]
    } else {
        Seq::empty()
    }
}

/// The base-64 encoding of `bytes`, without padding.
pub open spec fn spec_encode(bytes: Seq<u8>) -> Seq<u8>
    decreases bytes.len(),
{
    if bytes.len() > 3 {
        encode_group(bytes.take(3)) + spec_encode(bytes.skip(3))
    } else {
        encode_group(bytes)
    }
}

/// The bytes of a group of at most 4 characters of the alphabet: 3 for 4
/// characters, 2 for 3, 1 for 2 and none for a single one. Bits that do not
/// fill a byte are dropped.
pub open spec fn decode_group(g: Seq<u8>) -> Seq<u8> {
    if g.len() >= 4 {
        seq![
            (cv(g[0]) * 4 + cv(g[1]) / 16) as u8,
            ((cv(g[1]) % 16) * 16 + cv(g[2]) / 4) as u8,
            ((cv(g[2]) % 4) * 64 + cv(g[3])) as u8,
        ]
    } else if g.len() == 3 {
        seq![(cv(g[0]) * 4 + cv(g[1]) / 16) as u8, ((cv(g[1]) % 16) * 16 + cv(g[2]) / 4) as u8]
    } else if g.len() == 2 {
        seq![(cv(g[0]) * 4 + cv(g[1]) / 16) as u8]
    } else {
        Seq::empty()
    }
}

/// The bytes decoded from characters of the alphabet.
pub open spec fn spec_decode(cs: Seq<u8>) -> Seq<u8>
    decreases cs.len(),
{
    if cs.len() > 4 {
        decode_group(cs.take(4)) + spec_decode(cs.skip(4))
    } else {
        decode_group(cs)
    }
}

/// The number of bytes decoded from `n` characters of the alphabet.
pub open spec fn decoded_len(n: nat) -> nat {
    3 * (n / 4) + if n % 4 > 0 {
        (n % 4 - 1) as nat
    } else {
        0
    }
}

/// Whether all of `s` up to `n` are characters of the alphabet.
pub open spec fn all_codes(s: Seq<u8>, n: int) -> bool {
    forall|j: int| 0 <= j < n ==> #[trigger] is_code(s[j])
}

/// The standard base-64 alphabet of RFC 4648, the bytes of the text
/// `ABCDEFGHIJKLMNOPQRSTUVWXYZabcdefghijklmnopqrstuvwxyz0123456789+/`.
pub open spec fn standard_alphabet() -> Seq<u8> {
    seq![
        0x41, 0x42, 0x43, 0x44, 0x45, 0x46, 0x47, 0x48,
        0x49, 0x4a, 0x4b, 0x4c, 0x4d, 0x4e, 0x4f, 0x50,
        0x51, 0x52, 0x53, 0x54, 0x55, 0x56, 0x57, 0x58,
        0x59, 0x5a, 0x61, 0x62, 0x63, 0x64, 0x65, 0x66,
        0x67, 0x68, 0x69, 0x6a, 0x6b, 0x6c, 0x6d, 0x6e,
        0x6f, 0x70, 0x71, 0x72, 0x73, 0x74, 0x75, 0x76,
        0x77, 0x78, 0x79, 0x7a, 0x30, 0x31, 0x32, 0x33,
        0x34, 0x35, 0x36, 0x37, 0x38, 0x39, 0x2b, 0x2f
    ]
}

/// The encoder writes the standard alphabet and the decoder reads it: the
/// character for each 6-bit value `n` is the `n`-th byte of the standard
/// alphabet, that byte is read back as `n`, and a byte outside the alphabet
/// is no base-64 character.
pub proof fn law_standard_alphabet(n: u8, c: u8)
    ensures
        standard_alphabet().len() == 64,
        n < 64 ==> spec_char(n) == standard_alphabet()[n as int],
        n < 64 ==> spec_code(standard_alphabet()[n as int]) == Some(n),
        is_code(c) <==> standard_alphabet().contains(c),
{
    if is_code(c) {
        let k = spec_code(c)->Some_0;
        assert(standard_alphabet()[k as int] == c);
    }
}

/// The character of the alphabet for the 6-bit value `n`.
fn alphabet(n: u8) -> (r: u8)
    requires
        n < 64,
    ensures
        r == spec_char(n),
{
    if n < 26 {
        0x41 + n
    } else if n < 52 {
        0x61 + (n - 26)
    } else if n < 62 {
        0x30 + (n - 52)
    } else if n == 62 {
        0x2b
    } else {
        0x2f
    }
}

/// Encode bytes as base-64 char codes into SerWrite.
///
/// This function does not append base64 '=' padding
pub fn encode<W: SerWrite>(ser: &mut W, bytes: &[u8]) -> (r: Result<(), W::Error>)
    ensures
        r is Ok ==> (*final(ser)).written() == (*old(ser)).written() + spec_encode(bytes@),
        bytes@.len() == 0 ==> r is Ok && *final(ser) == *old(ser),
{
    let len = bytes.len();
    let mut i: usize = 0;
    while 3 <= len - i
        invariant
            len == bytes@.len(),
            i <= len,
            i % 3 == 0,
            ser.written() == (*old(ser)).written() + spec_encode(bytes@.take(i as int)),
            i == 0 ==> *ser == *old(ser),
        decreases len - i,
    {
        let a = bytes[i];
        let b = bytes[i + 1];
        let c = bytes[i + 2];
        let output = [
            alphabet(a / 4),
            alphabet((a % 4) * 16 + b / 16),
            alphabet((b % 16) * 4 + c / 64),
            alphabet(c % 64),
        ];
        let ghost before = ser.written();
        ser.write(output.as_slice())?;
        proof {
            let g = bytes@.subrange(i as int, i + 3);
            assert(output@ =~= encode_group(g));
            lemma_encode_append(bytes@.take(i as int), g);
            assert(bytes@.take(i as int) + g =~= bytes@.take(i + 3));
        }
        i = i + 3;
    }
    let rest = len - i;
    if rest == 2 {
        let a = bytes[i];
        let b = bytes[i + 1];
        let output = [alphabet(a / 4), alphabet((a % 4) * 16 + b / 16), alphabet((b % 16) * 4)];
        ser.write(output.as_slice())?;
        proof {
            let g = bytes@.subrange(i as int, i + 2);
            assert(output@ =~= encode_group(g));
            lemma_encode_append(bytes@.take(i as int), g);
            assert(bytes@.take(i as int) + g =~= bytes@);
        }
    } else if rest == 1 {
        let a = bytes[i];
        let output = [alphabet(a / 4), alphabet((a % 4) * 16)];
        ser.write(output.as_slice())?;
        proof {
            let g = bytes@.subrange(i as int, i + 1);
            assert(output@ =~= encode_group(g));
            lemma_encode_append(bytes@.take(i as int), g);
            assert(bytes@.take(i as int) + g =~= bytes@);
        }
    } else {
        assert(bytes@.take(i as int) =~= bytes@);
    }
    Ok(())
}

/// Base-64 encoding splits at any boundary of whole 3-byte groups: encoding
/// `a` followed by `b`, where the length of `a` is a multiple of 3, writes
/// the encoding of `a` followed by that of `b`.
pub proof fn law_encode_split(a: Seq<u8>, b: Seq<u8>)
    requires
        a.len() % 3 == 0,
    ensures
        spec_encode(a + b) == spec_encode(a) + spec_encode(b),
    decreases a.len(),
{
    assert(spec_encode(Seq::<u8>::empty()) =~= Seq::<u8>::empty());
    if a.len() == 0 {
        assert(a + b =~= b);
        assert(a =~= Seq::<u8>::empty());
        assert(Seq::<u8>::empty() + spec_encode(b) =~= spec_encode(b));
    } else if b.len() == 0 {
        assert(a + b =~= a);
        assert(b =~= Seq::<u8>::empty());
        assert(spec_encode(a) + Seq::<u8>::empty() =~= spec_encode(a));
    } else {
        let t = a.skip(3);
        assert((a + b).take(3) =~= a.take(3));
        assert((a + b).skip(3) =~= t + b);
        law_encode_split(t, b);
        if a.len() == 3 {
            assert(t =~= Seq::<u8>::empty());
            assert(a.take(3) =~= a);
            assert(t + b =~= b);
            assert(Seq::<u8>::empty() + spec_encode(b) =~= spec_encode(b));
        }
        assert(encode_group(a.take(3)) + (spec_encode(t) + spec_encode(b))
            =~= encode_group(a.take(3)) + spec_encode(t) + spec_encode(b));
    }
}

/// Encoding a whole number of groups and then one more group.
proof fn lemma_encode_append(s: Seq<u8>, g: Seq<u8>)
    requires
        s.len() % 3 == 0,
        g.len() <= 3,
    ensures
        spec_encode(s + g) == spec_encode(s) + encode_group(g),
    decreases s.len(),
{
    if s.len() == 0 {
        assert(s + g =~= g);
        assert(spec_encode(s) =~= Seq::<u8>::empty());
        assert(Seq::<u8>::empty() + encode_group(g) =~= encode_group(g));
    } else if g.len() == 0 {
        assert(s + g =~= s);
        assert(encode_group(g) =~= Seq::<u8>::empty());
        assert(spec_encode(s) + Seq::<u8>::empty() =~= spec_encode(s));
    } else {
        assert((s + g).take(3) =~= s.take(3));
        assert((s + g).skip(3) =~= s.skip(3) + g);
        lemma_encode_append(s.skip(3), g);
        if s.len() == 3 {
            assert(s.skip(3) =~= Seq::<u8>::empty());
            assert(s.take(3) =~= s);
            assert(spec_encode(s.skip(3)) =~= Seq::<u8>::empty());
            assert(spec_encode(s.skip(3) + g) == encode_group(g)) by {
                assert(s.skip(3) + g =~= g);
            }
        }
    }
}

/// The 6-bit value of a base-64 character, `None` for any other byte.
fn get_code(c: u8) -> (r: Option<u8>)
    ensures
        r == spec_code(c),
        r matches Some(v) ==> v < 64,
{
    if 0x41 <= c && c <= 0x5a {
        Some(c - 0x41)
    } else if 0x61 <= c && c <= 0x7a {
        Some(c - 0x61 + 26)
    } else if 0x30 <= c && c <= 0x39 {
        Some(c - 0x30 + 52)
    } else if c == 0x2f {
        Some(63)
    } else if c == 0x2b {
        Some(62)
    } else {
        None
    }
}

/// Read the values of at most `max` characters from position `i` on, stopping
/// before the first byte that is not of the alphabet. Returns how many were read.
fn read_codes(slice: &[u8], i: usize, max: usize) -> (r: (usize, [u8; 4]))
    requires
        max <= 4,
        i + max <= slice@.len(),
    ensures
        r.0 <= max,
        all_codes(slice@.skip(i as int), r.0 as int),
        r.0 < max ==> !is_code(slice@[i + r.0]),
        forall|j: int| 0 <= j < r.0 ==> r.1[j] as int == cv(slice@[i + j]),
        forall|j: int| 0 <= j < 4 ==> r.1[j] < 64,
{
    let mut codes = [0u8; 4];
    let mut n: usize = 0;
    assert(slice@.len() == slice.len());
    while n < max
        invariant
            slice@.len() <= usize::MAX,
            n <= max <= 4,
            i + max <= slice@.len(),
            codes@.len() == 4,
            all_codes(slice@.skip(i as int), n as int),
            forall|j: int| 0 <= j < n ==> codes@[j] as int == cv(slice@[i + j]),
            forall|j: int| 0 <= j < 4 ==> codes@[j] < 64,
        decreases max - n,
    {
        match get_code(slice[i + n]) {
            Some(code) => {
                codes[n] = code;
                n += 1;
            },
            None => {
                return (n, codes);
            },
        }
    }
    (n, codes)
}

/// Decode the `leftovers` characters after `dcount` decoded bytes that precede
/// the first byte not of the alphabet: write the bytes that they fill and
/// return the number of decoded bytes and of characters read.
fn handle_tail(slice: &mut [u8], dcount: usize, codes: [u8; 4], leftovers: usize) -> (r: Option<(usize, usize)>)
    requires
        leftovers < 4,
        dcount % 3 == 0,
        dcount / 3 * 4 + leftovers < old(slice)@.len(),
        dcount + decoded_len(leftovers as nat) <= old(slice)@.len(),
        forall|j: int| 0 <= j < 4 ==> codes[j] < 64,
    ensures
        r matches Some((d, e)) && d == dcount + decoded_len(leftovers as nat) && e == dcount / 3 * 4 + leftovers,
        final(slice)@ == old(slice)@.take(dcount as int) + decoded_codes(codes@, leftovers as int)
            + old(slice)@.skip(dcount + decoded_len(leftovers as nat)),
{
    assert(slice@.len() == slice.len());
    let tail_count: usize = if leftovers > 1 { leftovers - 1 } else { 0 };
    if leftovers >= 2 {
        slice[dcount] = codes[0] * 4 + codes[1] / 16;
    }
    if leftovers >= 3 {
        slice[dcount + 1] = (codes[1] % 16) * 16 + codes[2] / 4;
    }
    proof {
        assert(final(slice)@ =~= old(slice)@.take(dcount as int) + decoded_codes(codes@, leftovers as int)
            + old(slice)@.skip(dcount + decoded_len(leftovers as nat)));
    }
    Some((dcount + tail_count, dcount / 3 * 4 + leftovers))
}

/// The bytes decoded from the first `n` (at most 4) of a group of 6-bit values.
pub open spec fn decoded_codes(c: Seq<u8>, n: int) -> Seq<u8> {
    if n >= 4 {
        seq![
            (c[0] * 4 + c[1] / 16) as u8,
            ((c[1] % 16) * 16 + c[2] / 4) as u8,
            ((c[2] % 4) * 64 + c[3]) as u8,
        ]
    } else if n == 3 {
        seq![(c[0] * 4 + c[1] / 16) as u8, ((c[1] % 16) * 16 + c[2] / 4) as u8]
    } else if n == 2 {
        seq![(c[0] * 4 + c[1] / 16) as u8]
    } else {
        Seq::empty()
    }
}

/// Decodes a slice in-place until a no-base64 character is found.
///
/// Returns `None` when every byte of the slice is a base-64 character, else
/// the number of decoded bytes, which now start the slice, and the position of
/// the first byte that is not a base-64 character. Decoding writes only over
/// bytes that it has already read.
pub fn decode(slice: &mut [u8]) -> (r: Option<(usize, usize)>)
    ensures
        match r {
            None => all_codes(old(slice)@, old(slice)@.len() as int)
                && final(slice)@ == spec_decode(old(slice)@.take(4 * (old(slice)@.len() / 4) as int))
                    + old(slice)@.skip(3 * (old(slice)@.len() / 4) as int),
            Some((dl, el)) => el < old(slice)@.len() && all_codes(old(slice)@, el as int)
                && !is_code(old(slice)@[el as int]) && dl == decoded_len(el as nat)
                && final(slice)@ == spec_decode(old(slice)@.take(el as int)) + old(slice)@.skip(dl as int),
        },
{
    let ghost s = slice@;
    let len = slice.len();
    let mut i: usize = 0;
    let mut dcount: usize = 0;
    while 4 <= len - i
        invariant
            s == old(slice)@,
            slice@.len() == s.len() == len,
            i <= len,
            i % 4 == 0,
            dcount == 3 * (i / 4),
            all_codes(s, i as int),
            slice@ == spec_decode(s.take(i as int)) + s.skip(dcount as int),
        decreases len - i,
    {
        proof {
            lemma_decode_len(s.take(i as int));
            assert(slice@.skip(i as int) =~= s.skip(i as int));
        }
        let (n, codes) = read_codes(slice, i, 4);
        proof {
            lemma_codes_read(s, i as int, n as int, codes@);
            if n < 4 {
                assert(slice@.skip(i as int)[n as int] == s.skip(i as int)[n as int]);
            }
        }
        if n < 4 {
            let ghost before = slice@;
            let r = handle_tail(slice, dcount, codes, n);
            proof { lemma_tail_state(s, i as int, n as int, codes@, before, slice@); }
            return r;
        }
        let ghost before = slice@;
        write_group(slice, dcount, codes);
        proof { lemma_group_state(s, i as int, codes@, before, slice@); }
        i = i + 4;
        dcount = dcount + 3;
    }
    proof { assert(i == 4 * (len / 4)); }
    if i == len {
        return None;
    }
    proof {
        lemma_decode_len(s.take(i as int));
        assert(slice@.skip(i as int) =~= s.skip(i as int));
    }
    let (n, codes) = read_codes(slice, i, len - i);
    proof {
        lemma_codes_read(s, i as int, n as int, codes@);
        if n < len - i {
            assert(slice@.skip(i as int)[n as int] == s.skip(i as int)[n as int]);
        }
    }
    if n < len - i {
        let ghost before = slice@;
        let r = handle_tail(slice, dcount, codes, n);
        proof { lemma_tail_state(s, i as int, n as int, codes@, before, slice@); }
        r
    } else {
        None
    }
}

/// What reading `n` codes at position `i` tells of the input.
proof fn lemma_codes_read(s: Seq<u8>, i: int, n: int, codes: Seq<u8>)
    requires
        0 <= i,
        0 <= n <= 4,
        i + n <= s.len(),
        all_codes(s, i),
        all_codes(s.skip(i), n),
        forall|j: int| 0 <= j < n ==> codes[j] as int == cv(s.skip(i)[j]),
        codes.len() == 4,
    ensures
        all_codes(s, i + n),
        decode_group(s.subrange(i, i + n)) == decoded_codes(codes, n),
{
    assert forall|j: int| 0 <= j < i + n implies #[trigger] is_code(s[j]) by {
        if j >= i {
            assert(s.skip(i)[j - i] == s[j]);
        }
    }
    assert(decode_group(s.subrange(i, i + n)) =~= decoded_codes(codes, n));
}

/// The state after decoding the tail of `n` characters at position `i`.
proof fn lemma_tail_state(s: Seq<u8>, i: int, n: int, codes: Seq<u8>, before: Seq<u8>, after: Seq<u8>)
    requires
        0 <= i,
        i % 4 == 0,
        0 <= n < 4,
        i + n <= s.len(),
        spec_decode(s.take(i)).len() == 3 * (i / 4),
        before == spec_decode(s.take(i)) + s.skip(3 * (i / 4)),
        decode_group(s.subrange(i, i + n)) == decoded_codes(codes, n),
        after == before.take(3 * (i / 4)) + decoded_codes(codes, n) + before.skip(3 * (i / 4) + decoded_len(n as nat)),
    ensures
        after == spec_decode(s.take(i + n)) + s.skip(3 * (i / 4) + decoded_len(n as nat)),
        decoded_len((i + n) as nat) == 3 * (i / 4) + decoded_len(n as nat),
        (3 * (i / 4)) / 3 * 4 + n == i + n,
        3 * (i / 4) + decoded_len(n as nat) <= i + n,
{
    lemma_group_count(i);
    let d = 3 * (i / 4);
    let g = s.subrange(i, i + n);
    lemma_decode_append(s.take(i), g);
    assert(s.take(i) + g =~= s.take(i + n));
    assert(before.take(d) =~= spec_decode(s.take(i)));
    assert(before.skip(d + decoded_len(n as nat)) =~= s.skip(d + decoded_len(n as nat)));
    assert(after =~= spec_decode(s.take(i + n)) + s.skip(d + decoded_len(n as nat)));
}

/// Counting groups of 4 characters and 3 bytes.
proof fn lemma_group_count(i: int)
    requires
        0 <= i,
        i % 4 == 0,
    ensures
        (3 * (i / 4)) / 3 * 4 == i,
        3 * (i / 4) <= i,
{
    let k = i / 4;
    assert(i == 4 * k);
    assert((3 * k) / 3 == k);
}

/// The number of bytes decoded from characters of the alphabet.
pub proof fn lemma_decode_len(cs: Seq<u8>)
    ensures
        spec_decode(cs).len() == decoded_len(cs.len()),
    decreases cs.len(),
{
    if cs.len() > 4 {
        lemma_decode_len(cs.skip(4));
    }
}

/// Decoding a whole number of groups and then one more group.
proof fn lemma_decode_append(s: Seq<u8>, g: Seq<u8>)
    requires
        s.len() % 4 == 0,
        g.len() <= 4,
    ensures
        spec_decode(s + g) == spec_decode(s) + decode_group(g),
    decreases s.len(),
{
    if s.len() == 0 {
        assert(s + g =~= g);
        assert(spec_decode(s) =~= Seq::<u8>::empty());
        assert(Seq::<u8>::empty() + decode_group(g) =~= decode_group(g));
    } else if g.len() == 0 {
        assert(s + g =~= s);
        assert(decode_group(g) =~= Seq::<u8>::empty());
        assert(spec_decode(s) + Seq::<u8>::empty() =~= spec_decode(s));
    } else {
        assert((s + g).take(4) =~= s.take(4));
        assert((s + g).skip(4) =~= s.skip(4) + g);
        lemma_decode_append(s.skip(4), g);
        if s.len() == 4 {
            assert(s.skip(4) =~= Seq::<u8>::empty());
            assert(s.take(4) =~= s);
            assert(spec_decode(s.skip(4)) =~= Seq::<u8>::empty());
            assert(spec_decode(s.skip(4) + g) == decode_group(g)) by {
                assert(s.skip(4) + g =~= g);
            }
        }
    }
}

/// Write the 3 bytes of a group of 4 6-bit values at position `d`.
fn write_group(slice: &mut [u8], d: usize, codes: [u8; 4])
    requires
        d + 3 <= old(slice)@.len(),
        forall|j: int| 0 <= j < 4 ==> codes[j] < 64,
    ensures
        final(slice)@ == old(slice)@.take(d as int) + decoded_codes(codes@, 4) + old(slice)@.skip(d + 3),
{
    slice[d] = codes[0] * 4 + codes[1] / 16;
    slice[d + 1] = (codes[1] % 16) * 16 + codes[2] / 4;
    slice[d + 2] = (codes[2] % 4) * 64 + codes[3];
    assert(final(slice)@ =~= old(slice)@.take(d as int) + decoded_codes(codes@, 4) + old(slice)@.skip(d + 3));
}

/// The state after decoding the group of 4 characters at position `i`.
proof fn lemma_group_state(s: Seq<u8>, i: int, codes: Seq<u8>, before: Seq<u8>, after: Seq<u8>)
    requires
        0 <= i,
        i % 4 == 0,
        i + 4 <= s.len(),
        spec_decode(s.take(i)).len() == 3 * (i / 4),
        before == spec_decode(s.take(i)) + s.skip(3 * (i / 4)),
        decode_group(s.subrange(i, i + 4)) == decoded_codes(codes, 4),
        after == before.take(3 * (i / 4)) + decoded_codes(codes, 4) + before.skip(3 * (i / 4) + 3),
    ensures
        after == spec_decode(s.take(i + 4)) + s.skip(3 * ((i + 4) / 4)),
{
    let d = 3 * (i / 4);
    let g = s.subrange(i, i + 4);
    lemma_decode_append(s.take(i), g);
    assert(s.take(i) + g =~= s.take(i + 4));
    assert(before.take(d) =~= spec_decode(s.take(i)));
    assert(before.skip(d + 3) =~= s.skip(d + 3));
    assert(3 * ((i + 4) / 4) == d + 3);
    assert(after =~= spec_decode(s.take(i + 4)) + s.skip(d + 3));
}

/// Every character of the alphabet decodes to its 6-bit value.
proof fn lemma_char_code(n: u8)
    requires
        n < 64,
    ensures
        spec_code(spec_char(n)) == Some(n),
{
}

/// A group of at most 3 bytes is encoded in characters of the alphabet that
/// decode back to it.
proof fn lemma_group_roundtrip(g: Seq<u8>)
    requires
        g.len() <= 3,
    ensures
        all_codes(encode_group(g), encode_group(g).len() as int),
        decode_group(encode_group(g)) == g,
        encode_group(g).len() == if g.len() == 0 { 0 } else { g.len() + 1 },
{
    let e = encode_group(g);
    if g.len() >= 1 {
        let a = g[0];
        lemma_char_code(a / 4);
        if g.len() == 1 {
            lemma_char_code(((a % 4) * 16) as u8);
            assert((a / 4) * 4 + ((a % 4) * 16) / 16 == a);
        } else {
            let b = g[1];
            lemma_char_code(((a % 4) * 16 + b / 16) as u8);
            assert((a / 4) * 4 + ((a % 4) * 16 + b / 16) / 16 == a);
            if g.len() == 2 {
                lemma_char_code(((b % 16) * 4) as u8);
                assert((((a % 4) * 16 + b / 16) % 16) * 16 + ((b % 16) * 4) / 4 == b);
            } else {
                let c = g[2];
                lemma_char_code(((b % 16) * 4 + c / 64) as u8);
                lemma_char_code(c % 64);
                assert((((a % 4) * 16 + b / 16) % 16) * 16 + ((b % 16) * 4 + c / 64) / 4 == b);
                assert((((b % 16) * 4 + c / 64) % 4) * 64 + c % 64 == c);
            }
        }
    }
    assert(decode_group(e) =~= g);
}

/// What [`encode`] writes for some bytes is made of base-64 characters only,
/// and [`decode`] turns it back into those bytes: all of them, and nothing more.
pub proof fn law_base64_roundtrip(b: Seq<u8>)
    ensures
        all_codes(spec_encode(b), spec_encode(b).len() as int),
        spec_decode(spec_encode(b)) == b,
        decoded_len(spec_encode(b).len()) == b.len(),
    decreases b.len(),
{
    lemma_decode_len(spec_encode(b));
    if b.len() > 3 {
        let g = b.take(3);
        let e = spec_encode(b);
        lemma_group_roundtrip(g);
        law_base64_roundtrip(b.skip(3));
        let rest = spec_encode(b.skip(3));
        assert(rest.len() > 0) by {
            if b.skip(3).len() > 3 {
            } else {
                lemma_group_roundtrip(b.skip(3));
            }
        }
        assert(e.take(4) =~= encode_group(g));
        assert(e.skip(4) =~= rest);
        assert forall|j: int| 0 <= j < e.len() implies #[trigger] is_code(e[j]) by {
            if j < 4 {
                assert(e[j] == encode_group(g)[j]);
            } else {
                assert(e[j] == rest[j - 4]);
            }
        }
        assert(g + b.skip(3) =~= b);
    } else {
        lemma_group_roundtrip(b);
    }
    lemma_decode_len(spec_encode(b));
}

/// Decoding in place a slice that starts with the encoding of some bytes and
/// goes on with a byte that is not a base-64 character gives back those bytes.
pub proof fn law_decode_encoded(b: Seq<u8>, stop: u8, tail: Seq<u8>)
    requires
        !is_code(stop),
    ensures
        ({
            let s = spec_encode(b) + seq![stop] + tail;
            let n = spec_encode(b).len() as int;
            &&& all_codes(s, n)
            &&& !is_code(s[n])
            &&& decoded_len(n as nat) == b.len()
            &&& spec_decode(s.take(n)) == b
        }),
{
    law_base64_roundtrip(b);
    let e = spec_encode(b);
    let s = e + seq![stop] + tail;
    assert(s.take(e.len() as int) =~= e);
    assert forall|j: int| 0 <= j < e.len() implies #[trigger] is_code(s[j]) by {
        assert(s[j] == e[j]);
    }
}

} // verus!
