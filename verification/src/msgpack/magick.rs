//! MessagePack format markers.
use vstd::prelude::*;

verus! {

pub const MIN_POSFIXINT: u8 = 0x00;
pub const MAX_POSFIXINT: u8 = 0x7f;
pub const NEGFIXINT: u8 = 0xe0;
pub const MIN_NEGFIXINT: i8 = -32;
pub const NIL: u8 = 0xc0;
pub const RESERVED: u8 = 0xc1;
pub const FALSE: u8 = 0xc2;
pub const TRUE: u8 = 0xc3;

pub const FIXMAP: u8 = 0x80;
pub const MAX_FIXMAP_SIZE: usize = 0x0f;
pub const FIXMAP_MAX: u8 = 0x8f;

pub const FIXARRAY: u8 = 0x90;
pub const MAX_FIXARRAY_SIZE: usize = 0x0f;
pub const FIXARRAY_MAX: u8 = 0x9f;

pub const FIXSTR: u8 = 0xa0;
pub const MAX_FIXSTR_SIZE: usize = 0x1f;
pub const FIXSTR_MAX: u8 = 0xbf;

pub const BIN_8: u8 = 0xc4;
pub const BIN_16: u8 = 0xc5;
pub const BIN_32: u8 = 0xc6;

pub const EXT_8: u8 = 0xc7;
pub const EXT_16: u8 = 0xc8;
pub const EXT_32: u8 = 0xc9;

pub const FLOAT_32: u8 = 0xca;
pub const FLOAT_64: u8 = 0xcb;

pub const UINT_8: u8 = 0xcc;
pub const UINT_16: u8 = 0xcd;
pub const UINT_32: u8 = 0xce;
pub const UINT_64: u8 = 0xcf;

pub const INT_8: u8 = 0xd0;
pub const INT_16: u8 = 0xd1;
pub const INT_32: u8 = 0xd2;
pub const INT_64: u8 = 0xd3;

pub const FIXEXT_1: u8 = 0xd4;
pub const FIXEXT_2: u8 = 0xd5;
pub const FIXEXT_4: u8 = 0xd6;
pub const FIXEXT_8: u8 = 0xd7;
pub const FIXEXT_16: u8 = 0xd8;

pub const STR_8: u8 = 0xd9;
pub const STR_16: u8 = 0xda;
pub const STR_32: u8 = 0xdb;

pub const ARRAY_16: u8 = 0xdc;
pub const ARRAY_32: u8 = 0xdd;

pub const MAP_16: u8 = 0xde;
pub const MAP_32: u8 = 0xdf;

/// The big-endian unsigned value of a sequence of bytes.
pub open spec fn be_value(bytes: Seq<u8>) -> nat
    decreases bytes.len(),
{
    if bytes.len() == 0 {
        0
    } else {
        be_value(bytes.drop_last()) * 256 + (bytes.last() as nat)
    }
}

/// The two's complement value of a sequence of bytes in big-endian order.
pub open spec fn be_signed(bytes: Seq<u8>) -> int {
    let v = be_value(bytes);
    let half = pow256(bytes.len()) / 2;
    if v < half {
        v as int
    } else {
        v - pow256(bytes.len())
    }
}

/// 256 to the power of `n`.
pub open spec fn pow256(n: nat) -> nat
    decreases n,
{
    if n == 0 {
        1
    } else {
        256 * pow256((n - 1) as nat)
    }
}

/// The big-endian encoding of `v` in `n` bytes (the `n` least significant bytes of `v`).
pub open spec fn be_bytes(v: nat, n: nat) -> Seq<u8>
    decreases n,
{
    if n == 0 {
        Seq::empty()
    } else {
        be_bytes(v / 256, (n - 1) as nat).push((v % 256) as u8)
    }
}

/// The big-endian encoding in `n` bytes has `n` bytes.
pub proof fn lemma_be_bytes_len(v: nat, n: nat)
    ensures
        be_bytes(v, n).len() == n,
    decreases n,
{
    if n > 0 {
        lemma_be_bytes_len(v / 256, (n - 1) as nat);
    }
}

/// The value of the big-endian encoding of `v` in `n` bytes is `v` modulo `256^n`.
pub proof fn lemma_be_value_bytes(v: nat, n: nat)
    ensures
        pow256(n) > 0,
        be_value(be_bytes(v, n)) == v % pow256(n),
    decreases n,
{
    if n == 0 {
        assert(be_bytes(v, n) =~= Seq::<u8>::empty());
    } else {
        let p = pow256((n - 1) as nat);
        lemma_be_value_bytes(v / 256, (n - 1) as nat);
        let s = be_bytes(v / 256, (n - 1) as nat);
        assert(be_bytes(v, n).drop_last() =~= s);
        assert(be_bytes(v, n).last() == (v % 256) as u8);
        vstd::arithmetic::div_mod::lemma_mod_breakdown(v as int, 256, p as int);
        assert(((v / 256) % p) * 256 == 256 * ((v / 256) % p)) by (nonlinear_arith);
    }
}

} // verus!
