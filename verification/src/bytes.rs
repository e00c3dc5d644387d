//! Little-endian encoding of integers.
use byteorder::{LittleEndian, ReadBytesExt, WriteBytesExt};
use vstd::arithmetic::power::pow;
use vstd::prelude::*;

verus! {

/// The `n` low-order base-256 digits of `v`, least significant first.
pub open spec fn le(v: nat, n: nat) -> Seq<u8>
    decreases n,
{
    if n == 0 {
        Seq::empty()
    } else {
        seq![(v % 256) as u8] + le(v / 256, (n - 1) as nat)
    }
}

/// The number whose base-256 digits, least significant first, are `s`.
pub open spec fn le_value(s: Seq<u8>) -> nat
    decreases s.len(),
{
    if s.len() == 0 {
        0
    } else {
        s[0] as nat + 256 * le_value(s.skip(1))
    }
}

/// Two's complement of a 16-bit signed integer, as a natural number.
pub open spec fn twos16(v: i16) -> nat {
    if v < 0 {
        (v + 0x1_0000) as nat
    } else {
        v as nat
    }
}

/// Two's complement of a 32-bit signed integer, as a natural number.
pub open spec fn twos32(v: i32) -> nat {
    if v < 0 {
        (v + 0x1_0000_0000) as nat
    } else {
        v as nat
    }
}

pub open spec fn le_u16(v: u16) -> Seq<u8> {
    le(v as nat, 2)
}

pub open spec fn le_u32(v: u32) -> Seq<u8> {
    le(v as nat, 4)
}

pub open spec fn le_u64(v: u64) -> Seq<u8> {
    le(v as nat, 8)
}

pub open spec fn le_i16(v: i16) -> Seq<u8> {
    le(twos16(v), 2)
}

pub open spec fn le_i32(v: i32) -> Seq<u8> {
    le(twos32(v), 4)
}

/// A little-endian encoding has the requested width.
pub proof fn lemma_le_len(v: nat, n: nat)
    ensures
        le(v, n).len() == n,
    decreases n,
{
    if n > 0 {
        lemma_le_len(v / 256, (n - 1) as nat);
    }
}

/// Decoding gives back what was encoded, provided it fits in the width.
pub proof fn lemma_le_value_of_le(v: nat, n: nat)
    requires
        v < pow(256, n),
    ensures
        le_value(le(v, n)) == v,
    decreases n,
{
    reveal(pow);
    lemma_le_len(v, n);
    if n > 0 {
        let m = (n - 1) as nat;
        assert(pow(256, n) == 256 * pow(256, m));
        lemma_le_value_of_le(v / 256, m);
        assert(le(v, n).skip(1) =~= le(v / 256, m));
    }
}

/// The byte at place `i` of a little-endian encoding is the digit of weight `256^i`.
pub proof fn little_endian_digits(v: nat, n: nat, i: nat)
    requires
        i < n,
    ensures
        le(v, n).len() == n,
        le(v, n)[i as int] == (v / (pow(256, i) as nat)) % 256,
    decreases n,
{
    lemma_le_len(v, n);
    reveal(pow);
    lemma_le_len(v / 256, (n - 1) as nat);
    if i > 0 {
        let j = (i - 1) as nat;
        little_endian_digits(v / 256, (n - 1) as nat, j);
        vstd::arithmetic::power::lemma_pow_positive(256, j);
        vstd::arithmetic::div_mod::lemma_div_denominator(v as int, 256, pow(256, j));
        assert(pow(256, i) == 256 * pow(256, j));
    } else {
        assert(pow(256, 0) == 1);
        assert(v / 1 == v);
    }
}

proof fn lemma_pow256()
    ensures
        pow(256, 2) == 0x1_0000,
        pow(256, 4) == 0x1_0000_0000,
        pow(256, 8) == 0x1_0000_0000_0000_0000,
{
    reveal_with_fuel(pow, 9);
}

/// Each fixed-width encoding has its width and decodes to the value.
pub proof fn lemma_le_fixed_widths()
    ensures
        forall|v: u16| #[trigger] le_u16(v).len() == 2 && le_value(le_u16(v)) == v,
        forall|v: u32| #[trigger] le_u32(v).len() == 4 && le_value(le_u32(v)) == v,
        forall|v: u64| #[trigger] le_u64(v).len() == 8 && le_value(le_u64(v)) == v,
        forall|v: i16| #[trigger] le_i16(v).len() == 2 && le_value(le_i16(v)) == twos16(v),
        forall|v: i32| #[trigger] le_i32(v).len() == 4 && le_value(le_i32(v)) == twos32(v),
{
    lemma_pow256();
    assert forall|v: u16| #[trigger] le_u16(v).len() == 2 && le_value(le_u16(v)) == v by {
        lemma_le_len(v as nat, 2);
        lemma_le_value_of_le(v as nat, 2);
    }
    assert forall|v: u32| #[trigger] le_u32(v).len() == 4 && le_value(le_u32(v)) == v by {
        lemma_le_len(v as nat, 4);
        lemma_le_value_of_le(v as nat, 4);
    }
    assert forall|v: u64| #[trigger] le_u64(v).len() == 8 && le_value(le_u64(v)) == v by {
        lemma_le_len(v as nat, 8);
        lemma_le_value_of_le(v as nat, 8);
    }
    assert forall|v: i16| #[trigger] le_i16(v).len() == 2 && le_value(le_i16(v)) == twos16(v) by {
        lemma_le_len(twos16(v), 2);
        lemma_le_value_of_le(twos16(v), 2);
    }
    assert forall|v: i32| #[trigger] le_i32(v).len() == 4 && le_value(le_i32(v)) == twos32(v) by {
        lemma_le_len(twos32(v), 4);
        lemma_le_value_of_le(twos32(v), 4);
    }
}

/// `byteorder::WriteBytesExt::write_u16::<LittleEndian>` on a byte vector: the
/// vector grows by the two bytes of `v`, least significant first. Writing to a
/// vector does not fail.
#[verifier::external_body]
pub(crate) fn write_u16(out: &mut Vec<u8>, v: u16)
    ensures
        final(out)@ == old(out)@ + le_u16(v),
{
    WriteBytesExt::write_u16::<LittleEndian>(out, v).expect("a vector takes every write");
}

/// `byteorder::WriteBytesExt::write_u32::<LittleEndian>` on a byte vector: the
/// vector grows by the four bytes of `v`, least significant first.
#[verifier::external_body]
pub(crate) fn write_u32(out: &mut Vec<u8>, v: u32)
    ensures
        final(out)@ == old(out)@ + le_u32(v),
{
    WriteBytesExt::write_u32::<LittleEndian>(out, v).expect("a vector takes every write");
}

/// `byteorder::WriteBytesExt::write_u64::<LittleEndian>` on a byte vector: the
/// vector grows by the eight bytes of `v`, least significant first.
#[verifier::external_body]
pub(crate) fn write_u64(out: &mut Vec<u8>, v: u64)
    ensures
        final(out)@ == old(out)@ + le_u64(v),
{
    WriteBytesExt::write_u64::<LittleEndian>(out, v).expect("a vector takes every write");
}

/// `byteorder::WriteBytesExt::write_i16::<LittleEndian>` on a byte vector: the
/// vector grows by the two bytes of the two's complement of `v`.
#[verifier::external_body]
pub(crate) fn write_i16(out: &mut Vec<u8>, v: i16)
    ensures
        final(out)@ == old(out)@ + le_i16(v),
{
    WriteBytesExt::write_i16::<LittleEndian>(out, v).expect("a vector takes every write");
}

/// `byteorder::WriteBytesExt::write_i32::<LittleEndian>` on a byte vector: the
/// vector grows by the four bytes of the two's complement of `v`.
#[verifier::external_body]
pub(crate) fn write_i32(out: &mut Vec<u8>, v: i32)
    ensures
        final(out)@ == old(out)@ + le_i32(v),
{
    WriteBytesExt::write_i32::<LittleEndian>(out, v).expect("a vector takes every write");
}

/// `byteorder::ReadBytesExt::read_u16::<LittleEndian>` on the bytes from `at`:
/// the number that the next two bytes encode, or nothing when there are fewer.
#[verifier::external_body]
pub(crate) fn read_u16(bytes: &[u8], at: usize) -> (r: Option<u16>)
    requires
        at <= bytes.len(),
    ensures
        r is Some <==> at + 2 <= bytes.len(),
        r is Some ==> le_u16(r->0) == bytes@.subrange(at as int, at + 2),
{
    ReadBytesExt::read_u16::<LittleEndian>(&mut &bytes[at..]).ok()
}

/// `byteorder::ReadBytesExt::read_u64::<LittleEndian>` on the bytes from `at`:
/// the number that the next eight bytes encode, or nothing when there are fewer.
#[verifier::external_body]
pub(crate) fn read_u64(bytes: &[u8], at: usize) -> (r: Option<u64>)
    requires
        at <= bytes.len(),
    ensures
        r is Some <==> at + 8 <= bytes.len(),
        r is Some ==> le_u64(r->0) == bytes@.subrange(at as int, at + 8),
{
    ReadBytesExt::read_u64::<LittleEndian>(&mut &bytes[at..]).ok()
}

/// `byteorder::ReadBytesExt::read_i16::<LittleEndian>` on the bytes from `at`:
/// the number whose two's complement the next two bytes encode, or nothing when
/// there are fewer.
#[verifier::external_body]
pub(crate) fn read_i16(bytes: &[u8], at: usize) -> (r: Option<i16>)
    requires
        at <= bytes.len(),
    ensures
        r is Some <==> at + 2 <= bytes.len(),
        r is Some ==> le_i16(r->0) == bytes@.subrange(at as int, at + 2),
{
    ReadBytesExt::read_i16::<LittleEndian>(&mut &bytes[at..]).ok()
}

/// `byteorder::ReadBytesExt::read_i32::<LittleEndian>` on the bytes from `at`:
/// the number whose two's complement the next four bytes encode, or nothing when
/// there are fewer.
#[verifier::external_body]
pub(crate) fn read_i32(bytes: &[u8], at: usize) -> (r: Option<i32>)
    requires
        at <= bytes.len(),
    ensures
        r is Some <==> at + 4 <= bytes.len(),
        r is Some ==> le_i32(r->0) == bytes@.subrange(at as int, at + 4),
{
    ReadBytesExt::read_i32::<LittleEndian>(&mut &bytes[at..]).ok()
}

} // verus!
