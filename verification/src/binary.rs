//! Scalars in the two binary formats, through `byteorder`.

use vstd::prelude::*;
use byteorder::{BigEndian, ByteOrder, LittleEndian};
use crate::scalar::{scalar_size, ScalarType};
use vstd::arithmetic::div_mod::lemma_breakdown;
use vstd::arithmetic::power::{lemma_pow_positive, pow};
use crate::value::{scalar_bits, scalar_from_bits, value_type, ScalarValue};

verus! {

/// The number that bytes write in little-endian order (least significant first).
pub open spec fn le_value(b: Seq<u8>) -> nat
    decreases b.len(),
{
    if b.len() == 0 {
        0
    } else {
        b[0] as nat + 256 * le_value(b.drop_first())
    }
}

/// The `k` lowest bytes of `n`, least significant first.
pub open spec fn le_bytes(n: nat, k: nat) -> Seq<u8>
    decreases k,
{
    if k == 0 {
        seq![]
    } else {
        seq![(n % 256) as u8] + le_bytes(n / 256, (k - 1) as nat)
    }
}

/// The bytes in the order of the format: reversed for big-endian.
pub open spec fn in_order(big: bool, b: Seq<u8>) -> Seq<u8> {
    if big {
        b.reverse()
    } else {
        b
    }
}

/// The bytes of a scalar in a binary format.
pub open spec fn scalar_bytes(big: bool, v: ScalarValue) -> Seq<u8> {
    in_order(big, le_bytes(scalar_bits(v), scalar_size(value_type(v))))
}

/// The scalar of type `t` that the bytes `b` (as many as the type's size) hold.
pub open spec fn scalar_from_bytes(big: bool, t: ScalarType, b: Seq<u8>) -> ScalarValue {
    scalar_from_bits(t, le_value(in_order(big, b)))
}

/// `LittleEndian::read_u16` (byteorder): the first two bytes, least significant first.
#[verifier::external_body]
fn le_read_u16(buf: &[u8]) -> (r: u16)
    requires
        buf@.len() >= 2,
    ensures
        r == le_value(buf@.take(2)),
{
    LittleEndian::read_u16(buf)
}

/// `LittleEndian::read_u32` (byteorder): the first four bytes, least significant first.
#[verifier::external_body]
fn le_read_u32(buf: &[u8]) -> (r: u32)
    requires
        buf@.len() >= 4,
    ensures
        r == le_value(buf@.take(4)),
{
    LittleEndian::read_u32(buf)
}

/// `LittleEndian::read_u64` (byteorder): the first eight bytes, least significant first.
#[verifier::external_body]
fn le_read_u64(buf: &[u8]) -> (r: u64)
    requires
        buf@.len() >= 8,
    ensures
        r == le_value(buf@.take(8)),
{
    LittleEndian::read_u64(buf)
}

/// `BigEndian::read_u16` (byteorder): the first two bytes, most significant first.
#[verifier::external_body]
fn be_read_u16(buf: &[u8]) -> (r: u16)
    requires
        buf@.len() >= 2,
    ensures
        r == le_value(buf@.take(2).reverse()),
{
    BigEndian::read_u16(buf)
}

/// `BigEndian::read_u32` (byteorder): the first four bytes, most significant first.
#[verifier::external_body]
fn be_read_u32(buf: &[u8]) -> (r: u32)
    requires
        buf@.len() >= 4,
    ensures
        r == le_value(buf@.take(4).reverse()),
{
    BigEndian::read_u32(buf)
}

/// `BigEndian::read_u64` (byteorder): the first eight bytes, most significant first.
#[verifier::external_body]
fn be_read_u64(buf: &[u8]) -> (r: u64)
    requires
        buf@.len() >= 8,
    ensures
        r == le_value(buf@.take(8).reverse()),
{
    BigEndian::read_u64(buf)
}

/// `LittleEndian::write_u16` (byteorder): the two bytes of `n`, least significant
/// first, replace the first two of `buf`.
#[verifier::external_body]
fn le_write_u16(buf: &mut [u8], n: u16)
    requires
        old(buf)@.len() >= 2,
    ensures
        final(buf)@ == le_bytes(n as nat, 2) + old(buf)@.skip(2),
{
    LittleEndian::write_u16(buf, n)
}

/// `LittleEndian::write_u32` (byteorder): the four bytes of `n`, least significant
/// first, replace the first four of `buf`.
#[verifier::external_body]
fn le_write_u32(buf: &mut [u8], n: u32)
    requires
        old(buf)@.len() >= 4,
    ensures
        final(buf)@ == le_bytes(n as nat, 4) + old(buf)@.skip(4),
{
    LittleEndian::write_u32(buf, n)
}

/// `LittleEndian::write_u64` (byteorder): the eight bytes of `n`, least significant
/// first, replace the first eight of `buf`.
#[verifier::external_body]
fn le_write_u64(buf: &mut [u8], n: u64)
    requires
        old(buf)@.len() >= 8,
    ensures
        final(buf)@ == le_bytes(n as nat, 8) + old(buf)@.skip(8),
{
    LittleEndian::write_u64(buf, n)
}

/// `BigEndian::write_u16` (byteorder): the two bytes of `n`, most significant
/// first, replace the first two of `buf`.
#[verifier::external_body]
fn be_write_u16(buf: &mut [u8], n: u16)
    requires
        old(buf)@.len() >= 2,
    ensures
        final(buf)@ == le_bytes(n as nat, 2).reverse() + old(buf)@.skip(2),
{
    BigEndian::write_u16(buf, n)
}

/// `BigEndian::write_u32` (byteorder): the four bytes of `n`, most significant
/// first, replace the first four of `buf`.
#[verifier::external_body]
fn be_write_u32(buf: &mut [u8], n: u32)
    requires
        old(buf)@.len() >= 4,
    ensures
        final(buf)@ == le_bytes(n as nat, 4).reverse() + old(buf)@.skip(4),
{
    BigEndian::write_u32(buf, n)
}

/// `BigEndian::write_u64` (byteorder): the eight bytes of `n`, most significant
/// first, replace the first eight of `buf`.
#[verifier::external_body]
fn be_write_u64(buf: &mut [u8], n: u64)
    requires
        old(buf)@.len() >= 8,
    ensures
        final(buf)@ == le_bytes(n as nat, 8).reverse() + old(buf)@.skip(8),
{
    BigEndian::write_u64(buf, n)
}

proof fn lemma_one_byte(b: Seq<u8>)
    requires
        b.len() == 1,
    ensures
        le_value(b) == b[0] as nat,
        in_order(true, b) == b,
{
    assert(b.drop_first().len() == 0);
    assert(le_value(b.drop_first()) == 0);
    assert(b.reverse() =~= b);
}

proof fn lemma_le_bytes_one(n: nat)
    ensures
        le_bytes(n, 1) == seq![(n % 256) as u8],
{
    assert(le_bytes(n / 256, 0) =~= Seq::<u8>::empty());
    assert(seq![(n % 256) as u8] + Seq::<u8>::empty() =~= seq![(n % 256) as u8]);
}

/// Reads a scalar of type `t` from the bytes at `pos`.
pub fn read_scalar(big: bool, t: ScalarType, data: &[u8], pos: usize) -> (v: ScalarValue)
    requires
        pos + scalar_size(t) <= data@.len(),
    ensures
        v == scalar_from_bytes(big, t, data@.subrange(pos as int, pos + scalar_size(t))),
{
    let ghost field = data@.subrange(pos as int, pos + scalar_size(t));
    let rest = vstd::slice::slice_subrange(data, pos, data.len());
    assert(rest@.take(scalar_size(t) as int) =~= field);
    match t {
        ScalarType::I8 | ScalarType::U8 => {
            let b = data[pos];
            proof {
                assert(field =~= seq![b]);
                lemma_one_byte(field);
            }
            if t == ScalarType::I8 {
                ScalarValue::I8(b as i8)
            } else {
                ScalarValue::U8(b)
            }
        },
        ScalarType::I16 | ScalarType::U16 => {
            let n = if big {
                be_read_u16(rest)
            } else {
                le_read_u16(rest)
            };
            if t == ScalarType::I16 {
                ScalarValue::I16(n as i16)
            } else {
                ScalarValue::U16(n)
            }
        },
        ScalarType::I32 | ScalarType::U32 | ScalarType::F32 => {
            let n = if big {
                be_read_u32(rest)
            } else {
                le_read_u32(rest)
            };
            if t == ScalarType::I32 {
                ScalarValue::I32(n as i32)
            } else if t == ScalarType::U32 {
                ScalarValue::U32(n)
            } else {
                ScalarValue::F32(n)
            }
        },
        ScalarType::F64 => {
            let n = if big {
                be_read_u64(rest)
            } else {
                le_read_u64(rest)
            };
            ScalarValue::F64(n)
        },
    }
}

/// Appends the bytes of `v` in the binary format to `out`.
pub fn write_scalar(big: bool, v: ScalarValue, out: &mut Vec<u8>)
    ensures
        final(out)@ == old(out)@ + scalar_bytes(big, v),
{
    match v {
        ScalarValue::I8(_) | ScalarValue::U8(_) => {
            let b: u8 = match v {
                ScalarValue::I8(x) => x as u8,
                ScalarValue::U8(x) => x,
                _ => 0,
            };
            proof {
                lemma_le_bytes_one(scalar_bits(v));
                lemma_one_byte(le_bytes(scalar_bits(v), 1));
            }
            out.push(b);
        },
        ScalarValue::I16(_) | ScalarValue::U16(_) => {
            let n: u16 = match v {
                ScalarValue::I16(x) => x as u16,
                ScalarValue::U16(x) => x,
                _ => 0,
            };
            let mut buf: Vec<u8> = vec![0u8, 0u8];
            if big {
                be_write_u16(buf.as_mut_slice(), n);
            } else {
                le_write_u16(buf.as_mut_slice(), n);
            }
            assert(buf@ =~= scalar_bytes(big, v));
            crate::text::append_bytes(out, buf.as_slice());
        },
        ScalarValue::I32(_) | ScalarValue::U32(_) | ScalarValue::F32(_) => {
            let n: u32 = match v {
                ScalarValue::I32(x) => x as u32,
                ScalarValue::U32(x) => x,
                ScalarValue::F32(x) => x,
                _ => 0,
            };
            let mut buf: Vec<u8> = vec![0u8, 0u8, 0u8, 0u8];
            if big {
                be_write_u32(buf.as_mut_slice(), n);
            } else {
                le_write_u32(buf.as_mut_slice(), n);
            }
            assert(buf@ =~= scalar_bytes(big, v));
            crate::text::append_bytes(out, buf.as_slice());
        },
        ScalarValue::F64(n) => {
            let mut buf: Vec<u8> = vec![0u8, 0u8, 0u8, 0u8, 0u8, 0u8, 0u8, 0u8];
            if big {
                be_write_u64(buf.as_mut_slice(), n);
            } else {
                le_write_u64(buf.as_mut_slice(), n);
            }
            assert(buf@ =~= scalar_bytes(big, v));
            crate::text::append_bytes(out, buf.as_slice());
        },
    }
}

proof fn lemma_le_bytes_len(n: nat, k: nat)
    ensures
        le_bytes(n, k).len() == k,
    decreases k,
{
    if k > 0 {
        lemma_le_bytes_len(n / 256, (k - 1) as nat);
    }
}

/// Reading back the `k` lowest bytes of `n` gives `n` modulo `256^k`.
proof fn lemma_le_roundtrip(n: nat, k: nat)
    ensures
        le_value(le_bytes(n, k)) as int == (n as int) % pow(256, k),
    decreases k,
{
    reveal(pow);
    if k == 0 {
        assert(le_bytes(n, k) =~= Seq::<u8>::empty());
        assert(pow(256, 0) == 1);
    } else {
        let b = le_bytes(n, k);
        let rest = le_bytes(n / 256, (k - 1) as nat);
        assert(b.drop_first() =~= rest);
        lemma_le_roundtrip(n / 256, (k - 1) as nat);
        lemma_pow_positive(256, (k - 1) as nat);
        let p = pow(256, (k - 1) as nat);
        assert(pow(256, k) == 256 * p);
        lemma_breakdown(n as int, 256, p);
        assert(b[0] as int == (n as int) % 256);
    }
}

proof fn lemma_pow_sizes()
    ensures
        pow(256, 1) == 0x100,
        pow(256, 2) == 0x1_0000,
        pow(256, 4) == 0x1_0000_0000,
        pow(256, 8) == 0x1_0000_0000_0000_0000,
{
    reveal(pow);
    assert(pow(256, 0) == 1);
    assert(pow(256, 1) == 0x100);
    assert(pow(256, 2) == 0x1_0000);
    assert(pow(256, 3) == 0x100_0000);
    assert(pow(256, 4) == 0x1_0000_0000);
    assert(pow(256, 5) == 0x100_0000_0000);
    assert(pow(256, 6) == 0x1_0000_0000_0000);
    assert(pow(256, 7) == 0x100_0000_0000_0000);
    assert(pow(256, 8) == 0x1_0000_0000_0000_0000);
}

/// The bits of a scalar fit its size, and give the scalar back.
proof fn lemma_scalar_bits(v: ScalarValue)
    ensures
        (scalar_bits(v) as int) < pow(256, scalar_size(value_type(v))),
        scalar_from_bits(value_type(v), scalar_bits(v)) == v,
{
    lemma_pow_sizes();
    match v {
        ScalarValue::I8(x) => {
            assert((x as u8) as i8 == x) by (bit_vector);
        },
        ScalarValue::I16(x) => {
            assert((x as u16) as i16 == x) by (bit_vector);
        },
        ScalarValue::I32(x) => {
            assert((x as u32) as i32 == x) by (bit_vector);
        },
        _ => {},
    }
}

/// A scalar written in a binary format reads back as itself, from as many bytes
/// as its type's size.
pub proof fn lemma_scalar_bytes_roundtrip(big: bool, v: ScalarValue)
    ensures
        scalar_bytes(big, v).len() == scalar_size(value_type(v)),
        scalar_from_bytes(big, value_type(v), scalar_bytes(big, v)) == v,
{
    let k = scalar_size(value_type(v));
    let n = scalar_bits(v);
    let b = le_bytes(n, k);
    lemma_le_bytes_len(n, k);
    lemma_le_roundtrip(n, k);
    lemma_scalar_bits(v);
    assert(b.reverse().reverse() =~= b);
    assert(in_order(big, in_order(big, b)) == b);
    assert((n as int) % pow(256, k) == n as int) by {
        vstd::arithmetic::div_mod::lemma_small_mod(n, pow(256, k) as nat);
    }
}

} // verus!
