//! Fixed-width big-endian integers, read and written through `byteorder`.

use vstd::prelude::*;
use byteorder::{BigEndian, ByteOrder};

verus! {

/// The number that `bytes` spell in base 256, most significant byte first.
pub open spec fn be_value(bytes: Seq<u8>) -> nat
    decreases bytes.len(),
{
    if bytes.len() == 0 {
        0
    } else {
        be_value(bytes.drop_last()) * 256 + bytes.last() as nat
    }
}

/// The `width` low base-256 digits of `v`, most significant first.
pub open spec fn be_bytes(v: nat, width: nat) -> Seq<u8>
    decreases width,
{
    if width == 0 {
        Seq::empty()
    } else {
        be_bytes(v / 256, (width - 1) as nat).push((v % 256) as u8)
    }
}

/// The signed value of a 32-bit two's-complement pattern.
pub open spec fn i32_from_bits(bits: nat) -> int {
    if bits < 0x8000_0000 {
        bits as int
    } else {
        bits - 0x1_0000_0000
    }
}

/// The 32-bit two's-complement pattern of a signed value.
pub open spec fn i32_to_bits(v: i32) -> nat {
    if v >= 0 {
        v as nat
    } else {
        (v + 0x1_0000_0000) as nat
    }
}

/// `256` to the power `n`.
pub open spec fn pow256(n: nat) -> nat
    decreases n,
{
    if n == 0 {
        1
    } else {
        256 * pow256((n - 1) as nat)
    }
}

/// `width` digits hold every value below `256^width`: reading the digits of
/// such a value gives it back.
pub proof fn lemma_be_value_of_bytes(v: nat, width: nat)
    requires
        v < pow256(width),
    ensures
        be_bytes(v, width).len() == width,
        be_value(be_bytes(v, width)) == v,
    decreases width,
{
    if width > 0 {
        let head = be_bytes(v / 256, (width - 1) as nat);
        lemma_be_value_of_bytes(v / 256, (width - 1) as nat);
        assert(be_bytes(v, width).drop_last() =~= head);
    }
}

/// Any digit string is the digits of the value it spells, and that value
/// is below `256^len`.
pub proof fn lemma_be_bytes_of_value(bytes: Seq<u8>)
    ensures
        be_value(bytes) < pow256(bytes.len()),
        be_bytes(be_value(bytes), bytes.len()) == bytes,
    decreases bytes.len(),
{
    if bytes.len() > 0 {
        lemma_be_bytes_of_value(bytes.drop_last());
        assert(be_bytes(be_value(bytes), bytes.len()) =~= bytes);
    }
}

/// The two widths this format uses: `256^4 = 2^32` and `256^8 = 2^64`.
pub proof fn lemma_pow256_widths()
    ensures
        pow256(4) == 0x1_0000_0000,
        pow256(8) == 0x1_0000_0000_0000_0000,
{
    reveal_with_fuel(pow256, 9);
}

/// `byteorder::BigEndian::read_u64`: the first eight bytes of `buf` read as
/// one big-endian unsigned integer. It panics on a shorter buffer.
#[verifier::external_body]
pub(crate) fn be_read_u64(buf: &[u8]) -> (r: u64)
    requires
        buf@.len() >= 8,
    ensures
        r == be_value(buf@.take(8)),
{
    BigEndian::read_u64(buf)
}

/// `byteorder::BigEndian::read_i32`: the first four bytes of `buf` read as a
/// big-endian two's-complement integer. It panics on a shorter buffer.
#[verifier::external_body]
pub(crate) fn be_read_i32(buf: &[u8]) -> (r: i32)
    requires
        buf@.len() >= 4,
    ensures
        r == i32_from_bits(be_value(buf@.take(4))),
{
    BigEndian::read_i32(buf)
}

/// `byteorder::BigEndian::write_u64`: the eight big-endian bytes of `n`,
/// written into a fresh buffer of that size.
#[verifier::external_body]
pub(crate) fn be_write_u64(n: u64) -> (r: [u8; 8])
    ensures
        r@ == be_bytes(n as nat, 8),
{
    let mut buf = [0u8; 8];
    BigEndian::write_u64(&mut buf, n);
    buf
}

/// `byteorder::BigEndian::write_i32`: the four big-endian bytes of the
/// two's-complement pattern of `n`, written into a fresh buffer of that size.
#[verifier::external_body]
pub(crate) fn be_write_i32(n: i32) -> (r: [u8; 4])
    ensures
        r@ == be_bytes(i32_to_bits(n), 4),
{
    let mut buf = [0u8; 4];
    BigEndian::write_i32(&mut buf, n);
    buf
}

} // verus!
