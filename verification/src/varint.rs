//! Variable-length integers: the unsigned big-endian base-128 form and the
//! zigzag mapping that carries signed values over it.

use vstd::prelude::*;
use crate::error::{IoError, SbonError};
use crate::sink::ByteSink;
use crate::source::{ByteSource, Decoded};

verus! {

/// The most bytes an unsigned variable-length integer may span.
pub const MAX_VLQ_BYTES: u8 = 10;

/// The continuation-flagged bytes that carry `v`, most significant group
/// first; none for zero.
pub open spec fn varuint_head(v: nat) -> Seq<u8>
    decreases v,
{
    if v == 0 {
        Seq::empty()
    } else {
        varuint_head(v / 128).push((128 + v % 128) as u8)
    }
}

/// The encoding of `v`: seven bits a byte, most significant group first,
/// every byte but the last flagged with its high bit.
pub open spec fn encode_varuint(v: nat) -> Seq<u8> {
    varuint_head(v / 128).push((v % 128) as u8)
}

/// One decoding step: the accumulator moves up seven bits, within 64, and
/// takes the low seven bits of `b`.
pub open spec fn varuint_step(acc: u64, b: u8) -> u64 {
    ((acc * 128 + b % 128) % 0x1_0000_0000_0000_0000) as u64
}

/// Decoding with `acc` accumulated so far and `budget` bytes still allowed.
pub open spec fn decode_varuint_from(bytes: Seq<u8>, acc: u64, budget: nat) -> Decoded<
    u64,
    SbonError,
>
    decreases budget,
{
    if budget == 0 {
        Decoded { value: Err(SbonError::OversizedVLQ), rest: bytes }
    } else if bytes.len() == 0 {
        Decoded { value: Err(SbonError::Io(IoError::UnexpectedEof)), rest: bytes }
    } else if bytes[0] < 128 {
        Decoded { value: Ok(varuint_step(acc, bytes[0])), rest: bytes.skip(1) }
    } else {
        decode_varuint_from(bytes.skip(1), varuint_step(acc, bytes[0]), (budget - 1) as nat)
    }
}

/// Decoding an unsigned variable-length integer off the front of `bytes`:
/// bytes are taken up to the first one without the high bit. It fails when
/// the source ends first, and when ten bytes in a row carry the flag.
pub open spec fn decode_varuint(bytes: Seq<u8>) -> Decoded<u64, SbonError> {
    decode_varuint_from(bytes, 0, MAX_VLQ_BYTES as nat)
}

/// The zigzag image of a signed value: non-negative `v` maps to `2v`,
/// negative `v` to `2(|v| - 1) + 1`.
pub open spec fn zigzag(v: int) -> int {
    if v < 0 {
        2 * (-v - 1) + 1
    } else {
        2 * v
    }
}

/// The signed value a zigzag image stands for: odd `u` maps to `-(u / 2) - 1`,
/// even `u` to `u / 2`.
pub open spec fn unzigzag(u: int) -> int {
    if u % 2 == 1 {
        -(u / 2) - 1
    } else {
        u / 2
    }
}

/// The encoding of a signed value: the unsigned encoding of its zigzag image.
pub open spec fn encode_varint(v: i64) -> Seq<u8> {
    encode_varuint(zigzag(v as int) as nat)
}

/// Decoding a signed variable-length integer off the front of `bytes`.
pub open spec fn decode_varint(bytes: Seq<u8>) -> Decoded<i64, SbonError> {
    let unsigned = decode_varuint(bytes);
    Decoded {
        value: match unsigned.value {
            Ok(u) => Ok(unzigzag(u as int) as i64),
            Err(e) => Err(e),
        },
        rest: unsigned.rest,
    }
}

/// Maps a signed value to its zigzag image.
pub fn zigzag_encode(v: i64) -> (u: u64)
    ensures
        u == zigzag(v as int),
{
    if v < 0 {
        let m: u64 = (-(v + 1)) as u64;
        m * 2 + 1
    } else {
        (v as u64) * 2
    }
}

/// Maps a zigzag image back to the signed value.
pub fn zigzag_decode(u: u64) -> (v: i64)
    ensures
        v == unzigzag(u as int),
{
    let half: u64 = u >> 1;
    assert(half == u / 2) by (bit_vector)
        requires
            half == u >> 1,
    ;
    if u & 1 != 0 {
        assert(u % 2 == 1) by (bit_vector)
            requires
                u & 1 != 0,
        ;
        -(half as i64) - 1
    } else {
        assert(u % 2 == 0) by (bit_vector)
            requires
                u & 1 == 0,
        ;
        half as i64
    }
}

proof fn lemma_step_bits(acc: u64, b: u8)
    ensures
        (acc << 7 | (b & 0x7f) as u64) == varuint_step(acc, b),
        (b & 0x80 == 0) <==> b < 128,
{
    assert((acc << 7 | (b & 0x7f) as u64) == ((acc * 128 + b % 128)
        % 0x1_0000_0000_0000_0000) as u64) by (bit_vector);
    assert((b & 0x80 == 0) <==> b < 128) by (bit_vector);
}

impl ByteSource {
    /// Reads an unsigned variable-length integer.
    pub fn read_sb_vlqu(&mut self) -> (r: Result<u64, SbonError>)
        ensures
            final(self).bytes() == old(self).bytes(),
            r == decode_varuint(old(self).remaining()).value,
            final(self).remaining() == decode_varuint(old(self).remaining()).rest,
    {
        let ghost start = self.remaining();
        let mut val: u64 = 0;
        let mut i: u8 = 0;
        while i < MAX_VLQ_BYTES
            invariant
                i <= MAX_VLQ_BYTES,
                self.bytes() == old(self).bytes(),
                start == old(self).remaining(),
                decode_varuint(start) == decode_varuint_from(
                    self.remaining(),
                    val,
                    (MAX_VLQ_BYTES - i) as nat,
                ),
            decreases MAX_VLQ_BYTES - i,
        {
            let byte: u8 = match self.read_u8() {
                Ok(b) => b,
                Err(e) => {
                    return Err(SbonError::Io(e));
                },
            };
            proof {
                lemma_step_bits(val, byte);
            }
            val = val << 7 | (byte & 0x7f) as u64;
            if byte & 0x80 == 0 {
                return Ok(val);
            }
            i = i + 1;
        }
        Err(SbonError::OversizedVLQ)
    }

    /// Reads a signed variable-length integer.
    pub fn read_sb_vlqi(&mut self) -> (r: Result<i64, SbonError>)
        ensures
            final(self).bytes() == old(self).bytes(),
            r == decode_varint(old(self).remaining()).value,
            final(self).remaining() == decode_varint(old(self).remaining()).rest,
    {
        match self.read_sb_vlqu() {
            Ok(u) => Ok(zigzag_decode(u)),
            Err(e) => Err(e),
        }
    }
}

/// `128` to the power `n`.
pub open spec fn pow128(n: nat) -> nat
    decreases n,
{
    if n == 0 {
        1
    } else {
        128 * pow128((n - 1) as nat)
    }
}

/// The accumulator after decoding the continuation bytes of `h` on top of `acc`.
spec fn shifted(acc: u64, h: nat) -> u64
    decreases h,
{
    if h == 0 {
        acc
    } else {
        varuint_step(shifted(acc, h / 128), (128 + h % 128) as u8)
    }
}

proof fn lemma_head_length(h: nat)
    ensures
        h < pow128(varuint_head(h).len()),
        h > 0 ==> varuint_head(h).len() >= 1 && h >= pow128((varuint_head(h).len() - 1) as nat),
        h > 0 ==> varuint_head(h)[0] > 128,
        forall|i: int| 0 <= i < varuint_head(h).len() ==> varuint_head(h)[i] >= 128,
    decreases h,
{
    if h > 0 {
        lemma_head_length(h / 128);
    }
}

proof fn lemma_pow128_monotonic(a: nat, b: nat)
    requires
        a <= b,
    ensures
        pow128(a) <= pow128(b),
        pow128(a) >= 1,
    decreases b,
{
    if a < b {
        lemma_pow128_monotonic(a, (b - 1) as nat);
    } else if b > 0 {
        lemma_pow128_monotonic((a - 1) as nat, (b - 1) as nat);
    }
}

proof fn lemma_pow128_nine()
    ensures
        pow128(9) == 0x8000_0000_0000_0000,
{
    reveal_with_fuel(pow128, 10);
}

proof fn lemma_decode_over_head(h: nat, rest: Seq<u8>, acc: u64, budget: nat)
    requires
        varuint_head(h).len() <= budget,
    ensures
        decode_varuint_from(varuint_head(h) + rest, acc, budget) == decode_varuint_from(
            rest,
            shifted(acc, h),
            (budget - varuint_head(h).len()) as nat,
        ),
    decreases h,
{
    if h == 0 {
        assert(varuint_head(h) + rest =~= rest);
    } else {
        let c = (128 + h % 128) as u8;
        let inner = seq![c] + rest;
        assert(varuint_head(h) + rest =~= varuint_head(h / 128) + inner);
        lemma_decode_over_head(h / 128, inner, acc, budget);
        assert(inner.skip(1) =~= rest);
    }
}

proof fn lemma_shifted_from_zero(h: nat)
    requires
        h <= u64::MAX,
    ensures
        shifted(0, h) == h,
    decreases h,
{
    if h > 0 {
        lemma_shifted_from_zero(h / 128);
    }
}

/// Decoding an encoded value gives the value back and consumes exactly the
/// encoding: whatever followed it is what is left.
pub proof fn lemma_varuint_roundtrip(v: u64, tail: Seq<u8>)
    ensures
        decode_varuint(encode_varuint(v as nat) + tail) == (Decoded::<u64, SbonError> {
            value: Ok(v),
            rest: tail,
        }),
{
    let h = (v / 128) as nat;
    let low = (v % 128) as u8;
    let inner = seq![low] + tail;
    lemma_head_length(h);
    lemma_pow128_nine();
    if varuint_head(h).len() > 9 {
        lemma_pow128_monotonic(9, (varuint_head(h).len() - 1) as nat);
    }
    assert(encode_varuint(v as nat) + tail =~= varuint_head(h) + inner);
    lemma_decode_over_head(h, inner, 0, MAX_VLQ_BYTES as nat);
    lemma_shifted_from_zero(h);
    assert(inner.skip(1) =~= tail);
}

/// The encoding of a 64-bit value is as short as seven-bit groups allow: it
/// has between one and ten bytes, `n` bytes hold a value below `128^n`, an
/// encoding of more than one byte holds a value of at least `128^(n-1)`,
/// and so its first byte is never a bare continuation flag. Every byte but
/// the last carries the flag; the last does not.
pub proof fn lemma_varuint_minimal(v: u64)
    ensures
        1 <= encode_varuint(v as nat).len() <= MAX_VLQ_BYTES,
        v < pow128(encode_varuint(v as nat).len()),
        encode_varuint(v as nat).len() > 1 ==> v >= pow128(
            (encode_varuint(v as nat).len() - 1) as nat,
        ),
        encode_varuint(v as nat).len() > 1 ==> encode_varuint(v as nat)[0] != 0x80,
        encode_varuint(v as nat).last() < 128,
        forall|i: int|
            0 <= i < encode_varuint(v as nat).len() - 1 ==> encode_varuint(v as nat)[i] >= 128,
{
    let h = (v / 128) as nat;
    lemma_head_length(h);
    lemma_pow128_nine();
    if varuint_head(h).len() > 9 {
        lemma_pow128_monotonic(9, (varuint_head(h).len() - 1) as nat);
    }
}

/// Decoding an encoded signed value gives the value back, for every `i64`,
/// and consumes exactly the encoding.
pub proof fn lemma_varint_roundtrip(v: i64, tail: Seq<u8>)
    ensures
        0 <= zigzag(v as int) <= u64::MAX,
        unzigzag(zigzag(v as int)) == v,
        decode_varint(encode_varint(v) + tail) == (Decoded::<i64, SbonError> {
            value: Ok(v),
            rest: tail,
        }),
{
    lemma_varuint_roundtrip(zigzag(v as int) as u64, tail);
}

proof fn lemma_flagged_run(bytes: Seq<u8>, acc: u64, budget: nat)
    requires
        bytes.len() >= budget,
        forall|i: int| 0 <= i < budget ==> bytes[i] >= 128,
    ensures
        decode_varuint_from(bytes, acc, budget) == (Decoded::<u64, SbonError> {
            value: Err(SbonError::OversizedVLQ),
            rest: bytes.skip(budget as int),
        }),
    decreases budget,
{
    if budget == 0 {
        assert(bytes.skip(0) =~= bytes);
    } else {
        let next = bytes.skip(1);
        assert forall|i: int| 0 <= i < budget - 1 implies next[i] >= 128 by {
            assert(next[i] == bytes[i + 1]);
        }
        lemma_flagged_run(next, varuint_step(acc, bytes[0]), (budget - 1) as nat);
        assert(next.skip(budget - 1) =~= bytes.skip(budget as int));
    }
}

/// Ten continuation-flagged bytes in a row are one too many: decoding fails
/// as oversized after taking exactly those ten, whatever follows them.
pub proof fn lemma_varuint_oversized(bytes: Seq<u8>)
    requires
        bytes.len() >= MAX_VLQ_BYTES,
        forall|i: int| 0 <= i < MAX_VLQ_BYTES ==> bytes[i] >= 128,
    ensures
        decode_varuint(bytes) == (Decoded::<u64, SbonError> {
            value: Err(SbonError::OversizedVLQ),
            rest: bytes.skip(MAX_VLQ_BYTES as int),
        }),
{
    lemma_flagged_run(bytes, 0, MAX_VLQ_BYTES as nat);
}

impl ByteSink {
    fn write_vlqu_head(&mut self, v: u64)
        ensures
            final(self)@ == old(self)@ + varuint_head(v as nat),
        decreases v,
    {
        if v != 0 {
            assert(v >> 7 == v / 128 && ((v & 0x7f) as u8 | 0x80) == 128 + v % 128) by (bit_vector);
            self.write_vlqu_head(v >> 7);
            self.write_u8((v & 0x7f) as u8 | 0x80);
        }
    }

    /// Writes an unsigned variable-length integer.
    pub fn write_sb_vlqu(&mut self, val: u64)
        ensures
            final(self)@ == old(self)@ + encode_varuint(val as nat),
    {
        assert(val >> 7 == val / 128 && (val & 0x7f) as u8 == val % 128) by (bit_vector);
        self.write_vlqu_head(val >> 7);
        self.write_u8((val & 0x7f) as u8);
    }

    /// Writes a signed variable-length integer.
    pub fn write_sb_vlqi(&mut self, val: i64)
        ensures
            final(self)@ == old(self)@ + encode_varint(val),
    {
        self.write_sb_vlqu(zigzag_encode(val));
    }
}

} // verus!
