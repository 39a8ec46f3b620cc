//! Primitive codecs: 4-byte big-endian integers and the
//! variable-length tag integer.

use vstd::prelude::*;
use crate::McprError;

verus! {

/// The signed 32-bit value held big-endian in `data[pos .. pos + 4]`.
pub open spec fn be_u32_at(data: Seq<u8>, pos: int) -> u32 {
    ((data[pos] as u32) << 24) | ((data[pos + 1] as u32) << 16) | ((data[pos + 2] as u32) << 8)
        | (data[pos + 3] as u32)
}

/// The value `read_int` decodes at `pos`: the 4 bytes reinterpreted
/// as a signed 32-bit integer.
pub open spec fn be_i32_at(data: Seq<u8>, pos: int) -> i32 {
    be_u32_at(data, pos) as i32
}

/// The 4-byte big-endian encoding of `value`.
pub open spec fn i32_be_bytes(value: i32) -> Seq<u8> {
    seq![
        ((value >> 24) & 0xFF) as u8,
        ((value >> 16) & 0xFF) as u8,
        ((value >> 8) & 0xFF) as u8,
        (value & 0xFF) as u8,
    ]
}

/// Reads a 4-byte big-endian signed integer at offset `pos`;
/// `None` when fewer than 4 bytes remain.
pub fn read_int(data: &[u8], pos: usize) -> (r: Option<i32>)
    ensures
        pos + 4 <= data@.len() ==> r == Some(be_i32_at(data@, pos as int)),
        pos + 4 > data@.len() ==> r is None,
{
    if data.len() < 4 || pos > data.len() - 4 {
        None
    } else {
        let v: u32 = ((data[pos] as u32) << 24u32) | ((data[pos + 1] as u32) << 16u32) | ((data[pos
            + 2] as u32) << 8u32) | (data[pos + 3] as u32);
        Some(v as i32)
    }
}

/// Appends the 4-byte big-endian encoding of `value` to `buf`.
pub fn write_int(buf: &mut Vec<u8>, value: i32)
    ensures
        final(buf)@ == old(buf)@ + i32_be_bytes(value),
{
    buf.push(((value >> 24i32) & 0xFF) as u8);
    buf.push(((value >> 16i32) & 0xFF) as u8);
    buf.push(((value >> 8i32) & 0xFF) as u8);
    buf.push((value & 0xFF) as u8);
    assert(buf@ =~= old(buf)@ + i32_be_bytes(value));
}

/// Re-encoding the integer decoded from 4 bytes reproduces those
/// bytes exactly.
pub proof fn lemma_int_roundtrip(data: Seq<u8>, pos: int)
    requires
        0 <= pos,
        pos + 4 <= data.len(),
    ensures
        i32_be_bytes(be_i32_at(data, pos)) == data.subrange(pos, pos + 4),
{
    let b0 = data[pos];
    let b1 = data[pos + 1];
    let b2 = data[pos + 2];
    let b3 = data[pos + 3];
    let v = be_i32_at(data, pos);
    assert((((((b0 as u32) << 24) | ((b1 as u32) << 16) | ((b2 as u32) << 8) | (b3 as u32)) as i32)
        >> 24) & 0xFF == b0) by (bit_vector);
    assert((((((b0 as u32) << 24) | ((b1 as u32) << 16) | ((b2 as u32) << 8) | (b3 as u32)) as i32)
        >> 16) & 0xFF == b1) by (bit_vector);
    assert((((((b0 as u32) << 24) | ((b1 as u32) << 16) | ((b2 as u32) << 8) | (b3 as u32)) as i32)
        >> 8) & 0xFF == b2) by (bit_vector);
    assert(((((b0 as u32) << 24) | ((b1 as u32) << 16) | ((b2 as u32) << 8) | (b3 as u32)) as i32)
        & 0xFF == b3) by (bit_vector);
    assert(i32_be_bytes(v) =~= data.subrange(pos, pos + 4));
}

/// Whether a variable-length integer byte carries the continuation
/// flag (high bit set), promising further bytes.
pub open spec fn has_cont(b: u8) -> bool {
    b & 0x80 != 0
}

/// The value accumulated from the first `n` bytes of a
/// variable-length integer: each byte contributes its low 7 bits,
/// the first byte least significant.
pub open spec fn varint_value(data: Seq<u8>, n: int) -> u32
    decreases n,
{
    if n <= 0 {
        0
    } else {
        varint_value(data, n - 1) | (((data[n - 1] & 0x7F) as u32) << ((7 * (n - 1)) as u32))
    }
}

/// The index of the byte that terminates the variable-length integer
/// starting at `i` (its continuation flag is clear), or -1 when no
/// terminating byte occurs within the first 5 bytes of `data`.
pub open spec fn varint_stop(data: Seq<u8>, i: int) -> int
    decreases 5 - i,
{
    if i < 0 || i >= 5 || i >= data.len() {
        -1
    } else if !has_cont(data[i]) {
        i
    } else {
        varint_stop(data, i + 1)
    }
}

/// The tag decoded from the front of a payload; decode failures fall
/// back to the sentinel value 0xFFFF, which no real filter code is
/// expected to use.
pub open spec fn tag_of(payload: Seq<u8>) -> u32 {
    let k = varint_stop(payload, 0);
    if k >= 0 {
        varint_value(payload, k + 1)
    } else {
        0xFFFF
    }
}

/// A variable-length-integer decode that walks continuation bytes up
/// to index `i` ends where one begun at index `i` ends.
proof fn lemma_varint_stop_advance(data: Seq<u8>, i: int)
    requires
        0 <= i <= 5,
        i <= data.len(),
        forall|j: int| 0 <= j < i ==> has_cont(#[trigger] data[j]),
    ensures
        varint_stop(data, 0) == varint_stop(data, i),
    decreases i,
{
    if i > 0 {
        lemma_varint_stop_advance(data, i - 1);
        assert(varint_stop(data, i - 1) == varint_stop(data, i));
    }
}

/// Decodes a variable-length integer from the front of `data`,
/// returning the value and the number of bytes consumed.  At most 5
/// bytes may be consumed; needing a sixth fails with `VarintTooLong`,
/// and running out of input before a terminating byte fails with
/// `UnexpectedEof`.
pub fn read_varint(data: &[u8]) -> (r: Result<(u32, usize), McprError>)
    ensures
        varint_stop(data@, 0) >= 0 ==> r == Ok::<(u32, usize), McprError>(
            (tag_of(data@), (varint_stop(data@, 0) + 1) as usize),
        ),
        varint_stop(data@, 0) < 0 && data@.len() <= 5 ==> r == Err::<(u32, usize), McprError>(
            McprError::UnexpectedEof,
        ),
        varint_stop(data@, 0) < 0 && data@.len() > 5 ==> r == Err::<(u32, usize), McprError>(
            McprError::VarintTooLong,
        ),
{
    let mut i: usize = 0;
    let mut result: u32 = 0;
    while i < data.len() && i < 5
        invariant
            0 <= i <= 5,
            i <= data@.len(),
            forall|j: int| 0 <= j < i ==> has_cont(#[trigger] data@[j]),
            result == varint_value(data@, i as int),
        decreases data@.len() - i,
    {
        let b = data[i];
        result = result | (((b & 0x7F) as u32) << ((7 * i) as u32));
        assert(result == varint_value(data@, i + 1));
        if b & 0x80 == 0 {
            proof {
                lemma_varint_stop_advance(data@, i as int);
                assert(varint_stop(data@, i as int) == i);
            }
            return Ok((result, i + 1));
        }
        i = i + 1;
    }
    proof {
        lemma_varint_stop_advance(data@, i as int);
        assert(varint_stop(data@, i as int) == -1);
    }
    if data.len() <= 5 {
        Err(McprError::UnexpectedEof)
    } else {
        Err(McprError::VarintTooLong)
    }
}

} // verus!
