//! Big-endian integers of fixed width, read at a position of a message and
//! appended to an output buffer.
use vstd::prelude::*;

use crate::DecodeError;

verus! {

/// The 16-bit big-endian integer stored at `pos` and `pos + 1`.
pub open spec fn u16_at(buf: Seq<u8>, pos: int) -> u16 {
    (buf[pos] as int * 0x100 + buf[pos + 1] as int) as u16
}

/// The 32-bit big-endian integer stored at `pos` to `pos + 3`.
pub open spec fn u32_at(buf: Seq<u8>, pos: int) -> u32 {
    (buf[pos] as int * 0x1000000 + buf[pos + 1] as int * 0x10000 + buf[pos + 2] as int * 0x100
        + buf[pos + 3] as int) as u32
}

/// The two bytes of `v`, most significant first.
pub open spec fn u16_bytes(v: u16) -> Seq<u8> {
    seq![(v / 0x100) as u8, (v % 0x100) as u8]
}

/// The four bytes of `v`, most significant first.
pub open spec fn u32_bytes(v: u32) -> Seq<u8> {
    seq![
        (v / 0x1000000) as u8,
        (v / 0x10000 % 0x100) as u8,
        (v / 0x100 % 0x100) as u8,
        (v % 0x100) as u8,
    ]
}

/// Reads the 16-bit integer at `pos`.
pub fn read_u16(buf: &[u8], pos: usize) -> (r: Result<u16, DecodeError>)
    ensures
        pos + 2 <= buf@.len() ==> r == Ok::<u16, DecodeError>(u16_at(buf@, pos as int)),
        pos + 2 > buf@.len() ==> r is Err && r->Err_0 is NotEnoughBytes,
{
    if pos >= buf.len() || buf.len() - pos < 2 {
        return Err(DecodeError::NotEnoughBytes);
    }
    Ok(buf[pos] as u16 * 0x100 + buf[pos + 1] as u16)
}

/// Reads the 32-bit integer at `pos`.
pub fn read_u32(buf: &[u8], pos: usize) -> (r: Result<u32, DecodeError>)
    ensures
        pos + 4 <= buf@.len() ==> r == Ok::<u32, DecodeError>(u32_at(buf@, pos as int)),
        pos + 4 > buf@.len() ==> r is Err && r->Err_0 is NotEnoughBytes,
{
    if pos >= buf.len() || buf.len() - pos < 4 {
        return Err(DecodeError::NotEnoughBytes);
    }
    Ok(buf[pos] as u32 * 0x1000000 + buf[pos + 1] as u32 * 0x10000 + buf[pos + 2] as u32 * 0x100
        + buf[pos + 3] as u32)
}

/// Appends the two bytes of `v`, most significant first.
pub fn push_u16(out: &mut Vec<u8>, v: u16)
    ensures
        final(out)@ == old(out)@ + u16_bytes(v),
{
    out.push((v / 0x100) as u8);
    out.push((v % 0x100) as u8);
    assert(final(out)@ =~= old(out)@ + u16_bytes(v));
}

/// Appends the four bytes of `v`, most significant first.
pub fn push_u32(out: &mut Vec<u8>, v: u32)
    ensures
        final(out)@ == old(out)@ + u32_bytes(v),
{
    out.push((v / 0x1000000) as u8);
    out.push((v / 0x10000 % 0x100) as u8);
    out.push((v / 0x100 % 0x100) as u8);
    out.push((v % 0x100) as u8);
    assert(final(out)@ =~= old(out)@ + u32_bytes(v));
}

/// Copies the `len` bytes that start at `start`.
pub fn take_bytes(buf: &[u8], start: usize, len: usize) -> (r: Vec<u8>)
    requires
        start + len <= buf@.len(),
    ensures
        r@ == buf@.subrange(start as int, start + len),
{
    let mut out: Vec<u8> = Vec::new();
    let mut i: usize = 0;
    let n = buf.len();
    while i < len
        invariant
            i <= len,
            n == buf@.len(),
            start + len <= buf@.len(),
            out@ == buf@.subrange(start as int, start + i),
        decreases len - i,
    {
        out.push(buf[start + i]);
        i = i + 1;
        assert(out@ =~= buf@.subrange(start as int, start + i));
    }
    out
}

/// Appends `bytes` to `out`.
pub fn push_bytes(out: &mut Vec<u8>, bytes: &[u8])
    ensures
        final(out)@ == old(out)@ + bytes@,
{
    let mut i: usize = 0;
    while i < bytes.len()
        invariant
            i <= bytes@.len(),
            out@ == old(out)@ + bytes@.subrange(0, i as int),
        decreases bytes@.len() - i,
    {
        out.push(bytes[i]);
        i = i + 1;
        assert(out@ =~= old(out)@ + bytes@.subrange(0, i as int));
    }
    assert(bytes@.subrange(0, i as int) =~= bytes@);
}

/// Reading back the two bytes of `v` gives `v`.
pub proof fn lemma_u16_round_trip(buf: Seq<u8>, pos: int, v: u16)
    requires
        0 <= pos,
        pos + 2 <= buf.len(),
        buf.subrange(pos, pos + 2) == u16_bytes(v),
    ensures
        u16_at(buf, pos) == v,
{
    assert(buf[pos] == u16_bytes(v)[0]);
    assert(buf[pos + 1] == u16_bytes(v)[1]);
    assert((v / 0x100) as u8 as int * 0x100 + (v % 0x100) as u8 as int == v) by (bit_vector);
}

/// Reading back the four bytes of `v` gives `v`.
pub proof fn lemma_u32_round_trip(buf: Seq<u8>, pos: int, v: u32)
    requires
        0 <= pos,
        pos + 4 <= buf.len(),
        buf.subrange(pos, pos + 4) == u32_bytes(v),
    ensures
        u32_at(buf, pos) == v,
{
    assert(buf[pos] == u32_bytes(v)[0]);
    assert(buf[pos + 1] == u32_bytes(v)[1]);
    assert(buf[pos + 2] == u32_bytes(v)[2]);
    assert(buf[pos + 3] == u32_bytes(v)[3]);
    assert((v / 0x1000000) as u8 as int * 0x1000000 + (v / 0x10000 % 0x100) as u8 as int * 0x10000
        + (v / 0x100 % 0x100) as u8 as int * 0x100 + (v % 0x100) as u8 as int == v) by (bit_vector);
}

} // verus!
