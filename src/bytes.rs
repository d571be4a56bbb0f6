//! Big-endian integers and a bounds-checked reader over a byte slice.
use vstd::prelude::*;

verus! {

/// Why a read from a byte buffer failed.
#[derive(Clone, Copy, Debug, PartialEq, Eq, Structural)]
pub enum ReadError {
    /// The buffer ended early: `available` bytes were left where `needed` were asked for.
    NotEnoughBytes { available: usize, needed: usize },
    /// The bytes were read but describe a structure the format does not allow.
    StructureInvalid,
}

/// The two bytes of `n`, most significant first.
pub open spec fn u16_be_bytes(n: u16) -> Seq<u8> {
    seq![(n >> 8u16) as u8, (n & 0xffu16) as u8]
}

/// The number whose big-endian bytes are `b0 b1`.
pub open spec fn u16_from_be(b0: u8, b1: u8) -> u16 {
    ((b0 as u16) << 8u16) | (b1 as u16)
}

/// The eight bytes of `n`, most significant first.
pub open spec fn u64_be_bytes(n: u64) -> Seq<u8> {
    seq![
        (n >> 56u64) as u8,
        ((n >> 48u64) & 0xffu64) as u8,
        ((n >> 40u64) & 0xffu64) as u8,
        ((n >> 32u64) & 0xffu64) as u8,
        ((n >> 24u64) & 0xffu64) as u8,
        ((n >> 16u64) & 0xffu64) as u8,
        ((n >> 8u64) & 0xffu64) as u8,
        (n & 0xffu64) as u8,
    ]
}

/// The number whose big-endian bytes are the eight of `b` from `pos` on.
pub open spec fn u64_from_be(b: Seq<u8>, pos: int) -> u64 {
    ((b[pos] as u64) << 56u64) | ((b[pos + 1] as u64) << 48u64) | ((b[pos + 2] as u64) << 40u64)
        | ((b[pos + 3] as u64) << 32u64) | ((b[pos + 4] as u64) << 24u64) | ((b[pos + 5] as u64)
        << 16u64) | ((b[pos + 6] as u64) << 8u64) | (b[pos + 7] as u64)
}

/// Reading back the two bytes of a `u16` gives the number.
pub proof fn lemma_u16_be_round_trip(n: u16)
    ensures
        u16_from_be(u16_be_bytes(n)[0], u16_be_bytes(n)[1]) == n,
{
    assert(((((n >> 8u16) as u8) as u16) << 8u16) | (((n & 0xffu16) as u8) as u16) == n)
        by (bit_vector);
}

/// Reading back the eight bytes of a `u64` gives the number.
pub proof fn lemma_u64_be_round_trip(n: u64)
    ensures
        u64_from_be(u64_be_bytes(n), 0) == n,
{
    let b = u64_be_bytes(n);
    assert(((((n >> 56u64) as u8) as u64) << 56u64) | (((((n >> 48u64) & 0xffu64) as u8) as u64)
        << 48u64) | (((((n >> 40u64) & 0xffu64) as u8) as u64) << 40u64) | (((((n >> 32u64)
        & 0xffu64) as u8) as u64) << 32u64) | (((((n >> 24u64) & 0xffu64) as u8) as u64) << 24u64)
        | (((((n >> 16u64) & 0xffu64) as u8) as u64) << 16u64) | (((((n >> 8u64) & 0xffu64) as u8)
        as u64) << 8u64) | (((n & 0xffu64) as u8) as u64) == n) by (bit_vector);
}

/// The error for a read of `needed` bytes at `pos` when `len` bytes are in the buffer.
pub open spec fn short_read(len: int, pos: int, needed: int) -> ReadError {
    ReadError::NotEnoughBytes { available: (len - pos) as usize, needed: needed as usize }
}

/// Reads one byte at `pos`; returns it with the position after it.
pub fn get_u8(buf: &[u8], pos: usize) -> (r: Result<(u8, usize), ReadError>)
    requires
        pos <= buf@.len(),
    ensures
        pos < buf@.len() ==> r == Ok::<(u8, usize), ReadError>((buf@[pos as int], (pos + 1) as usize)),
        pos == buf@.len() ==> r == Err::<(u8, usize), ReadError>(short_read(buf@.len() as int, pos as int, 1)),
{
    if pos < buf.len() {
        Ok((buf[pos], pos + 1))
    } else {
        Err(ReadError::NotEnoughBytes { available: buf.len() - pos, needed: 1 })
    }
}

/// Reads a big-endian `u16` at `pos`; returns it with the position after it.
pub fn get_u16(buf: &[u8], pos: usize) -> (r: Result<(u16, usize), ReadError>)
    requires
        pos <= buf@.len(),
    ensures
        buf@.len() - pos >= 2 ==> r == Ok::<(u16, usize), ReadError>(
            (u16_from_be(buf@[pos as int], buf@[pos + 1]), (pos + 2) as usize),
        ),
        buf@.len() - pos < 2 ==> r == Err::<(u16, usize), ReadError>(short_read(buf@.len() as int, pos as int, 2)),
{
    if buf.len() - pos >= 2 {
        let n: u16 = ((buf[pos] as u16) << 8u16) | (buf[pos + 1] as u16);
        Ok((n, pos + 2))
    } else {
        Err(ReadError::NotEnoughBytes { available: buf.len() - pos, needed: 2 })
    }
}

/// Reads a big-endian `u64` at `pos`; returns it with the position after it.
pub fn get_u64(buf: &[u8], pos: usize) -> (r: Result<(u64, usize), ReadError>)
    requires
        pos <= buf@.len(),
    ensures
        buf@.len() - pos >= 8 ==> r == Ok::<(u64, usize), ReadError>(
            (u64_from_be(buf@, pos as int), (pos + 8) as usize),
        ),
        buf@.len() - pos < 8 ==> r == Err::<(u64, usize), ReadError>(short_read(buf@.len() as int, pos as int, 8)),
{
    if buf.len() - pos >= 8 {
        let n: u64 = ((buf[pos] as u64) << 56u64) | ((buf[pos + 1] as u64) << 48u64) | ((buf[pos
            + 2] as u64) << 40u64) | ((buf[pos + 3] as u64) << 32u64) | ((buf[pos + 4] as u64)
            << 24u64) | ((buf[pos + 5] as u64) << 16u64) | ((buf[pos + 6] as u64) << 8u64) | (buf[pos
            + 7] as u64);
        Ok((n, pos + 8))
    } else {
        Err(ReadError::NotEnoughBytes { available: buf.len() - pos, needed: 8 })
    }
}

/// Copies the `n` bytes at `pos`; returns them with the position after them.
pub fn get_slice(buf: &[u8], pos: usize, n: usize) -> (r: Result<(Vec<u8>, usize), ReadError>)
    requires
        pos <= buf@.len(),
    ensures
        buf@.len() - pos >= n ==> r is Ok && r->Ok_0.0@ == buf@.subrange(pos as int, pos + n)
            && r->Ok_0.1 == pos + n,
        buf@.len() - pos < n ==> r == Err::<(Vec<u8>, usize), ReadError>(short_read(buf@.len() as int, pos as int, n as int)),
{
    if buf.len() - pos >= n {
        let mut out: Vec<u8> = Vec::with_capacity(n);
        let mut i: usize = 0;
        while i < n
            invariant
                i <= n,
                pos + n <= buf.len(),
                out@ == buf@.subrange(pos as int, pos + i),
            decreases n - i,
        {
            out.push(buf[pos + i]);
            i = i + 1;
            assert(out@ =~= buf@.subrange(pos as int, pos + i));
        }
        Ok((out, pos + n))
    } else {
        Err(ReadError::NotEnoughBytes { available: buf.len() - pos, needed: n })
    }
}

/// Appends the two big-endian bytes of `n`.
pub fn put_u16(out: &mut Vec<u8>, n: u16)
    ensures
        final(out)@ == old(out)@ + u16_be_bytes(n),
{
    out.push((n >> 8u16) as u8);
    out.push((n & 0xffu16) as u8);
    assert(final(out)@ =~= old(out)@ + u16_be_bytes(n));
}

/// Appends the eight big-endian bytes of `n`.
pub fn put_u64(out: &mut Vec<u8>, n: u64)
    ensures
        final(out)@ == old(out)@ + u64_be_bytes(n),
{
    out.push((n >> 56u64) as u8);
    out.push(((n >> 48u64) & 0xffu64) as u8);
    out.push(((n >> 40u64) & 0xffu64) as u8);
    out.push(((n >> 32u64) & 0xffu64) as u8);
    out.push(((n >> 24u64) & 0xffu64) as u8);
    out.push(((n >> 16u64) & 0xffu64) as u8);
    out.push(((n >> 8u64) & 0xffu64) as u8);
    out.push((n & 0xffu64) as u8);
    assert(final(out)@ =~= old(out)@ + u64_be_bytes(n));
}

/// Appends the bytes of `b` as they are.
pub fn put_bytes(out: &mut Vec<u8>, b: &[u8])
    ensures
        final(out)@ == old(out)@ + b@,
{
    let mut i: usize = 0;
    while i < b.len()
        invariant
            i <= b@.len(),
            out@ == old(out)@ + b@.subrange(0, i as int),
        decreases b@.len() - i,
    {
        out.push(b[i]);
        i = i + 1;
        assert(out@ =~= old(out)@ + b@.subrange(0, i as int));
    }
    assert(b@.subrange(0, b@.len() as int) =~= b@);
}

} // verus!
