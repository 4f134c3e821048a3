//! Bounds-checked reads and writes of fixed-width big-endian integers
//! over a byte buffer.  Reads take the buffer, a window end, and an
//! offset, so that a malformed record can never pull the parser past its
//! own window.

use vstd::prelude::*;

use crate::errors::ParseError;

verus! {

/// The value of two big-endian bytes.
pub open spec fn be16_val(hi: u8, lo: u8) -> u16 {
    ((hi as int) * 256 + (lo as int)) as u16
}

/// The value of four big-endian bytes.
pub open spec fn be32_val(b0: u8, b1: u8, b2: u8, b3: u8) -> u32 {
    ((b0 as int) * 0x1000000 + (b1 as int) * 0x10000 + (b2 as int) * 256 + (b3 as int)) as u32
}

/// The two big-endian bytes of a 16-bit value.
pub open spec fn be16_bytes(x: u16) -> Seq<u8> {
    seq![(x / 256) as u8, (x % 256) as u8]
}

/// The four big-endian bytes of a 32-bit value.
pub open spec fn be32_bytes(x: u32) -> Seq<u8> {
    seq![
        (x / 0x1000000) as u8,
        ((x / 0x10000) % 256) as u8,
        ((x / 256) % 256) as u8,
        (x % 256) as u8,
    ]
}

/// Reading one byte at `pos` inside the window `[0, end)` of `s`.
pub open spec fn sr_u8(s: Seq<u8>, end: int, pos: int) -> Result<(u8, int), ParseError> {
    if 0 <= pos && pos < end && end <= s.len() {
        Ok((s[pos], pos + 1))
    } else {
        Err(ParseError::Truncated)
    }
}

/// Reading a big-endian 16-bit value at `pos` inside the window `[0, end)`.
pub open spec fn sr_u16(s: Seq<u8>, end: int, pos: int) -> Result<(u16, int), ParseError> {
    if 0 <= pos && pos + 2 <= end && end <= s.len() {
        Ok((be16_val(s[pos], s[pos + 1]), pos + 2))
    } else {
        Err(ParseError::Truncated)
    }
}

/// Reading a big-endian 32-bit value at `pos` inside the window `[0, end)`.
pub open spec fn sr_u32(s: Seq<u8>, end: int, pos: int) -> Result<(u32, int), ParseError> {
    if 0 <= pos && pos + 4 <= end && end <= s.len() {
        Ok((be32_val(s[pos], s[pos + 1], s[pos + 2], s[pos + 3]), pos + 4))
    } else {
        Err(ParseError::Truncated)
    }
}

/// Reads one byte at `pos`, failing on a read past `end`.
pub fn read_u8(buf: &[u8], end: usize, pos: usize) -> (r: Result<(u8, usize), ParseError>)
    requires
        end <= buf@.len(),
    ensures
        match r {
            Ok((v, p)) => sr_u8(buf@, end as int, pos as int) == Ok::<_, ParseError>(
                (v, p as int),
            ),
            Err(e) => sr_u8(buf@, end as int, pos as int) == Err::<(u8, int), ParseError>(e),
        },
{
    if pos < end {
        Ok((buf[pos], pos + 1))
    } else {
        Err(ParseError::Truncated)
    }
}

/// Reads a big-endian 16-bit value at `pos`, failing on a read past `end`.
pub fn read_u16(buf: &[u8], end: usize, pos: usize) -> (r: Result<(u16, usize), ParseError>)
    requires
        end <= buf@.len(),
    ensures
        match r {
            Ok((v, p)) => sr_u16(buf@, end as int, pos as int) == Ok::<_, ParseError>(
                (v, p as int),
            ),
            Err(e) => sr_u16(buf@, end as int, pos as int) == Err::<(u16, int), ParseError>(e),
        },
{
    if pos < end && end - pos >= 2 {
        let hi = buf[pos];
        let lo = buf[pos + 1];
        Ok(((hi as u16) * 256 + (lo as u16), pos + 2))
    } else {
        Err(ParseError::Truncated)
    }
}

/// Reads a big-endian 32-bit value at `pos`, failing on a read past `end`.
pub fn read_u32(buf: &[u8], end: usize, pos: usize) -> (r: Result<(u32, usize), ParseError>)
    requires
        end <= buf@.len(),
    ensures
        match r {
            Ok((v, p)) => sr_u32(buf@, end as int, pos as int) == Ok::<_, ParseError>(
                (v, p as int),
            ),
            Err(e) => sr_u32(buf@, end as int, pos as int) == Err::<(u32, int), ParseError>(e),
        },
{
    if pos < end && end - pos >= 4 {
        let b0 = buf[pos];
        let b1 = buf[pos + 1];
        let b2 = buf[pos + 2];
        let b3 = buf[pos + 3];
        Ok((
            (b0 as u32) * 0x1000000 + (b1 as u32) * 0x10000 + (b2 as u32) * 256 + (b3 as u32),
            pos + 4,
        ))
    } else {
        Err(ParseError::Truncated)
    }
}

/// Appends the two big-endian bytes of `x`.
pub fn push_u16(out: &mut Vec<u8>, x: u16)
    ensures
        final(out)@ == old(out)@ + be16_bytes(x),
{
    out.push((x / 256) as u8);
    out.push((x % 256) as u8);
    assert(out@ =~= old(out)@ + be16_bytes(x));
}

/// Appends the four big-endian bytes of `x`.
pub fn push_u32(out: &mut Vec<u8>, x: u32)
    ensures
        final(out)@ == old(out)@ + be32_bytes(x),
{
    out.push((x / 0x1000000) as u8);
    out.push(((x / 0x10000) % 256) as u8);
    out.push(((x / 256) % 256) as u8);
    out.push((x % 256) as u8);
    assert(out@ =~= old(out)@ + be32_bytes(x));
}

/// Appends a copy of `src`.
pub fn push_bytes(out: &mut Vec<u8>, src: &Vec<u8>)
    ensures
        final(out)@ == old(out)@ + src@,
{
    let n = src.len();
    let mut i: usize = 0;
    while i < n
        invariant
            n == src@.len(),
            i <= n,
            out@ == old(out)@ + src@.subrange(0, i as int),
        decreases n - i,
    {
        out.push(src[i]);
        proof {
            assert(out@ =~= old(out)@ + src@.subrange(0, (i + 1) as int));
        }
        i += 1;
    }
    proof {
        assert(src@.subrange(0, n as int) =~= src@);
    }
}

/// The big-endian bytes of a 16-bit value read back as that value.
pub proof fn lemma_be16_round_trip(x: u16)
    ensures
        be16_val(be16_bytes(x)[0], be16_bytes(x)[1]) == x,
{
    assert((x / 256) * 256 + x % 256 == x) by (nonlinear_arith);
    assert(x / 256 < 256) by (nonlinear_arith);
}

/// Reading back two big-endian bytes that were written at `pos` yields
/// the written value.
pub proof fn lemma_sr_u16_bytes(s: Seq<u8>, pos: int, x: u16)
    requires
        0 <= pos,
        pos + 2 <= s.len(),
        s.subrange(pos, pos + 2) == be16_bytes(x),
    ensures
        sr_u16(s, s.len() as int, pos) == Ok::<_, ParseError>((x, pos + 2)),
{
    assert(s[pos] == be16_bytes(x)[0]);
    assert(s[pos + 1] == be16_bytes(x)[1]);
    lemma_be16_round_trip(x);
}

} // verus!
