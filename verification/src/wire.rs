//! Fixed-width big-endian field reads and writes on a byte buffer.
//!
//! Decoding works on a borrowed buffer plus an index; each read returns the
//! value together with the index just past the bytes it consumed.  Encoding
//! appends to a growing `Vec<u8>`.

use vstd::prelude::*;

verus! {

/// The 16-bit big-endian value stored at offset `p` of `b`.
pub open spec fn be16_at(b: Seq<u8>, p: int) -> u16
    recommends
        0 <= p,
        p + 2 <= b.len(),
{
    (b[p] * 256 + b[p + 1]) as u16
}

/// The 32-bit big-endian value stored at offset `p` of `b`.
pub open spec fn be32_at(b: Seq<u8>, p: int) -> u32
    recommends
        0 <= p,
        p + 4 <= b.len(),
{
    (b[p] * 0x100_0000 + b[p + 1] * 0x1_0000 + b[p + 2] * 256 + b[p + 3]) as u32
}

/// The two bytes of `v`, most significant first.
pub open spec fn be16_bytes(v: u16) -> Seq<u8> {
    seq![(v / 256) as u8, (v % 256) as u8]
}

/// Reads one byte at `pos`; `None` when `pos` is past the end of the buffer.
pub fn read_u8(buf: &[u8], pos: usize) -> (r: Option<(u8, usize)>)
    ensures
        r is Some <==> pos < buf@.len(),
        (r matches Some((v, end)) ==> v == buf@[pos as int] && end == pos + 1),
{
    if pos < buf.len() {
        Some((buf[pos], pos + 1))
    } else {
        None
    }
}

/// Reads a 16-bit big-endian field at `pos`; `None` when fewer than two
/// bytes remain.
pub fn read_u16(buf: &[u8], pos: usize) -> (r: Option<(u16, usize)>)
    ensures
        r is Some <==> pos + 2 <= buf@.len(),
        (r matches Some((v, end)) ==> v == be16_at(buf@, pos as int) && end == pos + 2),
{
    if pos < buf.len() && buf.len() - pos >= 2 {
        let hi = buf[pos];
        let lo = buf[pos + 1];
        Some(((hi as u16) * 256 + (lo as u16), pos + 2))
    } else {
        None
    }
}

/// Reads a 32-bit big-endian field at `pos`; `None` when fewer than four
/// bytes remain.
pub fn read_u32(buf: &[u8], pos: usize) -> (r: Option<(u32, usize)>)
    ensures
        r is Some <==> pos + 4 <= buf@.len(),
        (r matches Some((v, end)) ==> v == be32_at(buf@, pos as int) && end == pos + 4),
{
    if pos < buf.len() && buf.len() - pos >= 4 {
        let b0 = buf[pos];
        let b1 = buf[pos + 1];
        let b2 = buf[pos + 2];
        let b3 = buf[pos + 3];
        Some(
            (
                (b0 as u32) * 0x100_0000 + (b1 as u32) * 0x1_0000 + (b2 as u32) * 256 + (
                b3 as u32),
                pos + 4,
            ),
        )
    } else {
        None
    }
}

/// Appends the two bytes of `v` in big-endian order.
pub fn write_u16(buffer: &mut Vec<u8>, v: u16)
    ensures
        final(buffer)@ == old(buffer)@ + be16_bytes(v),
{
    buffer.push((v / 256) as u8);
    buffer.push((v % 256) as u8);
    assert(buffer@ =~= old(buffer)@ + be16_bytes(v));
}

/// Appends the bytes `src[from..to]` to `dst`.
pub fn append_range(dst: &mut Vec<u8>, src: &[u8], from: usize, to: usize)
    requires
        from <= to <= src@.len(),
    ensures
        final(dst)@ == old(dst)@ + src@.subrange(from as int, to as int),
{
    let mut j: usize = from;
    while j < to
        invariant
            from <= j <= to <= src@.len(),
            dst@ == old(dst)@ + src@.subrange(from as int, j as int),
        decreases to - j,
    {
        dst.push(src[j]);
        proof {
            assert(old(dst)@ + src@.subrange(from as int, j as int) + seq![src@[j as int]]
                =~= old(dst)@ + src@.subrange(from as int, j + 1));
        }
        j = j + 1;
    }
}

/// Writing a 16-bit value and reading it back at the same offset returns the
/// value: the two bytes determine it uniquely.
pub proof fn lemma_be16_round_trip(b: Seq<u8>, p: int, v: u16)
    requires
        0 <= p,
        p + 2 <= b.len(),
        b.subrange(p, p + 2) == be16_bytes(v),
    ensures
        be16_at(b, p) == v,
{
    assert(b[p] == be16_bytes(v)[0]);
    assert(b[p + 1] == be16_bytes(v)[1]);
}

} // verus!
