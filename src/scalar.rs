use vstd::prelude::*;

use crate::error::CodecError;

verus! {

/// Order of the bytes of a multi-byte integer on the wire.
#[derive(Clone, Copy, Debug, PartialEq, Eq, Structural)]
pub enum ByteOrder {
    Big,
    Little,
}

/// The two bytes of `v` in the given order.
pub open spec fn u16_wire(order: ByteOrder, v: u16) -> Seq<u8> {
    match order {
        ByteOrder::Big => seq![(v / 256) as u8, (v % 256) as u8],
        ByteOrder::Little => seq![(v % 256) as u8, (v / 256) as u8],
    }
}

/// The integer held by the first two bytes of `b`.
pub open spec fn u16_of(order: ByteOrder, b: Seq<u8>) -> u16
    recommends
        b.len() >= 2,
{
    match order {
        ByteOrder::Big => (b[0] as int * 256 + b[1] as int) as u16,
        ByteOrder::Little => (b[1] as int * 256 + b[0] as int) as u16,
    }
}

/// The integer held by the two bytes of `b` that start at `pos`.
pub open spec fn u16_at(order: ByteOrder, b: Seq<u8>, pos: int) -> u16 {
    u16_of(order, b.subrange(pos, pos + 2))
}

/// The four bytes of `v` in the given order.
pub open spec fn u32_wire(order: ByteOrder, v: u32) -> Seq<u8> {
    let hi = (v / 0x10000) as u16;
    let lo = (v % 0x10000) as u16;
    match order {
        ByteOrder::Big => u16_wire(order, hi) + u16_wire(order, lo),
        ByteOrder::Little => u16_wire(order, lo) + u16_wire(order, hi),
    }
}

/// The integer held by the first four bytes of `b`.
pub open spec fn u32_of(order: ByteOrder, b: Seq<u8>) -> u32
    recommends
        b.len() >= 4,
{
    let first = u16_of(order, b) as int;
    let second = u16_of(order, b.subrange(2, 4)) as int;
    match order {
        ByteOrder::Big => (first * 0x10000 + second) as u32,
        ByteOrder::Little => (second * 0x10000 + first) as u32,
    }
}

/// The wire form of a run of 16-bit integers.
pub open spec fn u16s_wire(order: ByteOrder, vs: Seq<u16>) -> Seq<u8>
    decreases vs.len(),
{
    if vs.len() == 0 {
        Seq::empty()
    } else {
        u16s_wire(order, vs.drop_last()) + u16_wire(order, vs.last())
    }
}

/// The 16-bit integers held by `b`, two bytes each (`b` of even length).
pub open spec fn u16s_of(order: ByteOrder, b: Seq<u8>) -> Seq<u16> {
    Seq::new((b.len() / 2) as nat, |i: int| u16_at(order, b, 2 * i))
}

pub proof fn lemma_u16_wire_of(order: ByteOrder, b: Seq<u8>)
    requires
        b.len() == 2,
    ensures
        u16_wire(order, u16_of(order, b)) == b,
{
    assert(u16_wire(order, u16_of(order, b)) =~= b);
}

/// The wire form of the integer read at `pos` is the two bytes it was read from.
pub proof fn lemma_u16_at_wire(order: ByteOrder, b: Seq<u8>, pos: int)
    requires
        0 <= pos,
        pos + 2 <= b.len(),
    ensures
        u16_wire(order, u16_at(order, b, pos)) == b.subrange(pos, pos + 2),
{
    lemma_u16_wire_of(order, b.subrange(pos, pos + 2));
}

pub proof fn lemma_u16_of_wire(order: ByteOrder, v: u16)
    ensures
        u16_of(order, u16_wire(order, v)) == v,
        u16_wire(order, v).len() == 2,
{
}

pub proof fn lemma_u32_wire_of(order: ByteOrder, b: Seq<u8>)
    requires
        b.len() == 4,
    ensures
        u32_wire(order, u32_of(order, b)) == b,
{
    let v = u32_of(order, b);
    let first = u16_of(order, b);
    let second = u16_of(order, b.subrange(2, 4));
    match order {
        ByteOrder::Big => {
            assert(v as int == first as int * 0x10000 + second as int);
            assert((v / 0x10000) as u16 == first);
            assert((v % 0x10000) as u16 == second);
        },
        ByteOrder::Little => {
            assert(v as int == second as int * 0x10000 + first as int);
            assert((v / 0x10000) as u16 == second);
            assert((v % 0x10000) as u16 == first);
        },
    }
    lemma_u16_wire_of(order, b.subrange(0, 2));
    lemma_u16_wire_of(order, b.subrange(2, 4));
    assert(b.subrange(0, 2) =~= b.subrange(0, 2));
    assert(u16_of(order, b) == u16_of(order, b.subrange(0, 2)));
    assert(u32_wire(order, v) =~= b);
}

pub proof fn lemma_u16s_wire_len(order: ByteOrder, vs: Seq<u16>)
    ensures
        u16s_wire(order, vs).len() == 2 * vs.len(),
    decreases vs.len(),
{
    if vs.len() > 0 {
        lemma_u16s_wire_len(order, vs.drop_last());
    }
}

/// Reading a run of integers back from its wire form gives the run.
pub proof fn lemma_u16s_wire_of(order: ByteOrder, b: Seq<u8>)
    requires
        b.len() % 2 == 0,
    ensures
        u16s_wire(order, u16s_of(order, b)) == b,
    decreases b.len(),
{
    if b.len() > 0 {
        let n = b.len() as int;
        let front = b.subrange(0, n - 2);
        lemma_u16s_wire_of(order, front);
        assert(u16s_of(order, b).drop_last() =~= u16s_of(order, front));
        lemma_u16_wire_of(order, b.subrange(n - 2, n));
        assert(u16s_wire(order, u16s_of(order, b)) =~= b);
    } else {
        assert(u16s_wire(order, u16s_of(order, b)) =~= b);
    }
}

/// Reads the 16-bit integer at `pos`, or fails when fewer than two bytes are left there.
pub fn read_u16(order: ByteOrder, buf: &[u8], pos: usize) -> (r: Result<u16, CodecError>)
    ensures
        pos + 2 <= buf@.len() ==> r == Ok::<u16, CodecError>(u16_at(order, buf@, pos as int)),
        pos + 2 > buf@.len() ==> r == Err::<u16, CodecError>(CodecError::TruncatedInput),
{
    if pos > buf.len() || buf.len() - pos < 2 {
        Err(CodecError::TruncatedInput)
    } else {
        Ok(get_u16(order, buf, pos))
    }
}

/// Reads the 32-bit integer at `pos`, or fails when fewer than four bytes are left there.
pub fn read_u32(order: ByteOrder, buf: &[u8], pos: usize) -> (r: Result<u32, CodecError>)
    ensures
        pos + 4 <= buf@.len() ==> r == Ok::<u32, CodecError>(
            u32_of(order, buf@.subrange(pos as int, pos + 4)),
        ),
        pos + 4 > buf@.len() ==> r == Err::<u32, CodecError>(CodecError::TruncatedInput),
{
    if pos > buf.len() || buf.len() - pos < 4 {
        Err(CodecError::TruncatedInput)
    } else {
        Ok(get_u32(order, buf, pos))
    }
}

/// Reads the 16-bit integer at `pos`, which the caller knows to be there.
pub(crate) fn get_u16(order: ByteOrder, buf: &[u8], pos: usize) -> (r: u16)
    requires
        pos + 2 <= buf@.len(),
    ensures
        r == u16_at(order, buf@, pos as int),
{
    let a = buf[pos] as u16;
    let b = buf[pos + 1] as u16;
    match order {
        ByteOrder::Big => a * 256 + b,
        ByteOrder::Little => b * 256 + a,
    }
}

/// Reads the 32-bit integer at `pos`, which the caller knows to be there.
pub(crate) fn get_u32(order: ByteOrder, buf: &[u8], pos: usize) -> (r: u32)
    requires
        pos + 4 <= buf@.len(),
    ensures
        r == u32_of(order, buf@.subrange(pos as int, pos + 4)),
{
    assert(buf@.len() == buf.len());
    let first = get_u16(order, buf, pos) as u32;
    let second = get_u16(order, buf, pos + 2) as u32;
    assert(buf@.subrange(pos as int, pos + 4).subrange(0, 2) =~= buf@.subrange(pos as int, pos + 2));
    assert(buf@.subrange(pos as int, pos + 4).subrange(2, 4) =~= buf@.subrange(pos + 2, pos + 4));
    match order {
        ByteOrder::Big => first * 0x10000 + second,
        ByteOrder::Little => second * 0x10000 + first,
    }
}

/// Reads `b` as a run of 16-bit integers.
pub fn read_u16s(order: ByteOrder, b: &[u8]) -> (r: Vec<u16>)
    requires
        b@.len() % 2 == 0,
    ensures
        r@ == u16s_of(order, b@),
{
    let mut r: Vec<u16> = Vec::new();
    let mut i: usize = 0;
    while i < b.len() / 2
        invariant
            b@.len() % 2 == 0,
            i <= b@.len() / 2,
            r@ == u16s_of(order, b@).take(i as int),
        decreases b@.len() / 2 - i,
    {
        let u = get_u16(order, b, 2 * i);
        r.push(u);
        assert(r@ =~= u16s_of(order, b@).take(i + 1));
        i = i + 1;
    }
    assert(r@ =~= u16s_of(order, b@));
    r
}

/// Appends the two bytes of `v`.
pub fn write_u16(order: ByteOrder, v: u16, out: &mut Vec<u8>)
    ensures
        final(out)@ == old(out)@ + u16_wire(order, v),
{
    let hi = (v / 256) as u8;
    let lo = (v % 256) as u8;
    match order {
        ByteOrder::Big => {
            out.push(hi);
            out.push(lo);
        },
        ByteOrder::Little => {
            out.push(lo);
            out.push(hi);
        },
    }
    assert(final(out)@ =~= old(out)@ + u16_wire(order, v));
}

/// Appends the four bytes of `v`.
pub fn write_u32(order: ByteOrder, v: u32, out: &mut Vec<u8>)
    ensures
        final(out)@ == old(out)@ + u32_wire(order, v),
{
    let hi = (v / 0x10000) as u16;
    let lo = (v % 0x10000) as u16;
    match order {
        ByteOrder::Big => {
            write_u16(order, hi, out);
            write_u16(order, lo, out);
        },
        ByteOrder::Little => {
            write_u16(order, lo, out);
            write_u16(order, hi, out);
        },
    }
    assert(final(out)@ =~= old(out)@ + u32_wire(order, v));
}

/// Appends the wire form of each integer of `vs`.
pub fn write_u16s(order: ByteOrder, vs: &Vec<u16>, out: &mut Vec<u8>)
    ensures
        final(out)@ == old(out)@ + u16s_wire(order, vs@),
{
    let ghost start = out@;
    let mut i: usize = 0;
    while i < vs.len()
        invariant
            i <= vs@.len(),
            out@ == start + u16s_wire(order, vs@.take(i as int)),
        decreases vs@.len() - i,
    {
        write_u16(order, vs[i], out);
        assert(vs@.take(i + 1).drop_last() =~= vs@.take(i as int));
        i = i + 1;
    }
    assert(vs@.take(vs@.len() as int) =~= vs@);
}

/// Appends the bytes of `bs` as they stand.
pub fn write_bytes(bs: &[u8], out: &mut Vec<u8>)
    ensures
        final(out)@ == old(out)@ + bs@,
{
    let ghost start = out@;
    let mut i: usize = 0;
    while i < bs.len()
        invariant
            i <= bs@.len(),
            out@ == start + bs@.take(i as int),
        decreases bs@.len() - i,
    {
        out.push(bs[i]);
        assert(bs@.take(i + 1) =~= bs@.take(i as int).push(bs@[i as int]));
        i = i + 1;
    }
    assert(bs@.take(bs@.len() as int) =~= bs@);
}

/// A run of bytes preceded by its 16-bit length.
pub open spec fn lp_bytes_wire(order: ByteOrder, b: Seq<u8>) -> Seq<u8> {
    u16_wire(order, b.len() as u16) + b
}

/// True when the length of `b` fits its 16-bit prefix.
pub open spec fn lp_bytes_fits(b: Seq<u8>) -> bool {
    b.len() <= 0xFFFF
}

/// How many bytes a length-prefixed run takes at the start of `buf`, or why it cannot be read.
pub open spec fn lp_bytes_extent(order: ByteOrder, buf: Seq<u8>) -> Result<nat, CodecError> {
    if buf.len() < 2 {
        Err(CodecError::TruncatedInput)
    } else if buf.len() < 2 + u16_at(order, buf, 0) {
        Err(CodecError::TruncatedInput)
    } else {
        Ok((2 + u16_at(order, buf, 0)) as nat)
    }
}

/// Cutting bytes off the end of `buf`, after the run, does not change how it reads.
pub proof fn lemma_lp_bytes_prefix(order: ByteOrder, buf: Seq<u8>)
    requires
        lp_bytes_extent(order, buf) is Ok,
        lp_bytes_extent(order, buf)->Ok_0 < buf.len(),
    ensures
        lp_bytes_extent(order, buf.drop_last()) == lp_bytes_extent(order, buf),
{
    assert(buf.drop_last().subrange(0, 2) =~= buf.subrange(0, 2));
}

/// Reads a run of bytes preceded by its 16-bit length.
pub fn parse_lp_bytes(order: ByteOrder, buf: &[u8]) -> (r: Result<(usize, Vec<u8>), CodecError>)
    ensures
        match r {
            Ok((n, b)) => lp_bytes_extent(order, buf@) == Ok::<nat, CodecError>(n as nat) && n
                <= buf@.len() && lp_bytes_fits(b@) && lp_bytes_wire(order, b@) == buf@.take(n as int),
            Err(e) => lp_bytes_extent(order, buf@) == Err::<nat, CodecError>(e),
        },
{
    if buf.len() < 2 {
        return Err(CodecError::TruncatedInput);
    }
    let len = get_u16(order, buf, 0) as usize;
    if buf.len() - 2 < len {
        return Err(CodecError::TruncatedInput);
    }
    let b = copy_bytes(buf, 2, 2 + len);
    proof {
        lemma_u16_at_wire(order, buf@, 0);
        assert(lp_bytes_wire(order, b@) =~= buf@.take(2 + len));
    }
    Ok((2 + len, b))
}

/// Appends `b` preceded by its 16-bit length, or fails, leaving `out` as it was, when it is too long.
pub fn write_lp_bytes(order: ByteOrder, b: &[u8], out: &mut Vec<u8>) -> (r: Result<(), CodecError>)
    ensures
        r is Ok <==> lp_bytes_fits(b@),
        r is Ok ==> final(out)@ == old(out)@ + lp_bytes_wire(order, b@),
        r is Err ==> r == Err::<(), CodecError>(CodecError::FieldTooLong) && final(out)@ == old(out)@,
{
    if b.len() > 0xFFFF {
        return Err(CodecError::FieldTooLong);
    }
    write_u16(order, b.len() as u16, out);
    write_bytes(b, out);
    assert(final(out)@ =~= old(out)@ + lp_bytes_wire(order, b@));
    Ok(())
}

/// Reads the two raw bytes at `pos`.
pub fn read_pair(buf: &[u8], pos: usize) -> (r: [u8; 2])
    requires
        pos + 2 <= buf@.len(),
    ensures
        r@ == buf@.subrange(pos as int, pos + 2),
{
    let r = [buf[pos], buf[pos + 1]];
    assert(r@ =~= buf@.subrange(pos as int, pos + 2));
    r
}

/// Appends two raw bytes.
pub fn write_pair(p: &[u8; 2], out: &mut Vec<u8>)
    ensures
        final(out)@ == old(out)@ + p@,
{
    out.push(p[0]);
    out.push(p[1]);
    assert(final(out)@ =~= old(out)@ + p@);
}

/// Copies the bytes of `buf` from `start` up to `end`.
pub fn copy_bytes(buf: &[u8], start: usize, end: usize) -> (r: Vec<u8>)
    requires
        start <= end <= buf@.len(),
    ensures
        r@ == buf@.subrange(start as int, end as int),
{
    let mut r: Vec<u8> = Vec::new();
    let mut i: usize = start;
    while i < end
        invariant
            start <= i <= end <= buf@.len(),
            r@ == buf@.subrange(start as int, i as int),
        decreases end - i,
    {
        r.push(buf[i]);
        assert(buf@.subrange(start as int, i + 1) =~= buf@.subrange(start as int, i as int).push(
            buf@[i as int],
        ));
        i = i + 1;
    }
    r
}

} // verus!
