use vstd::prelude::*;
use vstd::slice::slice_subrange;

use crate::error::CodecError;
use crate::scalar::{
    copy_bytes, lemma_u16_at_wire, lemma_u16s_wire_len, lemma_u16s_wire_of, get_u16, read_u16s,
    u16_at, u16_wire, u16s_of, u16s_wire, write_u16, write_u16s, ByteOrder,
};
use crate::text::Context;

verus! {

/// The four bytes of one block of the sentinel run.
pub open spec fn sentinel_block() -> Seq<u8> {
    seq![255u8, 255u8, 0u8, 0u8]
}

/// How many 4-byte strides at the start of `p` equal the sentinel block, counting
/// from the first stride and stopping for good at the first that does not.
pub open spec fn sentinel_run(p: Seq<u8>) -> nat
    decreases p.len(),
{
    if p.len() >= 4 && p.take(4) == sentinel_block() {
        1 + sentinel_run(p.skip(4))
    } else {
        0
    }
}

/// The bytes of a run of 4-byte blocks.
pub open spec fn blocks_wire(bs: Seq<[u8; 4]>) -> Seq<u8>
    decreases bs.len(),
{
    if bs.len() == 0 {
        Seq::empty()
    } else {
        blocks_wire(bs.drop_last()) + bs.last()@
    }
}

/// Subtype 8 of main type 1: a run of sentinel blocks whose count is not stored,
/// a run of integers, and a 4-byte tail, all behind one 16-bit length.
#[derive(Debug)]
pub struct Control1_8 {
    pub unknown_1: Vec<[u8; 4]>,
    pub field_1: Vec<u16>,
    pub field_2: [u8; 4],
}

/// Reads the sentinel blocks at the start of `p`: one for each stride of the run.
fn sentinel_blocks(p: &[u8]) -> (r: Vec<[u8; 4]>)
    ensures
        r@.len() == sentinel_run(p@),
        4 * r@.len() <= p@.len(),
        blocks_wire(r@) == p@.take(4 * r@.len() as int),
        forall|i: int| 0 <= i < r@.len() ==> #[trigger] r@[i]@ == sentinel_block(),
        !(p@.skip(4 * r@.len() as int).len() >= 4 && p@.skip(4 * r@.len() as int).take(4)
            == sentinel_block()),
{
    let mut r: Vec<[u8; 4]> = Vec::new();
    let mut pos: usize = 0;
    assert(p@.skip(0) =~= p@);
    assert(p@.take(0) =~= Seq::<u8>::empty());
    while p.len() - pos >= 4 && p[pos] == 255 && p[pos + 1] == 255 && p[pos + 2] == 0 && p[pos
        + 3] == 0
        invariant
            pos == 4 * r@.len(),
            pos <= p@.len(),
            sentinel_run(p@) == r@.len() + sentinel_run(p@.skip(pos as int)),
            blocks_wire(r@) == p@.take(pos as int),
            forall|i: int| 0 <= i < r@.len() ==> #[trigger] r@[i]@ == sentinel_block(),
        decreases p@.len() - pos,
    {
        let block: [u8; 4] = [255, 255, 0, 0];
        assert(block@ =~= sentinel_block());
        proof {
            let q = p@.skip(pos as int);
            assert(q.take(4) =~= sentinel_block());
            assert(q.skip(4) =~= p@.skip(pos + 4));
        }
        let ghost old_r = r@;
        r.push(block);
        assert(r@.drop_last() =~= old_r);
        assert(p@.take(pos + 4) =~= p@.take(pos as int) + block@);
        pos = pos + 4;
    }
    proof {
        let q = p@.skip(pos as int);
        if q.len() >= 4 && q.take(4) == sentinel_block() {
            assert(q.take(4)[0] == 255 && q.take(4)[1] == 255);
            assert(q.take(4)[2] == 0 && q.take(4)[3] == 0);
            assert(q[0] == p@[pos as int] && q[1] == p@[pos + 1]);
            assert(q[2] == p@[pos + 2] && q[3] == p@[pos + 3]);
        }
    }
    r
}

/// Integers read from bytes that do not begin with a sentinel block do not begin
/// with the two integers of one.
proof fn lemma_no_leading_block(order: ByteOrder, q: Seq<u8>)
    requires
        q.len() % 2 == 0,
        !(q.len() >= 4 && q.take(4) == sentinel_block()),
    ensures
        !(u16s_of(order, q).len() >= 2 && u16s_of(order, q)[0] == 0xFFFF && u16s_of(order, q)[1]
            == 0),
{
    let vs = u16s_of(order, q);
    if vs.len() >= 2 && vs[0] == 0xFFFF && vs[1] == 0 {
        lemma_u16_at_wire(order, q, 0);
        lemma_u16_at_wire(order, q, 2);
        assert(q.take(4) =~= q.subrange(0, 2) + q.subrange(2, 4));
        assert(q.take(4) =~= sentinel_block());
    }
}

impl Control1_8 {
    /// The value of the length field: every byte of the record after it.
    pub open spec fn spec_len(self) -> int {
        (4 * self.unknown_1@.len() + 2 * self.field_1@.len() + 4) as int
    }

    /// The bytes of the record on the wire.
    pub open spec fn wire(self, ctx: Context) -> Seq<u8> {
        u16_wire(ctx.order, self.spec_len() as u16) + blocks_wire(self.unknown_1@) + u16s_wire(
            ctx.order,
            self.field_1@,
        ) + self.field_2@
    }

    /// The length field can hold the record's length.
    pub open spec fn wf(self, ctx: Context) -> bool {
        self.spec_len() <= 0xFFFF
    }

    /// The record is the one that reading its own bytes gives: every block is the
    /// sentinel block, and the integers do not begin with one more of it.
    pub open spec fn canonical(self, ctx: Context) -> bool {
        &&& forall|i: int| 0 <= i < self.unknown_1@.len() ==> #[trigger] self.unknown_1@[i]@ == sentinel_block()
        &&& !(self.field_1@.len() >= 2 && self.field_1@[0] == 0xFFFF && self.field_1@[1] == 0)
    }

    /// How many bytes the record takes at the start of `buf`, or why it cannot be read.
    pub open spec fn extent(ctx: Context, buf: Seq<u8>) -> Result<nat, CodecError> {
        if buf.len() < 2 {
            Err(CodecError::TruncatedInput)
        } else {
            let len = u16_at(ctx.order, buf, 0);
            if len < 4 || len % 2 == 1 {
                Err(CodecError::InconsistentLength)
            } else if buf.len() < 2 + len {
                Err(CodecError::TruncatedInput)
            } else {
                Ok((2 + len) as nat)
            }
        }
    }

    /// Cutting bytes off the end of `buf`, after the record, does not change how it reads.
    pub proof fn lemma_extent_prefix(ctx: Context, buf: Seq<u8>)
        requires
            Self::extent(ctx, buf) is Ok,
            Self::extent(ctx, buf)->Ok_0 < buf.len(),
        ensures
            Self::extent(ctx, buf.drop_last()) == Self::extent(ctx, buf),
    {
        assert(buf.drop_last().subrange(0, 2) =~= buf.subrange(0, 2));
    }

    /// Reads the record at the start of `buf`.
    #[verifier::spinoff_prover]
    #[verifier::rlimit(90)]
    pub fn parse(ctx: Context, buf: &[u8]) -> (r: Result<(usize, Self), CodecError>)
        ensures
            match r {
                Ok((n, c)) => Self::extent(ctx, buf@) == Ok::<nat, CodecError>(n as nat) && n
                    <= buf@.len() && c.wire(ctx) == buf@.take(n as int) && c.wf(ctx) && c.canonical(ctx),
                Err(e) => Self::extent(ctx, buf@) == Err::<nat, CodecError>(e),
            },
    {
        if buf.len() < 2 {
            return Err(CodecError::TruncatedInput);
        }
        let len = get_u16(ctx.order, buf, 0) as usize;
        if len < 4 || len % 2 == 1 {
            return Err(CodecError::InconsistentLength);
        }
        if buf.len() - 2 < len {
            return Err(CodecError::TruncatedInput);
        }
        let plen = len - 4;
        let payload = copy_bytes(buf, 2, 2 + plen);
        let ghost p = payload@;
        let unknown_1 = sentinel_blocks(payload.as_slice());
        let k = unknown_1.len();
        let field_1 = read_u16s(ctx.order, slice_subrange(payload.as_slice(), 4 * k, plen));
        let t = 2 + plen;
        let field_2: [u8; 4] = [buf[t], buf[t + 1], buf[t + 2], buf[t + 3]];
        let c = Control1_8 { unknown_1, field_1, field_2 };
        proof {
            let q = p.subrange(4 * k, plen as int);
            lemma_u16s_wire_of(ctx.order, q);
            lemma_u16s_wire_len(ctx.order, field_1@);
            assert(c.spec_len() == len);
            lemma_u16_at_wire(ctx.order, buf@, 0);
            assert(u16_wire(ctx.order, c.spec_len() as u16) == buf@.subrange(0, 2));
            assert(blocks_wire(c.unknown_1@) == buf@.subrange(2, 2 + 4 * k));
            assert(u16s_wire(ctx.order, c.field_1@) == buf@.subrange(2 + 4 * k, t as int));
            assert(field_2@ =~= buf@.subrange(t as int, t + 4));
            assert(c.wire(ctx) =~= buf@.take(2 + len));
            assert(p.skip(4 * k) =~= q);
            lemma_no_leading_block(ctx.order, q);
        }
        Ok((2 + len, c))
    }

    /// Appends the record's bytes, or fails, leaving `out` as it was, when the
    /// length does not fit its field.
    pub fn write(&self, ctx: Context, out: &mut Vec<u8>) -> (r: Result<(), CodecError>)
        ensures
            r is Ok <==> self.wf(ctx),
            r is Ok ==> final(out)@ == old(out)@ + self.wire(ctx),
            r is Err ==> r == Err::<(), CodecError>(CodecError::FieldTooLong) && final(out)@
                == old(out)@,
    {
        if self.unknown_1.len() > 0x4000 || self.field_1.len() > 0x8000 {
            return Err(CodecError::FieldTooLong);
        }
        let len = 4 * self.unknown_1.len() + 2 * self.field_1.len() + 4;
        if len > 0xFFFF {
            return Err(CodecError::FieldTooLong);
        }
        let ghost start = out@;
        write_u16(ctx.order, len as u16, out);
        let ghost head = out@;
        let mut i: usize = 0;
        while i < self.unknown_1.len()
            invariant
                i <= self.unknown_1@.len(),
                out@ == head + blocks_wire(self.unknown_1@.take(i as int)),
            decreases self.unknown_1@.len() - i,
        {
            let b = self.unknown_1[i];
            out.push(b[0]);
            out.push(b[1]);
            out.push(b[2]);
            out.push(b[3]);
            assert(self.unknown_1@.take(i + 1).drop_last() =~= self.unknown_1@.take(i as int));
            assert(out@ =~= head + blocks_wire(self.unknown_1@.take(i + 1)));
            i = i + 1;
        }
        assert(self.unknown_1@.take(i as int) =~= self.unknown_1@);
        write_u16s(ctx.order, &self.field_1, out);
        out.push(self.field_2[0]);
        out.push(self.field_2[1]);
        out.push(self.field_2[2]);
        out.push(self.field_2[3]);
        assert(out@ =~= start + self.wire(ctx));
        Ok(())
    }
}

} // verus!
