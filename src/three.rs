use vstd::prelude::*;
use vstd::slice::slice_subrange;

use crate::error::CodecError;
use crate::scalar::{
    lemma_lp_bytes_prefix, lemma_u16_at_wire, lp_bytes_extent, lp_bytes_fits, lp_bytes_wire, parse_lp_bytes, get_u16, u16_wire, write_lp_bytes, write_u16,
};
use crate::text::Context;

verus! {

/// Main type 3: an integer and a length-prefixed run of bytes.
#[derive(Debug)]
pub struct Control3 {
    pub field_1: u16,
    pub field_2: Vec<u8>,
}

impl Control3 {
    /// The bytes of the record on the wire.
    pub open spec fn wire(self, ctx: Context) -> Seq<u8> {
        u16_wire(ctx.order, self.field_1) + lp_bytes_wire(ctx.order, self.field_2@)
    }

    /// Every length of the record fits its 16-bit prefix.
    pub open spec fn wf(self, ctx: Context) -> bool {
        lp_bytes_fits(self.field_2@)
    }

    /// How many bytes the record takes at the start of `buf`, or why it cannot be read.
    pub open spec fn extent(ctx: Context, buf: Seq<u8>) -> Result<nat, CodecError> {
        if buf.len() < 2 {
            Err(CodecError::TruncatedInput)
        } else {
            match lp_bytes_extent(ctx.order, buf.skip(2)) {
                Err(e) => Err(e),
                Ok(k_field_2) => {
                    Ok((2 + k_field_2) as nat)
                },
            }
        }
    }

    /// Reads the record at the start of `buf`.
    pub fn parse(ctx: Context, buf: &[u8]) -> (r: Result<(usize, Self), CodecError>)
        ensures
            match r {
                Ok((n, c)) => Self::extent(ctx, buf@) == Ok::<nat, CodecError>(n as nat) && n <= buf@.len()
                    && c.wire(ctx) == buf@.take(n as int) && c.wf(ctx),
                Err(e) => Self::extent(ctx, buf@) == Err::<nat, CodecError>(e),
            },
    {
        let mut pos: usize = 0;
        if buf.len() - pos < 2 {
            return Err(CodecError::TruncatedInput);
        }
        let ghost at_field_1 = pos;
        let field_1 = get_u16(ctx.order, buf, pos);
        pos = pos + 2;
        let ghost at_field_2 = pos;
        let (field_2_len, field_2) = match parse_lp_bytes(ctx.order, slice_subrange(buf, pos, buf.len())) {
            Ok(x) => x,
            Err(e) => {
                return Err(e);
            },
        };
        pos = pos + field_2_len;
        let c = Control3 { field_1, field_2 };
        proof {
            lemma_u16_at_wire(ctx.order, buf@, at_field_1 as int);
            assert(c.wire(ctx) =~= buf@.take(pos as int));
        }
        Ok((pos, c))
    }

    /// Appends the record's bytes, or fails when a length does not fit its prefix.
    pub fn write(&self, ctx: Context, out: &mut Vec<u8>) -> (r: Result<(), CodecError>)
        ensures
            r is Ok <==> self.wf(ctx),
            r is Ok ==> final(out)@ == old(out)@ + self.wire(ctx),
            r is Err ==> r == Err::<(), CodecError>(CodecError::FieldTooLong),
            old(out)@.is_prefix_of(final(out)@),
    {
        let ghost start = out@;
        write_u16(ctx.order, self.field_1, out);
        if write_lp_bytes(ctx.order, self.field_2.as_slice(), out).is_err() {
            assert(out@.subrange(0, start.len() as int) =~= start);
            return Err(CodecError::FieldTooLong);
        }
        assert(out@ =~= start + self.wire(ctx));
        assert(out@.subrange(0, start.len() as int) =~= start);
        Ok(())
    }

    /// Cutting bytes off the end of `buf`, after the record, does not change how it reads.
    pub proof fn lemma_extent_prefix(ctx: Context, buf: Seq<u8>)
        requires
            Self::extent(ctx, buf) is Ok,
            Self::extent(ctx, buf)->Ok_0 < buf.len(),
        ensures
            Self::extent(ctx, buf.drop_last()) == Self::extent(ctx, buf),
    {
        let rest = buf.skip(2);
        assert(buf.drop_last().skip(2) =~= rest.drop_last());
        assert(buf.drop_last().subrange(0, 2) =~= buf.subrange(0, 2));
        lemma_lp_bytes_prefix(ctx.order, rest);
    }

    /// The main type marker, 3.
    pub fn marker(&self) -> (r: u16)
        ensures
            r == 3,
    {
        3
    }
}

} // verus!
