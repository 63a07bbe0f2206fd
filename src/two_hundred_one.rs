use vstd::prelude::*;
use vstd::slice::slice_subrange;

use crate::error::CodecError;
use crate::scalar::{lemma_u16_at_wire, get_u16, u16_wire, write_u16};
use crate::text::{lemma_lp_text_prefix, lp_text_extent, lp_text_fits, lp_text_wire, parse_lp_text, write_lp_text, Context};

verus! {

/// Main type 201: six integers and a text.
#[derive(Debug)]
pub struct Control201 {
    pub field_1: u16,
    pub field_2: u16,
    pub field_3: u16,
    pub field_4: u16,
    pub field_5: u16,
    pub field_6: u16,
    pub field_7: String,
}

impl Control201 {
    /// The bytes of the record on the wire.
    pub open spec fn wire(self, ctx: Context) -> Seq<u8> {
        u16_wire(ctx.order, self.field_1) + u16_wire(ctx.order, self.field_2) + u16_wire(ctx.order, self.field_3) + u16_wire(ctx.order, self.field_4) + u16_wire(ctx.order, self.field_5) + u16_wire(ctx.order, self.field_6) + lp_text_wire(ctx, self.field_7@)
    }

    /// Every length of the record fits its 16-bit prefix.
    pub open spec fn wf(self, ctx: Context) -> bool {
        lp_text_fits(ctx, self.field_7@)
    }

    /// How many bytes the record takes at the start of `buf`, or why it cannot be read.
    pub open spec fn extent(ctx: Context, buf: Seq<u8>) -> Result<nat, CodecError> {
        if buf.len() < 12 {
            Err(CodecError::TruncatedInput)
        } else {
            match lp_text_extent(ctx, buf.skip(12)) {
                Err(e) => Err(e),
                Ok(k_field_7) => {
                    Ok((12 + k_field_7) as nat)
                },
            }
        }
    }

    /// Reads the record at the start of `buf`.
    pub fn parse(ctx: Context, buf: &[u8]) -> (r: Result<(usize, Self), CodecError>)
        ensures
            match r {
                Ok((n, c)) => Self::extent(ctx, buf@) == Ok::<nat, CodecError>(n as nat) && n <= buf@.len()
                    && c.wire(ctx) == buf@.take(n as int) && c.wf(ctx),
                Err(e) => Self::extent(ctx, buf@) == Err::<nat, CodecError>(e),
            },
    {
        let mut pos: usize = 0;
        if buf.len() - pos < 2 {
            return Err(CodecError::TruncatedInput);
        }
        let ghost at_field_1 = pos;
        let field_1 = get_u16(ctx.order, buf, pos);
        pos = pos + 2;
        if buf.len() - pos < 2 {
            return Err(CodecError::TruncatedInput);
        }
        let ghost at_field_2 = pos;
        let field_2 = get_u16(ctx.order, buf, pos);
        pos = pos + 2;
        if buf.len() - pos < 2 {
            return Err(CodecError::TruncatedInput);
        }
        let ghost at_field_3 = pos;
        let field_3 = get_u16(ctx.order, buf, pos);
        pos = pos + 2;
        if buf.len() - pos < 2 {
            return Err(CodecError::TruncatedInput);
        }
        let ghost at_field_4 = pos;
        let field_4 = get_u16(ctx.order, buf, pos);
        pos = pos + 2;
        if buf.len() - pos < 2 {
            return Err(CodecError::TruncatedInput);
        }
        let ghost at_field_5 = pos;
        let field_5 = get_u16(ctx.order, buf, pos);
        pos = pos + 2;
        if buf.len() - pos < 2 {
            return Err(CodecError::TruncatedInput);
        }
        let ghost at_field_6 = pos;
        let field_6 = get_u16(ctx.order, buf, pos);
        pos = pos + 2;
        let ghost at_field_7 = pos;
        let (field_7_len, field_7) = match parse_lp_text(ctx, slice_subrange(buf, pos, buf.len())) {
            Ok(x) => x,
            Err(e) => {
                return Err(e);
            },
        };
        pos = pos + field_7_len;
        let c = Control201 { field_1, field_2, field_3, field_4, field_5, field_6, field_7 };
        proof {
            lemma_u16_at_wire(ctx.order, buf@, at_field_1 as int);
            lemma_u16_at_wire(ctx.order, buf@, at_field_2 as int);
            lemma_u16_at_wire(ctx.order, buf@, at_field_3 as int);
            lemma_u16_at_wire(ctx.order, buf@, at_field_4 as int);
            lemma_u16_at_wire(ctx.order, buf@, at_field_5 as int);
            lemma_u16_at_wire(ctx.order, buf@, at_field_6 as int);
            assert(c.wire(ctx) =~= buf@.take(pos as int));
        }
        Ok((pos, c))
    }

    /// Appends the record's bytes, or fails when a length does not fit its prefix.
    pub fn write(&self, ctx: Context, out: &mut Vec<u8>) -> (r: Result<(), CodecError>)
        ensures
            r is Ok <==> self.wf(ctx),
            r is Ok ==> final(out)@ == old(out)@ + self.wire(ctx),
            r is Err ==> r == Err::<(), CodecError>(CodecError::FieldTooLong),
            old(out)@.is_prefix_of(final(out)@),
    {
        let ghost start = out@;
        write_u16(ctx.order, self.field_1, out);
        write_u16(ctx.order, self.field_2, out);
        write_u16(ctx.order, self.field_3, out);
        write_u16(ctx.order, self.field_4, out);
        write_u16(ctx.order, self.field_5, out);
        write_u16(ctx.order, self.field_6, out);
        if write_lp_text(ctx, self.field_7.as_str(), out).is_err() {
            assert(out@.subrange(0, start.len() as int) =~= start);
            return Err(CodecError::FieldTooLong);
        }
        assert(out@ =~= start + self.wire(ctx));
        assert(out@.subrange(0, start.len() as int) =~= start);
        Ok(())
    }

    /// Cutting bytes off the end of `buf`, after the record, does not change how it reads.
    pub proof fn lemma_extent_prefix(ctx: Context, buf: Seq<u8>)
        requires
            Self::extent(ctx, buf) is Ok,
            Self::extent(ctx, buf)->Ok_0 < buf.len(),
        ensures
            Self::extent(ctx, buf.drop_last()) == Self::extent(ctx, buf),
    {
        let rest = buf.skip(12);
        assert(buf.drop_last().skip(12) =~= rest.drop_last());
        assert(buf.drop_last().subrange(0, 12) =~= buf.subrange(0, 12));
        lemma_lp_text_prefix(ctx, rest);
    }

    /// The main type marker, 201.
    pub fn marker(&self) -> (r: u16)
        ensures
            r == 201,
    {
        201
    }
}

} // verus!
