use vstd::prelude::*;
use vstd::slice::slice_subrange;

use crate::error::{after_u16, CodecError};
use crate::scalar::{lemma_u16_at_wire, get_u16, u16_at, u16_wire, write_u16};
use crate::text::Context;

verus! {

/// Main type 5: two integers.
#[derive(Clone, Copy, Debug, PartialEq, Eq, Structural)]
pub struct Control5 {
    pub field_1: u16,
    pub field_2: u16,
}

impl Control5 {
    /// The bytes of the record on the wire.
    pub open spec fn wire(self, ctx: Context) -> Seq<u8> {
        u16_wire(ctx.order, self.field_1) + u16_wire(ctx.order, self.field_2)
    }

    /// How many bytes the record takes at the start of `buf`, or why it cannot be read.
    pub open spec fn extent(ctx: Context, buf: Seq<u8>) -> Result<nat, CodecError> {
        if buf.len() >= 4 {
            Ok(4)
        } else {
            Err(CodecError::TruncatedInput)
        }
    }

    /// Reads the record at the start of `buf`.
    pub fn parse(ctx: Context, buf: &[u8]) -> (r: Result<(usize, Self), CodecError>)
        ensures
            match r {
                Ok((n, c)) => Self::extent(ctx, buf@) == Ok::<nat, CodecError>(n as nat) && n <= buf@.len()
                    && c.wire(ctx) == buf@.take(n as int),
                Err(e) => Self::extent(ctx, buf@) == Err::<nat, CodecError>(e),
            },
    {
        if buf.len() < 4 {
            return Err(CodecError::TruncatedInput);
        }
        let field_1 = get_u16(ctx.order, buf, 0);
        let field_2 = get_u16(ctx.order, buf, 2);
        let c = Control5 { field_1, field_2 };
        proof {
            lemma_u16_at_wire(ctx.order, buf@, 0);
            lemma_u16_at_wire(ctx.order, buf@, 2);
            assert(c.wire(ctx) =~= buf@.take(4));
        }
        Ok((4, c))
    }

    /// Appends the record's bytes.
    pub fn write(&self, ctx: Context, out: &mut Vec<u8>)
        ensures
            final(out)@ == old(out)@ + self.wire(ctx),
    {
        write_u16(ctx.order, self.field_1, out);
        write_u16(ctx.order, self.field_2, out);
        assert(final(out)@ =~= old(out)@ + self.wire(ctx));
    }

    /// Cutting bytes off the end of `buf`, after the record, does not change how it reads.
    pub proof fn lemma_extent_prefix(ctx: Context, buf: Seq<u8>)
        requires
            Self::extent(ctx, buf) is Ok,
            Self::extent(ctx, buf)->Ok_0 < buf.len(),
        ensures
            Self::extent(ctx, buf.drop_last()) == Self::extent(ctx, buf),
    {
    }

    /// The main type marker, 5.
    pub fn marker(&self) -> (r: u16)
        ensures
            r == 5,
    {
        5
    }
}

} // verus!
