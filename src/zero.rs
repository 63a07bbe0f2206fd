use vstd::prelude::*;
use vstd::slice::slice_subrange;

use crate::error::{after_u16, CodecError};
use crate::scalar::{lemma_u16_at_wire, get_u16, u16_at, u16_wire, write_u16};
use crate::text::Context;

verus! {

/// Main type 0: one of five subtype records.
#[derive(Clone, Copy, Debug, PartialEq, Eq, Structural)]
pub enum Control0 {
    Type0(Control0_0),
    Type1(Control0_1),
    Type2(Control0_2),
    Type3(Control0_3),
    Type4(Control0_4),
}

impl Control0 {
    /// The subtype marker that stands before the record.
    pub open spec fn spec_subtype(self) -> u16 {
        match self {
            Control0::Type0(_) => 0,
            Control0::Type1(_) => 1,
            Control0::Type2(_) => 2,
            Control0::Type3(_) => 3,
            Control0::Type4(_) => 4,
        }
    }

    /// The main type marker, 0.
    pub fn marker(&self) -> (r: u16)
        ensures
            r == 0,
    {
        0
    }

    pub fn subtype_marker(&self) -> (r: u16)
        ensures
            r == self.spec_subtype(),
    {
        match self {
            Control0::Type0(_) => 0,
            Control0::Type1(_) => 1,
            Control0::Type2(_) => 2,
            Control0::Type3(_) => 3,
            Control0::Type4(_) => 4,
        }
    }

    /// The bytes of the record that follow the subtype marker.
    pub open spec fn body_wire(self, ctx: Context) -> Seq<u8> {
        match self {
            Control0::Type0(c) => c.wire(ctx),
            Control0::Type1(c) => c.wire(ctx),
            Control0::Type2(c) => c.wire(ctx),
            Control0::Type3(c) => c.wire(ctx),
            Control0::Type4(c) => c.wire(ctx),
        }
    }

    /// The subtype marker followed by the record's bytes.
    pub open spec fn wire(self, ctx: Context) -> Seq<u8> {
        u16_wire(ctx.order, self.spec_subtype()) + self.body_wire(ctx)
    }

    /// How many bytes the record of subtype `kind` takes at the start of `rest`, or why it cannot be read.
    pub open spec fn body_extent(ctx: Context, kind: u16, rest: Seq<u8>) -> Result<nat, CodecError> {
        match kind {
            0 => Control0_0::extent(ctx, rest),
            1 => Control0_1::extent(ctx, rest),
            2 => Control0_2::extent(ctx, rest),
            3 => Control0_3::extent(ctx, rest),
            4 => Control0_4::extent(ctx, rest),
            m => Err(CodecError::UnknownSubtype { main: 0, marker: m }),
        }
    }

    /// How many bytes the subtype marker and record take at the start of `buf`, or why they cannot be read.
    pub open spec fn extent(ctx: Context, buf: Seq<u8>) -> Result<nat, CodecError> {
        if buf.len() < 2 {
            Err(CodecError::TruncatedInput)
        } else {
            after_u16(Self::body_extent(ctx, u16_at(ctx.order, buf, 0), buf.skip(2)))
        }
    }

    fn parse_body(ctx: Context, kind: u16, rest: &[u8]) -> (r: Result<(usize, Self), CodecError>)
        ensures
            match r {
                Ok((n, c)) => Self::body_extent(ctx, kind, rest@) == Ok::<nat, CodecError>(n as nat) && n <= rest@.len()
                    && c.spec_subtype() == kind && c.body_wire(ctx) == rest@.take(n as int),
                Err(e) => Self::body_extent(ctx, kind, rest@) == Err::<nat, CodecError>(e),
            },
    {
        match kind {
            0 => match Control0_0::parse(ctx, rest) {
                Ok((n, c)) => Ok((n, Control0::Type0(c))),
                Err(e) => Err(e),
            },
            1 => match Control0_1::parse(ctx, rest) {
                Ok((n, c)) => Ok((n, Control0::Type1(c))),
                Err(e) => Err(e),
            },
            2 => match Control0_2::parse(ctx, rest) {
                Ok((n, c)) => Ok((n, Control0::Type2(c))),
                Err(e) => Err(e),
            },
            3 => match Control0_3::parse(ctx, rest) {
                Ok((n, c)) => Ok((n, Control0::Type3(c))),
                Err(e) => Err(e),
            },
            4 => match Control0_4::parse(ctx, rest) {
                Ok((n, c)) => Ok((n, Control0::Type4(c))),
                Err(e) => Err(e),
            },
            _ => Err(CodecError::UnknownSubtype { main: 0, marker: kind }),
        }
    }

    /// Reads the subtype marker and the record that follows it.
    pub fn parse(ctx: Context, buf: &[u8]) -> (r: Result<(usize, Self), CodecError>)
        ensures
            match r {
                Ok((n, c)) => Self::extent(ctx, buf@) == Ok::<nat, CodecError>(n as nat) && n <= buf@.len()
                    && c.wire(ctx) == buf@.take(n as int),
                Err(e) => Self::extent(ctx, buf@) == Err::<nat, CodecError>(e),
            },
    {
        if buf.len() < 2 {
            return Err(CodecError::TruncatedInput);
        }
        let kind = get_u16(ctx.order, buf, 0);
        match Self::parse_body(ctx, kind, slice_subrange(buf, 2, buf.len())) {
            Ok((n, c)) => {
                proof {
                    lemma_u16_at_wire(ctx.order, buf@, 0);
                    assert(c.wire(ctx) =~= buf@.take(n + 2));
                }
                Ok((n + 2, c))
            },
            Err(e) => Err(e),
        }
    }

    /// Appends the subtype marker and the record.
    pub fn write(&self, ctx: Context, out: &mut Vec<u8>)
        ensures
            final(out)@ == old(out)@ + self.wire(ctx),
    {
        write_u16(ctx.order, self.subtype_marker(), out);
        match self {
            Control0::Type0(c) => c.write(ctx, out),
            Control0::Type1(c) => c.write(ctx, out),
            Control0::Type2(c) => c.write(ctx, out),
            Control0::Type3(c) => c.write(ctx, out),
            Control0::Type4(c) => c.write(ctx, out),
        }
        assert(final(out)@ =~= old(out)@ + self.wire(ctx));
    }

    /// Cutting bytes off the end of `buf`, after the record, does not change how it reads.
    pub proof fn lemma_extent_prefix(ctx: Context, buf: Seq<u8>)
        requires
            Self::extent(ctx, buf) is Ok,
            Self::extent(ctx, buf)->Ok_0 < buf.len(),
        ensures
            Self::extent(ctx, buf.drop_last()) == Self::extent(ctx, buf),
    {
        let rest = buf.skip(2);
        assert(buf.drop_last().skip(2) =~= rest.drop_last());
        assert(buf.drop_last().subrange(0, 2) =~= buf.subrange(0, 2));
        match u16_at(ctx.order, buf, 0) {
            0 => Control0_0::lemma_extent_prefix(ctx, rest),
            1 => Control0_1::lemma_extent_prefix(ctx, rest),
            2 => Control0_2::lemma_extent_prefix(ctx, rest),
            3 => Control0_3::lemma_extent_prefix(ctx, rest),
            4 => Control0_4::lemma_extent_prefix(ctx, rest),
            _ => {},
        }
    }
}

/// Subtype 0 of main type 0: three integers.
#[derive(Clone, Copy, Debug, PartialEq, Eq, Structural)]
pub struct Control0_0 {
    pub field_1: u16,
    pub field_2: u16,
    pub field_3: u16,
}

impl Control0_0 {
    /// The bytes of the record on the wire.
    pub open spec fn wire(self, ctx: Context) -> Seq<u8> {
        u16_wire(ctx.order, self.field_1) + u16_wire(ctx.order, self.field_2) + u16_wire(ctx.order, self.field_3)
    }

    /// How many bytes the record takes at the start of `buf`, or why it cannot be read.
    pub open spec fn extent(ctx: Context, buf: Seq<u8>) -> Result<nat, CodecError> {
        if buf.len() >= 6 {
            Ok(6)
        } else {
            Err(CodecError::TruncatedInput)
        }
    }

    /// Reads the record at the start of `buf`.
    pub fn parse(ctx: Context, buf: &[u8]) -> (r: Result<(usize, Self), CodecError>)
        ensures
            match r {
                Ok((n, c)) => Self::extent(ctx, buf@) == Ok::<nat, CodecError>(n as nat) && n <= buf@.len()
                    && c.wire(ctx) == buf@.take(n as int),
                Err(e) => Self::extent(ctx, buf@) == Err::<nat, CodecError>(e),
            },
    {
        if buf.len() < 6 {
            return Err(CodecError::TruncatedInput);
        }
        let field_1 = get_u16(ctx.order, buf, 0);
        let field_2 = get_u16(ctx.order, buf, 2);
        let field_3 = get_u16(ctx.order, buf, 4);
        let c = Control0_0 { field_1, field_2, field_3 };
        proof {
            lemma_u16_at_wire(ctx.order, buf@, 0);
            lemma_u16_at_wire(ctx.order, buf@, 2);
            lemma_u16_at_wire(ctx.order, buf@, 4);
            assert(c.wire(ctx) =~= buf@.take(6));
        }
        Ok((6, c))
    }

    /// Appends the record's bytes.
    pub fn write(&self, ctx: Context, out: &mut Vec<u8>)
        ensures
            final(out)@ == old(out)@ + self.wire(ctx),
    {
        write_u16(ctx.order, self.field_1, out);
        write_u16(ctx.order, self.field_2, out);
        write_u16(ctx.order, self.field_3, out);
        assert(final(out)@ =~= old(out)@ + self.wire(ctx));
    }

    /// Cutting bytes off the end of `buf`, after the record, does not change how it reads.
    pub proof fn lemma_extent_prefix(ctx: Context, buf: Seq<u8>)
        requires
            Self::extent(ctx, buf) is Ok,
            Self::extent(ctx, buf)->Ok_0 < buf.len(),
        ensures
            Self::extent(ctx, buf.drop_last()) == Self::extent(ctx, buf),
    {
    }
}

/// Subtype 1 of main type 0: two integers.
#[derive(Clone, Copy, Debug, PartialEq, Eq, Structural)]
pub struct Control0_1 {
    pub field_1: u16,
    pub field_2: u16,
}

impl Control0_1 {
    /// The bytes of the record on the wire.
    pub open spec fn wire(self, ctx: Context) -> Seq<u8> {
        u16_wire(ctx.order, self.field_1) + u16_wire(ctx.order, self.field_2)
    }

    /// How many bytes the record takes at the start of `buf`, or why it cannot be read.
    pub open spec fn extent(ctx: Context, buf: Seq<u8>) -> Result<nat, CodecError> {
        if buf.len() >= 4 {
            Ok(4)
        } else {
            Err(CodecError::TruncatedInput)
        }
    }

    /// Reads the record at the start of `buf`.
    pub fn parse(ctx: Context, buf: &[u8]) -> (r: Result<(usize, Self), CodecError>)
        ensures
            match r {
                Ok((n, c)) => Self::extent(ctx, buf@) == Ok::<nat, CodecError>(n as nat) && n <= buf@.len()
                    && c.wire(ctx) == buf@.take(n as int),
                Err(e) => Self::extent(ctx, buf@) == Err::<nat, CodecError>(e),
            },
    {
        if buf.len() < 4 {
            return Err(CodecError::TruncatedInput);
        }
        let field_1 = get_u16(ctx.order, buf, 0);
        let field_2 = get_u16(ctx.order, buf, 2);
        let c = Control0_1 { field_1, field_2 };
        proof {
            lemma_u16_at_wire(ctx.order, buf@, 0);
            lemma_u16_at_wire(ctx.order, buf@, 2);
            assert(c.wire(ctx) =~= buf@.take(4));
        }
        Ok((4, c))
    }

    /// Appends the record's bytes.
    pub fn write(&self, ctx: Context, out: &mut Vec<u8>)
        ensures
            final(out)@ == old(out)@ + self.wire(ctx),
    {
        write_u16(ctx.order, self.field_1, out);
        write_u16(ctx.order, self.field_2, out);
        assert(final(out)@ =~= old(out)@ + self.wire(ctx));
    }

    /// Cutting bytes off the end of `buf`, after the record, does not change how it reads.
    pub proof fn lemma_extent_prefix(ctx: Context, buf: Seq<u8>)
        requires
            Self::extent(ctx, buf) is Ok,
            Self::extent(ctx, buf)->Ok_0 < buf.len(),
        ensures
            Self::extent(ctx, buf.drop_last()) == Self::extent(ctx, buf),
    {
    }

    /// The subtype marker, 1.
    pub fn marker(&self) -> (r: u16)
        ensures
            r == 1,
    {
        1
    }
}

/// Subtype 2 of main type 0: two integers.
#[derive(Clone, Copy, Debug, PartialEq, Eq, Structural)]
pub struct Control0_2 {
    pub field_1: u16,
    pub field_2: u16,
}

impl Control0_2 {
    /// The bytes of the record on the wire.
    pub open spec fn wire(self, ctx: Context) -> Seq<u8> {
        u16_wire(ctx.order, self.field_1) + u16_wire(ctx.order, self.field_2)
    }

    /// How many bytes the record takes at the start of `buf`, or why it cannot be read.
    pub open spec fn extent(ctx: Context, buf: Seq<u8>) -> Result<nat, CodecError> {
        if buf.len() >= 4 {
            Ok(4)
        } else {
            Err(CodecError::TruncatedInput)
        }
    }

    /// Reads the record at the start of `buf`.
    pub fn parse(ctx: Context, buf: &[u8]) -> (r: Result<(usize, Self), CodecError>)
        ensures
            match r {
                Ok((n, c)) => Self::extent(ctx, buf@) == Ok::<nat, CodecError>(n as nat) && n <= buf@.len()
                    && c.wire(ctx) == buf@.take(n as int),
                Err(e) => Self::extent(ctx, buf@) == Err::<nat, CodecError>(e),
            },
    {
        if buf.len() < 4 {
            return Err(CodecError::TruncatedInput);
        }
        let field_1 = get_u16(ctx.order, buf, 0);
        let field_2 = get_u16(ctx.order, buf, 2);
        let c = Control0_2 { field_1, field_2 };
        proof {
            lemma_u16_at_wire(ctx.order, buf@, 0);
            lemma_u16_at_wire(ctx.order, buf@, 2);
            assert(c.wire(ctx) =~= buf@.take(4));
        }
        Ok((4, c))
    }

    /// Appends the record's bytes.
    pub fn write(&self, ctx: Context, out: &mut Vec<u8>)
        ensures
            final(out)@ == old(out)@ + self.wire(ctx),
    {
        write_u16(ctx.order, self.field_1, out);
        write_u16(ctx.order, self.field_2, out);
        assert(final(out)@ =~= old(out)@ + self.wire(ctx));
    }

    /// Cutting bytes off the end of `buf`, after the record, does not change how it reads.
    pub proof fn lemma_extent_prefix(ctx: Context, buf: Seq<u8>)
        requires
            Self::extent(ctx, buf) is Ok,
            Self::extent(ctx, buf)->Ok_0 < buf.len(),
        ensures
            Self::extent(ctx, buf.drop_last()) == Self::extent(ctx, buf),
    {
    }
}

/// Subtype 3 of main type 0: two integers.
#[derive(Clone, Copy, Debug, PartialEq, Eq, Structural)]
pub struct Control0_3 {
    pub field_1: u16,
    pub field_2: u16,
}

impl Control0_3 {
    /// The bytes of the record on the wire.
    pub open spec fn wire(self, ctx: Context) -> Seq<u8> {
        u16_wire(ctx.order, self.field_1) + u16_wire(ctx.order, self.field_2)
    }

    /// How many bytes the record takes at the start of `buf`, or why it cannot be read.
    pub open spec fn extent(ctx: Context, buf: Seq<u8>) -> Result<nat, CodecError> {
        if buf.len() >= 4 {
            Ok(4)
        } else {
            Err(CodecError::TruncatedInput)
        }
    }

    /// Reads the record at the start of `buf`.
    pub fn parse(ctx: Context, buf: &[u8]) -> (r: Result<(usize, Self), CodecError>)
        ensures
            match r {
                Ok((n, c)) => Self::extent(ctx, buf@) == Ok::<nat, CodecError>(n as nat) && n <= buf@.len()
                    && c.wire(ctx) == buf@.take(n as int),
                Err(e) => Self::extent(ctx, buf@) == Err::<nat, CodecError>(e),
            },
    {
        if buf.len() < 4 {
            return Err(CodecError::TruncatedInput);
        }
        let field_1 = get_u16(ctx.order, buf, 0);
        let field_2 = get_u16(ctx.order, buf, 2);
        let c = Control0_3 { field_1, field_2 };
        proof {
            lemma_u16_at_wire(ctx.order, buf@, 0);
            lemma_u16_at_wire(ctx.order, buf@, 2);
            assert(c.wire(ctx) =~= buf@.take(4));
        }
        Ok((4, c))
    }

    /// Appends the record's bytes.
    pub fn write(&self, ctx: Context, out: &mut Vec<u8>)
        ensures
            final(out)@ == old(out)@ + self.wire(ctx),
    {
        write_u16(ctx.order, self.field_1, out);
        write_u16(ctx.order, self.field_2, out);
        assert(final(out)@ =~= old(out)@ + self.wire(ctx));
    }

    /// Cutting bytes off the end of `buf`, after the record, does not change how it reads.
    pub proof fn lemma_extent_prefix(ctx: Context, buf: Seq<u8>)
        requires
            Self::extent(ctx, buf) is Ok,
            Self::extent(ctx, buf)->Ok_0 < buf.len(),
        ensures
            Self::extent(ctx, buf.drop_last()) == Self::extent(ctx, buf),
    {
    }
}

/// Subtype 4 of main type 0: one integer.
#[derive(Clone, Copy, Debug, PartialEq, Eq, Structural)]
pub struct Control0_4 {
    pub field_1: u16,
}

impl Control0_4 {
    /// The bytes of the record on the wire.
    pub open spec fn wire(self, ctx: Context) -> Seq<u8> {
        u16_wire(ctx.order, self.field_1)
    }

    /// How many bytes the record takes at the start of `buf`, or why it cannot be read.
    pub open spec fn extent(ctx: Context, buf: Seq<u8>) -> Result<nat, CodecError> {
        if buf.len() >= 2 {
            Ok(2)
        } else {
            Err(CodecError::TruncatedInput)
        }
    }

    /// Reads the record at the start of `buf`.
    pub fn parse(ctx: Context, buf: &[u8]) -> (r: Result<(usize, Self), CodecError>)
        ensures
            match r {
                Ok((n, c)) => Self::extent(ctx, buf@) == Ok::<nat, CodecError>(n as nat) && n <= buf@.len()
                    && c.wire(ctx) == buf@.take(n as int),
                Err(e) => Self::extent(ctx, buf@) == Err::<nat, CodecError>(e),
            },
    {
        if buf.len() < 2 {
            return Err(CodecError::TruncatedInput);
        }
        let field_1 = get_u16(ctx.order, buf, 0);
        let c = Control0_4 { field_1 };
        proof {
            lemma_u16_at_wire(ctx.order, buf@, 0);
            assert(c.wire(ctx) =~= buf@.take(2));
        }
        Ok((2, c))
    }

    /// Appends the record's bytes.
    pub fn write(&self, ctx: Context, out: &mut Vec<u8>)
        ensures
            final(out)@ == old(out)@ + self.wire(ctx),
    {
        write_u16(ctx.order, self.field_1, out);
        assert(final(out)@ =~= old(out)@ + self.wire(ctx));
    }

    /// Cutting bytes off the end of `buf`, after the record, does not change how it reads.
    pub proof fn lemma_extent_prefix(ctx: Context, buf: Seq<u8>)
        requires
            Self::extent(ctx, buf) is Ok,
            Self::extent(ctx, buf)->Ok_0 < buf.len(),
        ensures
            Self::extent(ctx, buf.drop_last()) == Self::extent(ctx, buf),
    {
    }
}

} // verus!
