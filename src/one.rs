use vstd::prelude::*;
use vstd::slice::slice_subrange;

use crate::error::{after_u16, CodecError};
use crate::one_eight::Control1_8;
use crate::one_nine::Control1_9;
use crate::scalar::{
    lemma_u16_at_wire, lemma_u32_wire_of, read_pair, get_u16, get_u32, u16_at, u16_wire, u32_wire, write_pair, write_u16,
    write_u32,
};
use crate::text::Context;

verus! {

/// Main type 1: one of eleven subtype records.
#[derive(Debug)]
pub enum Control1 {
    Type0(Control1_0),
    Type1(Control1_1),
    Type2(Control1_2),
    Type3(Control1_3),
    Type4(Control1_4),
    Type5(Control1_5),
    Type6(Control1_6),
    Type7(Control1_7),
    Type8(Control1_8),
    Type9(Control1_9),
    Type10(Control1_10),
}

impl Control1 {
    /// The subtype marker that stands before the record.
    pub open spec fn spec_subtype(self) -> u16 {
        match self {
            Control1::Type0(_) => 0,
            Control1::Type1(_) => 1,
            Control1::Type2(_) => 2,
            Control1::Type3(_) => 3,
            Control1::Type4(_) => 4,
            Control1::Type5(_) => 5,
            Control1::Type6(_) => 6,
            Control1::Type7(_) => 7,
            Control1::Type8(_) => 8,
            Control1::Type9(_) => 9,
            Control1::Type10(_) => 10,
        }
    }

    /// The main type marker, 1.
    pub fn marker(&self) -> (r: u16)
        ensures
            r == 1,
    {
        1
    }

    pub fn subtype_marker(&self) -> (r: u16)
        ensures
            r == self.spec_subtype(),
    {
        match self {
            Control1::Type0(_) => 0,
            Control1::Type1(_) => 1,
            Control1::Type2(_) => 2,
            Control1::Type3(_) => 3,
            Control1::Type4(_) => 4,
            Control1::Type5(_) => 5,
            Control1::Type6(_) => 6,
            Control1::Type7(_) => 7,
            Control1::Type8(_) => 8,
            Control1::Type9(_) => 9,
            Control1::Type10(_) => 10,
        }
    }

    /// The bytes of the record that follow the subtype marker.
    pub open spec fn body_wire(self, ctx: Context) -> Seq<u8> {
        match self {
            Control1::Type0(c) => c.wire(ctx),
            Control1::Type1(c) => c.wire(ctx),
            Control1::Type2(c) => c.wire(ctx),
            Control1::Type3(c) => c.wire(ctx),
            Control1::Type4(c) => c.wire(ctx),
            Control1::Type5(c) => c.wire(ctx),
            Control1::Type6(c) => c.wire(ctx),
            Control1::Type7(c) => c.wire(ctx),
            Control1::Type8(c) => c.wire(ctx),
            Control1::Type9(c) => c.wire(ctx),
            Control1::Type10(c) => c.wire(ctx),
        }
    }

    /// The subtype marker followed by the record's bytes.
    pub open spec fn wire(self, ctx: Context) -> Seq<u8> {
        u16_wire(ctx.order, self.spec_subtype()) + self.body_wire(ctx)
    }

    /// Every length of the record fits its prefix.
    pub open spec fn wf(self, ctx: Context) -> bool {
        match self {
            Control1::Type0(c) => true,
            Control1::Type1(c) => true,
            Control1::Type2(c) => true,
            Control1::Type3(c) => true,
            Control1::Type4(c) => true,
            Control1::Type5(c) => true,
            Control1::Type6(c) => true,
            Control1::Type7(c) => true,
            Control1::Type8(c) => c.wf(ctx),
            Control1::Type9(c) => c.wf(ctx),
            Control1::Type10(c) => true,
        }
    }

    /// The record is the one that reading its own bytes gives.
    pub open spec fn canonical(self, ctx: Context) -> bool {
        match self {
            Control1::Type0(c) => true,
            Control1::Type1(c) => true,
            Control1::Type2(c) => true,
            Control1::Type3(c) => true,
            Control1::Type4(c) => true,
            Control1::Type5(c) => true,
            Control1::Type6(c) => true,
            Control1::Type7(c) => true,
            Control1::Type8(c) => c.canonical(ctx),
            Control1::Type9(c) => c.canonical(ctx),
            Control1::Type10(c) => true,
        }
    }

    /// How many bytes the record of subtype `kind` takes at the start of `rest`, or why it cannot be read.
    pub open spec fn body_extent(ctx: Context, kind: u16, rest: Seq<u8>) -> Result<nat, CodecError> {
        match kind {
            0 => Control1_0::extent(ctx, rest),
            1 => Control1_1::extent(ctx, rest),
            2 => Control1_2::extent(ctx, rest),
            3 => Control1_3::extent(ctx, rest),
            4 => Control1_4::extent(ctx, rest),
            5 => Control1_5::extent(ctx, rest),
            6 => Control1_6::extent(ctx, rest),
            7 => Control1_7::extent(ctx, rest),
            8 => Control1_8::extent(ctx, rest),
            9 => Control1_9::extent(ctx, rest),
            10 => Control1_10::extent(ctx, rest),
            m => Err(CodecError::UnknownSubtype { main: 1, marker: m }),
        }
    }

    /// How many bytes the subtype marker and record take at the start of `buf`, or why they cannot be read.
    pub open spec fn extent(ctx: Context, buf: Seq<u8>) -> Result<nat, CodecError> {
        if buf.len() < 2 {
            Err(CodecError::TruncatedInput)
        } else {
            after_u16(Self::body_extent(ctx, u16_at(ctx.order, buf, 0), buf.skip(2)))
        }
    }

    fn parse_body(ctx: Context, kind: u16, rest: &[u8]) -> (r: Result<(usize, Self), CodecError>)
        ensures
            match r {
                Ok((n, c)) => Self::body_extent(ctx, kind, rest@) == Ok::<nat, CodecError>(n as nat) && n <= rest@.len()
                    && c.spec_subtype() == kind && c.body_wire(ctx) == rest@.take(n as int) && c.wf(ctx) && c.canonical(ctx),
                Err(e) => Self::body_extent(ctx, kind, rest@) == Err::<nat, CodecError>(e),
            },
    {
        match kind {
            0 => match Control1_0::parse(ctx, rest) {
                Ok((n, c)) => Ok((n, Control1::Type0(c))),
                Err(e) => Err(e),
            },
            1 => match Control1_1::parse(ctx, rest) {
                Ok((n, c)) => Ok((n, Control1::Type1(c))),
                Err(e) => Err(e),
            },
            2 => match Control1_2::parse(ctx, rest) {
                Ok((n, c)) => Ok((n, Control1::Type2(c))),
                Err(e) => Err(e),
            },
            3 => match Control1_3::parse(ctx, rest) {
                Ok((n, c)) => Ok((n, Control1::Type3(c))),
                Err(e) => Err(e),
            },
            4 => match Control1_4::parse(ctx, rest) {
                Ok((n, c)) => Ok((n, Control1::Type4(c))),
                Err(e) => Err(e),
            },
            5 => match Control1_5::parse(ctx, rest) {
                Ok((n, c)) => Ok((n, Control1::Type5(c))),
                Err(e) => Err(e),
            },
            6 => match Control1_6::parse(ctx, rest) {
                Ok((n, c)) => Ok((n, Control1::Type6(c))),
                Err(e) => Err(e),
            },
            7 => match Control1_7::parse(ctx, rest) {
                Ok((n, c)) => Ok((n, Control1::Type7(c))),
                Err(e) => Err(e),
            },
            8 => match Control1_8::parse(ctx, rest) {
                Ok((n, c)) => Ok((n, Control1::Type8(c))),
                Err(e) => Err(e),
            },
            9 => match Control1_9::parse(ctx, rest) {
                Ok((n, c)) => Ok((n, Control1::Type9(c))),
                Err(e) => Err(e),
            },
            10 => match Control1_10::parse(ctx, rest) {
                Ok((n, c)) => Ok((n, Control1::Type10(c))),
                Err(e) => Err(e),
            },
            _ => Err(CodecError::UnknownSubtype { main: 1, marker: kind }),
        }
    }

    /// Reads the subtype marker and the record that follows it.
    pub fn parse(ctx: Context, buf: &[u8]) -> (r: Result<(usize, Self), CodecError>)
        ensures
            match r {
                Ok((n, c)) => Self::extent(ctx, buf@) == Ok::<nat, CodecError>(n as nat) && n <= buf@.len()
                    && c.wire(ctx) == buf@.take(n as int) && c.wf(ctx) && c.canonical(ctx),
                Err(e) => Self::extent(ctx, buf@) == Err::<nat, CodecError>(e),
            },
    {
        if buf.len() < 2 {
            return Err(CodecError::TruncatedInput);
        }
        let kind = get_u16(ctx.order, buf, 0);
        match Self::parse_body(ctx, kind, slice_subrange(buf, 2, buf.len())) {
            Ok((n, c)) => {
                proof {
                    lemma_u16_at_wire(ctx.order, buf@, 0);
                    assert(c.wire(ctx) =~= buf@.take(n + 2));
                }
                Ok((n + 2, c))
            },
            Err(e) => Err(e),
        }
    }

    #[verifier::rlimit(100)]
    /// Appends the subtype marker and the record, or fails when a length does not fit its prefix.
    pub fn write(&self, ctx: Context, out: &mut Vec<u8>) -> (r: Result<(), CodecError>)
        ensures
            r is Ok <==> self.wf(ctx),
            r is Ok ==> final(out)@ == old(out)@ + self.wire(ctx),
            r is Err ==> r == Err::<(), CodecError>(CodecError::FieldTooLong),
            old(out)@.is_prefix_of(final(out)@),
    {
        let ghost start = out@;
        write_u16(ctx.order, self.subtype_marker(), out);
        let r = match self {
            Control1::Type0(c) => {
                c.write(ctx, out);
                Ok(())
            },
            Control1::Type1(c) => {
                c.write(ctx, out);
                Ok(())
            },
            Control1::Type2(c) => {
                c.write(ctx, out);
                Ok(())
            },
            Control1::Type3(c) => {
                c.write(ctx, out);
                Ok(())
            },
            Control1::Type4(c) => {
                c.write(ctx, out);
                Ok(())
            },
            Control1::Type5(c) => {
                c.write(ctx, out);
                Ok(())
            },
            Control1::Type6(c) => {
                c.write(ctx, out);
                Ok(())
            },
            Control1::Type7(c) => {
                c.write(ctx, out);
                Ok(())
            },
            Control1::Type8(c) => c.write(ctx, out),
            Control1::Type9(c) => c.write(ctx, out),
            Control1::Type10(c) => {
                c.write(ctx, out);
                Ok(())
            },
        };
        assert(start.is_prefix_of(out@));
        proof {
            if r is Ok {
                assert(out@ =~= start + self.wire(ctx));
            }
        }
        r
    }

    /// Cutting bytes off the end of `buf`, after the record, does not change how it reads.
    pub proof fn lemma_extent_prefix(ctx: Context, buf: Seq<u8>)
        requires
            Self::extent(ctx, buf) is Ok,
            Self::extent(ctx, buf)->Ok_0 < buf.len(),
        ensures
            Self::extent(ctx, buf.drop_last()) == Self::extent(ctx, buf),
    {
        let rest = buf.skip(2);
        assert(buf.drop_last().skip(2) =~= rest.drop_last());
        assert(buf.drop_last().subrange(0, 2) =~= buf.subrange(0, 2));
        match u16_at(ctx.order, buf, 0) {
            0 => Control1_0::lemma_extent_prefix(ctx, rest),
            1 => Control1_1::lemma_extent_prefix(ctx, rest),
            2 => Control1_2::lemma_extent_prefix(ctx, rest),
            3 => Control1_3::lemma_extent_prefix(ctx, rest),
            4 => Control1_4::lemma_extent_prefix(ctx, rest),
            5 => Control1_5::lemma_extent_prefix(ctx, rest),
            6 => Control1_6::lemma_extent_prefix(ctx, rest),
            7 => Control1_7::lemma_extent_prefix(ctx, rest),
            8 => Control1_8::lemma_extent_prefix(ctx, rest),
            9 => Control1_9::lemma_extent_prefix(ctx, rest),
            10 => Control1_10::lemma_extent_prefix(ctx, rest),
            _ => {},
        }
    }
}

/// Subtype 0 of main type 1: two integers.
#[derive(Clone, Copy, Debug, PartialEq, Eq, Structural)]
pub struct Control1_0 {
    pub field_1: u16,
    pub field_2: u16,
}

impl Control1_0 {
    /// The bytes of the record on the wire.
    pub open spec fn wire(self, ctx: Context) -> Seq<u8> {
        u16_wire(ctx.order, self.field_1) + u16_wire(ctx.order, self.field_2)
    }

    /// How many bytes the record takes at the start of `buf`, or why it cannot be read.
    pub open spec fn extent(ctx: Context, buf: Seq<u8>) -> Result<nat, CodecError> {
        if buf.len() >= 4 {
            Ok(4)
        } else {
            Err(CodecError::TruncatedInput)
        }
    }

    /// Reads the record at the start of `buf`.
    pub fn parse(ctx: Context, buf: &[u8]) -> (r: Result<(usize, Self), CodecError>)
        ensures
            match r {
                Ok((n, c)) => Self::extent(ctx, buf@) == Ok::<nat, CodecError>(n as nat) && n <= buf@.len()
                    && c.wire(ctx) == buf@.take(n as int),
                Err(e) => Self::extent(ctx, buf@) == Err::<nat, CodecError>(e),
            },
    {
        if buf.len() < 4 {
            return Err(CodecError::TruncatedInput);
        }
        let field_1 = get_u16(ctx.order, buf, 0);
        let field_2 = get_u16(ctx.order, buf, 2);
        let c = Control1_0 { field_1, field_2 };
        proof {
            lemma_u16_at_wire(ctx.order, buf@, 0);
            lemma_u16_at_wire(ctx.order, buf@, 2);
            assert(c.wire(ctx) =~= buf@.take(4));
        }
        Ok((4, c))
    }

    /// Appends the record's bytes.
    pub fn write(&self, ctx: Context, out: &mut Vec<u8>)
        ensures
            final(out)@ == old(out)@ + self.wire(ctx),
    {
        write_u16(ctx.order, self.field_1, out);
        write_u16(ctx.order, self.field_2, out);
        assert(final(out)@ =~= old(out)@ + self.wire(ctx));
    }

    /// Cutting bytes off the end of `buf`, after the record, does not change how it reads.
    pub proof fn lemma_extent_prefix(ctx: Context, buf: Seq<u8>)
        requires
            Self::extent(ctx, buf) is Ok,
            Self::extent(ctx, buf)->Ok_0 < buf.len(),
        ensures
            Self::extent(ctx, buf.drop_last()) == Self::extent(ctx, buf),
    {
    }
}

/// Subtype 1 of main type 1: two integers.
#[derive(Clone, Copy, Debug, PartialEq, Eq, Structural)]
pub struct Control1_1 {
    pub field_1: u16,
    pub field_2: u16,
}

impl Control1_1 {
    /// The bytes of the record on the wire.
    pub open spec fn wire(self, ctx: Context) -> Seq<u8> {
        u16_wire(ctx.order, self.field_1) + u16_wire(ctx.order, self.field_2)
    }

    /// How many bytes the record takes at the start of `buf`, or why it cannot be read.
    pub open spec fn extent(ctx: Context, buf: Seq<u8>) -> Result<nat, CodecError> {
        if buf.len() >= 4 {
            Ok(4)
        } else {
            Err(CodecError::TruncatedInput)
        }
    }

    /// Reads the record at the start of `buf`.
    pub fn parse(ctx: Context, buf: &[u8]) -> (r: Result<(usize, Self), CodecError>)
        ensures
            match r {
                Ok((n, c)) => Self::extent(ctx, buf@) == Ok::<nat, CodecError>(n as nat) && n <= buf@.len()
                    && c.wire(ctx) == buf@.take(n as int),
                Err(e) => Self::extent(ctx, buf@) == Err::<nat, CodecError>(e),
            },
    {
        if buf.len() < 4 {
            return Err(CodecError::TruncatedInput);
        }
        let field_1 = get_u16(ctx.order, buf, 0);
        let field_2 = get_u16(ctx.order, buf, 2);
        let c = Control1_1 { field_1, field_2 };
        proof {
            lemma_u16_at_wire(ctx.order, buf@, 0);
            lemma_u16_at_wire(ctx.order, buf@, 2);
            assert(c.wire(ctx) =~= buf@.take(4));
        }
        Ok((4, c))
    }

    /// Appends the record's bytes.
    pub fn write(&self, ctx: Context, out: &mut Vec<u8>)
        ensures
            final(out)@ == old(out)@ + self.wire(ctx),
    {
        write_u16(ctx.order, self.field_1, out);
        write_u16(ctx.order, self.field_2, out);
        assert(final(out)@ =~= old(out)@ + self.wire(ctx));
    }

    /// Cutting bytes off the end of `buf`, after the record, does not change how it reads.
    pub proof fn lemma_extent_prefix(ctx: Context, buf: Seq<u8>)
        requires
            Self::extent(ctx, buf) is Ok,
            Self::extent(ctx, buf)->Ok_0 < buf.len(),
        ensures
            Self::extent(ctx, buf.drop_last()) == Self::extent(ctx, buf),
    {
    }
}

/// Subtype 2 of main type 1: one integer.
#[derive(Clone, Copy, Debug, PartialEq, Eq, Structural)]
pub struct Control1_2 {
    pub field_1: u16,
}

impl Control1_2 {
    /// The bytes of the record on the wire.
    pub open spec fn wire(self, ctx: Context) -> Seq<u8> {
        u16_wire(ctx.order, self.field_1)
    }

    /// How many bytes the record takes at the start of `buf`, or why it cannot be read.
    pub open spec fn extent(ctx: Context, buf: Seq<u8>) -> Result<nat, CodecError> {
        if buf.len() >= 2 {
            Ok(2)
        } else {
            Err(CodecError::TruncatedInput)
        }
    }

    /// Reads the record at the start of `buf`.
    pub fn parse(ctx: Context, buf: &[u8]) -> (r: Result<(usize, Self), CodecError>)
        ensures
            match r {
                Ok((n, c)) => Self::extent(ctx, buf@) == Ok::<nat, CodecError>(n as nat) && n <= buf@.len()
                    && c.wire(ctx) == buf@.take(n as int),
                Err(e) => Self::extent(ctx, buf@) == Err::<nat, CodecError>(e),
            },
    {
        if buf.len() < 2 {
            return Err(CodecError::TruncatedInput);
        }
        let field_1 = get_u16(ctx.order, buf, 0);
        let c = Control1_2 { field_1 };
        proof {
            lemma_u16_at_wire(ctx.order, buf@, 0);
            assert(c.wire(ctx) =~= buf@.take(2));
        }
        Ok((2, c))
    }

    /// Appends the record's bytes.
    pub fn write(&self, ctx: Context, out: &mut Vec<u8>)
        ensures
            final(out)@ == old(out)@ + self.wire(ctx),
    {
        write_u16(ctx.order, self.field_1, out);
        assert(final(out)@ =~= old(out)@ + self.wire(ctx));
    }

    /// Cutting bytes off the end of `buf`, after the record, does not change how it reads.
    pub proof fn lemma_extent_prefix(ctx: Context, buf: Seq<u8>)
        requires
            Self::extent(ctx, buf) is Ok,
            Self::extent(ctx, buf)->Ok_0 < buf.len(),
        ensures
            Self::extent(ctx, buf.drop_last()) == Self::extent(ctx, buf),
    {
    }
}

/// Subtype 3 of main type 1: a 16-bit and a 32-bit integer.
#[derive(Clone, Copy, Debug, PartialEq, Eq, Structural)]
pub struct Control1_3 {
    pub field_1: u16,
    pub field_2: u32,
}

impl Control1_3 {
    /// The bytes of the record on the wire.
    pub open spec fn wire(self, ctx: Context) -> Seq<u8> {
        u16_wire(ctx.order, self.field_1) + u32_wire(ctx.order, self.field_2)
    }

    /// How many bytes the record takes at the start of `buf`, or why it cannot be read.
    pub open spec fn extent(ctx: Context, buf: Seq<u8>) -> Result<nat, CodecError> {
        if buf.len() >= 6 {
            Ok(6)
        } else {
            Err(CodecError::TruncatedInput)
        }
    }

    /// Reads the record at the start of `buf`.
    pub fn parse(ctx: Context, buf: &[u8]) -> (r: Result<(usize, Self), CodecError>)
        ensures
            match r {
                Ok((n, c)) => Self::extent(ctx, buf@) == Ok::<nat, CodecError>(n as nat) && n <= buf@.len()
                    && c.wire(ctx) == buf@.take(n as int),
                Err(e) => Self::extent(ctx, buf@) == Err::<nat, CodecError>(e),
            },
    {
        if buf.len() < 6 {
            return Err(CodecError::TruncatedInput);
        }
        let field_1 = get_u16(ctx.order, buf, 0);
        let field_2 = get_u32(ctx.order, buf, 2);
        let c = Control1_3 { field_1, field_2 };
        proof {
            lemma_u16_at_wire(ctx.order, buf@, 0);
            lemma_u32_wire_of(ctx.order, buf@.subrange(2, 6));
            assert(c.wire(ctx) =~= buf@.take(6));
        }
        Ok((6, c))
    }

    /// Appends the record's bytes.
    pub fn write(&self, ctx: Context, out: &mut Vec<u8>)
        ensures
            final(out)@ == old(out)@ + self.wire(ctx),
    {
        write_u16(ctx.order, self.field_1, out);
        write_u32(ctx.order, self.field_2, out);
        assert(final(out)@ =~= old(out)@ + self.wire(ctx));
    }

    /// Cutting bytes off the end of `buf`, after the record, does not change how it reads.
    pub proof fn lemma_extent_prefix(ctx: Context, buf: Seq<u8>)
        requires
            Self::extent(ctx, buf) is Ok,
            Self::extent(ctx, buf)->Ok_0 < buf.len(),
        ensures
            Self::extent(ctx, buf.drop_last()) == Self::extent(ctx, buf),
    {
    }
}

/// Subtype 4 of main type 1: three integers and two raw bytes.
#[derive(Clone, Copy, Debug, PartialEq, Eq)]
pub struct Control1_4 {
    pub field_1: u16,
    pub field_2: u16,
    pub field_3: u16,
    pub field_4: [u8; 2],
}

impl Control1_4 {
    /// The bytes of the record on the wire.
    pub open spec fn wire(self, ctx: Context) -> Seq<u8> {
        u16_wire(ctx.order, self.field_1) + u16_wire(ctx.order, self.field_2) + u16_wire(ctx.order, self.field_3) + self.field_4@
    }

    /// How many bytes the record takes at the start of `buf`, or why it cannot be read.
    pub open spec fn extent(ctx: Context, buf: Seq<u8>) -> Result<nat, CodecError> {
        if buf.len() >= 8 {
            Ok(8)
        } else {
            Err(CodecError::TruncatedInput)
        }
    }

    /// Reads the record at the start of `buf`.
    pub fn parse(ctx: Context, buf: &[u8]) -> (r: Result<(usize, Self), CodecError>)
        ensures
            match r {
                Ok((n, c)) => Self::extent(ctx, buf@) == Ok::<nat, CodecError>(n as nat) && n <= buf@.len()
                    && c.wire(ctx) == buf@.take(n as int),
                Err(e) => Self::extent(ctx, buf@) == Err::<nat, CodecError>(e),
            },
    {
        if buf.len() < 8 {
            return Err(CodecError::TruncatedInput);
        }
        let field_1 = get_u16(ctx.order, buf, 0);
        let field_2 = get_u16(ctx.order, buf, 2);
        let field_3 = get_u16(ctx.order, buf, 4);
        let field_4 = read_pair(buf, 6);
        let c = Control1_4 { field_1, field_2, field_3, field_4 };
        proof {
            lemma_u16_at_wire(ctx.order, buf@, 0);
            lemma_u16_at_wire(ctx.order, buf@, 2);
            lemma_u16_at_wire(ctx.order, buf@, 4);
            assert(c.wire(ctx) =~= buf@.take(8));
        }
        Ok((8, c))
    }

    /// Appends the record's bytes.
    pub fn write(&self, ctx: Context, out: &mut Vec<u8>)
        ensures
            final(out)@ == old(out)@ + self.wire(ctx),
    {
        write_u16(ctx.order, self.field_1, out);
        write_u16(ctx.order, self.field_2, out);
        write_u16(ctx.order, self.field_3, out);
        write_pair(&self.field_4, out);
        assert(final(out)@ =~= old(out)@ + self.wire(ctx));
    }

    /// Cutting bytes off the end of `buf`, after the record, does not change how it reads.
    pub proof fn lemma_extent_prefix(ctx: Context, buf: Seq<u8>)
        requires
            Self::extent(ctx, buf) is Ok,
            Self::extent(ctx, buf)->Ok_0 < buf.len(),
        ensures
            Self::extent(ctx, buf.drop_last()) == Self::extent(ctx, buf),
    {
    }
}

/// Subtype 5 of main type 1: four integers and two raw bytes.
#[derive(Clone, Copy, Debug, PartialEq, Eq)]
pub struct Control1_5 {
    pub field_1: u16,
    pub field_2: u16,
    pub field_3: u16,
    pub field_4: u16,
    pub field_5: [u8; 2],
}

impl Control1_5 {
    /// The bytes of the record on the wire.
    pub open spec fn wire(self, ctx: Context) -> Seq<u8> {
        u16_wire(ctx.order, self.field_1) + u16_wire(ctx.order, self.field_2) + u16_wire(ctx.order, self.field_3) + u16_wire(ctx.order, self.field_4) + self.field_5@
    }

    /// How many bytes the record takes at the start of `buf`, or why it cannot be read.
    pub open spec fn extent(ctx: Context, buf: Seq<u8>) -> Result<nat, CodecError> {
        if buf.len() >= 10 {
            Ok(10)
        } else {
            Err(CodecError::TruncatedInput)
        }
    }

    /// Reads the record at the start of `buf`.
    pub fn parse(ctx: Context, buf: &[u8]) -> (r: Result<(usize, Self), CodecError>)
        ensures
            match r {
                Ok((n, c)) => Self::extent(ctx, buf@) == Ok::<nat, CodecError>(n as nat) && n <= buf@.len()
                    && c.wire(ctx) == buf@.take(n as int),
                Err(e) => Self::extent(ctx, buf@) == Err::<nat, CodecError>(e),
            },
    {
        if buf.len() < 10 {
            return Err(CodecError::TruncatedInput);
        }
        let field_1 = get_u16(ctx.order, buf, 0);
        let field_2 = get_u16(ctx.order, buf, 2);
        let field_3 = get_u16(ctx.order, buf, 4);
        let field_4 = get_u16(ctx.order, buf, 6);
        let field_5 = read_pair(buf, 8);
        let c = Control1_5 { field_1, field_2, field_3, field_4, field_5 };
        proof {
            lemma_u16_at_wire(ctx.order, buf@, 0);
            lemma_u16_at_wire(ctx.order, buf@, 2);
            lemma_u16_at_wire(ctx.order, buf@, 4);
            lemma_u16_at_wire(ctx.order, buf@, 6);
            assert(c.wire(ctx) =~= buf@.take(10));
        }
        Ok((10, c))
    }

    /// Appends the record's bytes.
    pub fn write(&self, ctx: Context, out: &mut Vec<u8>)
        ensures
            final(out)@ == old(out)@ + self.wire(ctx),
    {
        write_u16(ctx.order, self.field_1, out);
        write_u16(ctx.order, self.field_2, out);
        write_u16(ctx.order, self.field_3, out);
        write_u16(ctx.order, self.field_4, out);
        write_pair(&self.field_5, out);
        assert(final(out)@ =~= old(out)@ + self.wire(ctx));
    }

    /// Cutting bytes off the end of `buf`, after the record, does not change how it reads.
    pub proof fn lemma_extent_prefix(ctx: Context, buf: Seq<u8>)
        requires
            Self::extent(ctx, buf) is Ok,
            Self::extent(ctx, buf)->Ok_0 < buf.len(),
        ensures
            Self::extent(ctx, buf.drop_last()) == Self::extent(ctx, buf),
    {
    }

    /// The subtype marker, 5.
    pub fn marker(&self) -> (r: u16)
        ensures
            r == 5,
    {
        5
    }
}

/// Subtype 6 of main type 1: five integers and two raw bytes.
#[derive(Clone, Copy, Debug, PartialEq, Eq)]
pub struct Control1_6 {
    pub field_1: u16,
    pub field_2: u16,
    pub field_3: u16,
    pub field_4: u16,
    pub field_5: u16,
    pub field_6: [u8; 2],
}

impl Control1_6 {
    /// The bytes of the record on the wire.
    pub open spec fn wire(self, ctx: Context) -> Seq<u8> {
        u16_wire(ctx.order, self.field_1) + u16_wire(ctx.order, self.field_2) + u16_wire(ctx.order, self.field_3) + u16_wire(ctx.order, self.field_4) + u16_wire(ctx.order, self.field_5) + self.field_6@
    }

    /// How many bytes the record takes at the start of `buf`, or why it cannot be read.
    pub open spec fn extent(ctx: Context, buf: Seq<u8>) -> Result<nat, CodecError> {
        if buf.len() >= 12 {
            Ok(12)
        } else {
            Err(CodecError::TruncatedInput)
        }
    }

    /// Reads the record at the start of `buf`.
    pub fn parse(ctx: Context, buf: &[u8]) -> (r: Result<(usize, Self), CodecError>)
        ensures
            match r {
                Ok((n, c)) => Self::extent(ctx, buf@) == Ok::<nat, CodecError>(n as nat) && n <= buf@.len()
                    && c.wire(ctx) == buf@.take(n as int),
                Err(e) => Self::extent(ctx, buf@) == Err::<nat, CodecError>(e),
            },
    {
        if buf.len() < 12 {
            return Err(CodecError::TruncatedInput);
        }
        let field_1 = get_u16(ctx.order, buf, 0);
        let field_2 = get_u16(ctx.order, buf, 2);
        let field_3 = get_u16(ctx.order, buf, 4);
        let field_4 = get_u16(ctx.order, buf, 6);
        let field_5 = get_u16(ctx.order, buf, 8);
        let field_6 = read_pair(buf, 10);
        let c = Control1_6 { field_1, field_2, field_3, field_4, field_5, field_6 };
        proof {
            lemma_u16_at_wire(ctx.order, buf@, 0);
            lemma_u16_at_wire(ctx.order, buf@, 2);
            lemma_u16_at_wire(ctx.order, buf@, 4);
            lemma_u16_at_wire(ctx.order, buf@, 6);
            lemma_u16_at_wire(ctx.order, buf@, 8);
            assert(c.wire(ctx) =~= buf@.take(12));
        }
        Ok((12, c))
    }

    /// Appends the record's bytes.
    pub fn write(&self, ctx: Context, out: &mut Vec<u8>)
        ensures
            final(out)@ == old(out)@ + self.wire(ctx),
    {
        write_u16(ctx.order, self.field_1, out);
        write_u16(ctx.order, self.field_2, out);
        write_u16(ctx.order, self.field_3, out);
        write_u16(ctx.order, self.field_4, out);
        write_u16(ctx.order, self.field_5, out);
        write_pair(&self.field_6, out);
        assert(final(out)@ =~= old(out)@ + self.wire(ctx));
    }

    /// Cutting bytes off the end of `buf`, after the record, does not change how it reads.
    pub proof fn lemma_extent_prefix(ctx: Context, buf: Seq<u8>)
        requires
            Self::extent(ctx, buf) is Ok,
            Self::extent(ctx, buf)->Ok_0 < buf.len(),
        ensures
            Self::extent(ctx, buf.drop_last()) == Self::extent(ctx, buf),
    {
    }
}

/// Subtype 7 of main type 1: one integer and two raw bytes.
#[derive(Clone, Copy, Debug, PartialEq, Eq)]
pub struct Control1_7 {
    pub field_1: u16,
    pub field_2: [u8; 2],
}

impl Control1_7 {
    /// The bytes of the record on the wire.
    pub open spec fn wire(self, ctx: Context) -> Seq<u8> {
        u16_wire(ctx.order, self.field_1) + self.field_2@
    }

    /// How many bytes the record takes at the start of `buf`, or why it cannot be read.
    pub open spec fn extent(ctx: Context, buf: Seq<u8>) -> Result<nat, CodecError> {
        if buf.len() >= 4 {
            Ok(4)
        } else {
            Err(CodecError::TruncatedInput)
        }
    }

    /// Reads the record at the start of `buf`.
    pub fn parse(ctx: Context, buf: &[u8]) -> (r: Result<(usize, Self), CodecError>)
        ensures
            match r {
                Ok((n, c)) => Self::extent(ctx, buf@) == Ok::<nat, CodecError>(n as nat) && n <= buf@.len()
                    && c.wire(ctx) == buf@.take(n as int),
                Err(e) => Self::extent(ctx, buf@) == Err::<nat, CodecError>(e),
            },
    {
        if buf.len() < 4 {
            return Err(CodecError::TruncatedInput);
        }
        let field_1 = get_u16(ctx.order, buf, 0);
        let field_2 = read_pair(buf, 2);
        let c = Control1_7 { field_1, field_2 };
        proof {
            lemma_u16_at_wire(ctx.order, buf@, 0);
            assert(c.wire(ctx) =~= buf@.take(4));
        }
        Ok((4, c))
    }

    /// Appends the record's bytes.
    pub fn write(&self, ctx: Context, out: &mut Vec<u8>)
        ensures
            final(out)@ == old(out)@ + self.wire(ctx),
    {
        write_u16(ctx.order, self.field_1, out);
        write_pair(&self.field_2, out);
        assert(final(out)@ =~= old(out)@ + self.wire(ctx));
    }

    /// Cutting bytes off the end of `buf`, after the record, does not change how it reads.
    pub proof fn lemma_extent_prefix(ctx: Context, buf: Seq<u8>)
        requires
            Self::extent(ctx, buf) is Ok,
            Self::extent(ctx, buf)->Ok_0 < buf.len(),
        ensures
            Self::extent(ctx, buf.drop_last()) == Self::extent(ctx, buf),
    {
    }

    /// The subtype marker, 7.
    pub fn marker(&self) -> (r: u16)
        ensures
            r == 7,
    {
        7
    }
}

/// Subtype 10 of main type 1: two integers and two raw bytes.
#[derive(Clone, Copy, Debug, PartialEq, Eq)]
pub struct Control1_10 {
    pub field_1: u16,
    pub field_2: u16,
    pub field_3: [u8; 2],
}

impl Control1_10 {
    /// The bytes of the record on the wire.
    pub open spec fn wire(self, ctx: Context) -> Seq<u8> {
        u16_wire(ctx.order, self.field_1) + u16_wire(ctx.order, self.field_2) + self.field_3@
    }

    /// How many bytes the record takes at the start of `buf`, or why it cannot be read.
    pub open spec fn extent(ctx: Context, buf: Seq<u8>) -> Result<nat, CodecError> {
        if buf.len() >= 6 {
            Ok(6)
        } else {
            Err(CodecError::TruncatedInput)
        }
    }

    /// Reads the record at the start of `buf`.
    pub fn parse(ctx: Context, buf: &[u8]) -> (r: Result<(usize, Self), CodecError>)
        ensures
            match r {
                Ok((n, c)) => Self::extent(ctx, buf@) == Ok::<nat, CodecError>(n as nat) && n <= buf@.len()
                    && c.wire(ctx) == buf@.take(n as int),
                Err(e) => Self::extent(ctx, buf@) == Err::<nat, CodecError>(e),
            },
    {
        if buf.len() < 6 {
            return Err(CodecError::TruncatedInput);
        }
        let field_1 = get_u16(ctx.order, buf, 0);
        let field_2 = get_u16(ctx.order, buf, 2);
        let field_3 = read_pair(buf, 4);
        let c = Control1_10 { field_1, field_2, field_3 };
        proof {
            lemma_u16_at_wire(ctx.order, buf@, 0);
            lemma_u16_at_wire(ctx.order, buf@, 2);
            assert(c.wire(ctx) =~= buf@.take(6));
        }
        Ok((6, c))
    }

    /// Appends the record's bytes.
    pub fn write(&self, ctx: Context, out: &mut Vec<u8>)
        ensures
            final(out)@ == old(out)@ + self.wire(ctx),
    {
        write_u16(ctx.order, self.field_1, out);
        write_u16(ctx.order, self.field_2, out);
        write_pair(&self.field_3, out);
        assert(final(out)@ =~= old(out)@ + self.wire(ctx));
    }

    /// Cutting bytes off the end of `buf`, after the record, does not change how it reads.
    pub proof fn lemma_extent_prefix(ctx: Context, buf: Seq<u8>)
        requires
            Self::extent(ctx, buf) is Ok,
            Self::extent(ctx, buf)->Ok_0 < buf.len(),
        ensures
            Self::extent(ctx, buf.drop_last()) == Self::extent(ctx, buf),
    {
    }
}

} // verus!
