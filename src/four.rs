use vstd::prelude::*;
use vstd::slice::slice_subrange;

use crate::error::{after_u16, CodecError};
use crate::scalar::{
    lemma_lp_bytes_prefix, lemma_u16_at_wire, lp_bytes_extent, lp_bytes_fits, lp_bytes_wire, parse_lp_bytes, get_u16, u16_at, u16_wire, write_lp_bytes, write_u16,
};
use crate::text::{lemma_lp_text_prefix, lp_text_extent, lp_text_fits, lp_text_wire, parse_lp_text, write_lp_text, Context};

verus! {

/// Main type 4: one of four subtype records.
#[derive(Debug)]
pub enum Control4 {
    Type0(Control4_0),
    Type1(Control4_1),
    Type2(Control4_2),
    Type3(Control4_3),
}

impl Control4 {
    /// The subtype marker that stands before the record.
    pub open spec fn spec_subtype(self) -> u16 {
        match self {
            Control4::Type0(_) => 0,
            Control4::Type1(_) => 1,
            Control4::Type2(_) => 2,
            Control4::Type3(_) => 3,
        }
    }

    /// The main type marker, 4.
    pub fn marker(&self) -> (r: u16)
        ensures
            r == 4,
    {
        4
    }

    pub fn subtype_marker(&self) -> (r: u16)
        ensures
            r == self.spec_subtype(),
    {
        match self {
            Control4::Type0(_) => 0,
            Control4::Type1(_) => 1,
            Control4::Type2(_) => 2,
            Control4::Type3(_) => 3,
        }
    }

    /// The bytes of the record that follow the subtype marker.
    pub open spec fn body_wire(self, ctx: Context) -> Seq<u8> {
        match self {
            Control4::Type0(c) => c.wire(ctx),
            Control4::Type1(c) => c.wire(ctx),
            Control4::Type2(c) => c.wire(ctx),
            Control4::Type3(c) => c.wire(ctx),
        }
    }

    /// The subtype marker followed by the record's bytes.
    pub open spec fn wire(self, ctx: Context) -> Seq<u8> {
        u16_wire(ctx.order, self.spec_subtype()) + self.body_wire(ctx)
    }

    /// Every length of the record fits its prefix.
    pub open spec fn wf(self, ctx: Context) -> bool {
        match self {
            Control4::Type0(c) => c.wf(ctx),
            Control4::Type1(c) => c.wf(ctx),
            Control4::Type2(c) => true,
            Control4::Type3(c) => true,
        }
    }

    /// How many bytes the record of subtype `kind` takes at the start of `rest`, or why it cannot be read.
    pub open spec fn body_extent(ctx: Context, kind: u16, rest: Seq<u8>) -> Result<nat, CodecError> {
        match kind {
            0 => Control4_0::extent(ctx, rest),
            1 => Control4_1::extent(ctx, rest),
            2 => Control4_2::extent(ctx, rest),
            3 => Control4_3::extent(ctx, rest),
            m => Err(CodecError::UnknownSubtype { main: 4, marker: m }),
        }
    }

    /// How many bytes the subtype marker and record take at the start of `buf`, or why they cannot be read.
    pub open spec fn extent(ctx: Context, buf: Seq<u8>) -> Result<nat, CodecError> {
        if buf.len() < 2 {
            Err(CodecError::TruncatedInput)
        } else {
            after_u16(Self::body_extent(ctx, u16_at(ctx.order, buf, 0), buf.skip(2)))
        }
    }

    fn parse_body(ctx: Context, kind: u16, rest: &[u8]) -> (r: Result<(usize, Self), CodecError>)
        ensures
            match r {
                Ok((n, c)) => Self::body_extent(ctx, kind, rest@) == Ok::<nat, CodecError>(n as nat) && n <= rest@.len()
                    && c.spec_subtype() == kind && c.body_wire(ctx) == rest@.take(n as int) && c.wf(ctx),
                Err(e) => Self::body_extent(ctx, kind, rest@) == Err::<nat, CodecError>(e),
            },
    {
        match kind {
            0 => match Control4_0::parse(ctx, rest) {
                Ok((n, c)) => Ok((n, Control4::Type0(c))),
                Err(e) => Err(e),
            },
            1 => match Control4_1::parse(ctx, rest) {
                Ok((n, c)) => Ok((n, Control4::Type1(c))),
                Err(e) => Err(e),
            },
            2 => match Control4_2::parse(ctx, rest) {
                Ok((n, c)) => Ok((n, Control4::Type2(c))),
                Err(e) => Err(e),
            },
            3 => match Control4_3::parse(ctx, rest) {
                Ok((n, c)) => Ok((n, Control4::Type3(c))),
                Err(e) => Err(e),
            },
            _ => Err(CodecError::UnknownSubtype { main: 4, marker: kind }),
        }
    }

    /// Reads the subtype marker and the record that follows it.
    pub fn parse(ctx: Context, buf: &[u8]) -> (r: Result<(usize, Self), CodecError>)
        ensures
            match r {
                Ok((n, c)) => Self::extent(ctx, buf@) == Ok::<nat, CodecError>(n as nat) && n <= buf@.len()
                    && c.wire(ctx) == buf@.take(n as int) && c.wf(ctx),
                Err(e) => Self::extent(ctx, buf@) == Err::<nat, CodecError>(e),
            },
    {
        if buf.len() < 2 {
            return Err(CodecError::TruncatedInput);
        }
        let kind = get_u16(ctx.order, buf, 0);
        match Self::parse_body(ctx, kind, slice_subrange(buf, 2, buf.len())) {
            Ok((n, c)) => {
                proof {
                    lemma_u16_at_wire(ctx.order, buf@, 0);
                    assert(c.wire(ctx) =~= buf@.take(n + 2));
                }
                Ok((n + 2, c))
            },
            Err(e) => Err(e),
        }
    }

    /// Appends the subtype marker and the record, or fails when a length does not fit its prefix.
    pub fn write(&self, ctx: Context, out: &mut Vec<u8>) -> (r: Result<(), CodecError>)
        ensures
            r is Ok <==> self.wf(ctx),
            r is Ok ==> final(out)@ == old(out)@ + self.wire(ctx),
            r is Err ==> r == Err::<(), CodecError>(CodecError::FieldTooLong),
            old(out)@.is_prefix_of(final(out)@),
    {
        let ghost start = out@;
        write_u16(ctx.order, self.subtype_marker(), out);
        let r = match self {
            Control4::Type0(c) => c.write(ctx, out),
            Control4::Type1(c) => c.write(ctx, out),
            Control4::Type2(c) => {
                c.write(ctx, out);
                Ok(())
            },
            Control4::Type3(c) => {
                c.write(ctx, out);
                Ok(())
            },
        };
        assert(start.is_prefix_of(out@));
        proof {
            if r is Ok {
                assert(out@ =~= start + self.wire(ctx));
            }
        }
        r
    }

    /// Cutting bytes off the end of `buf`, after the record, does not change how it reads.
    pub proof fn lemma_extent_prefix(ctx: Context, buf: Seq<u8>)
        requires
            Self::extent(ctx, buf) is Ok,
            Self::extent(ctx, buf)->Ok_0 < buf.len(),
        ensures
            Self::extent(ctx, buf.drop_last()) == Self::extent(ctx, buf),
    {
        let rest = buf.skip(2);
        assert(buf.drop_last().skip(2) =~= rest.drop_last());
        assert(buf.drop_last().subrange(0, 2) =~= buf.subrange(0, 2));
        match u16_at(ctx.order, buf, 0) {
            0 => Control4_0::lemma_extent_prefix(ctx, rest),
            1 => Control4_1::lemma_extent_prefix(ctx, rest),
            2 => Control4_2::lemma_extent_prefix(ctx, rest),
            3 => Control4_3::lemma_extent_prefix(ctx, rest),
            _ => {},
        }
    }
}

/// Subtype 0 of main type 4: an integer and a text.
#[derive(Debug)]
pub struct Control4_0 {
    pub field_1: u16,
    pub string: String,
}

impl Control4_0 {
    /// The bytes of the record on the wire.
    pub open spec fn wire(self, ctx: Context) -> Seq<u8> {
        u16_wire(ctx.order, self.field_1) + lp_text_wire(ctx, self.string@)
    }

    /// Every length of the record fits its 16-bit prefix.
    pub open spec fn wf(self, ctx: Context) -> bool {
        lp_text_fits(ctx, self.string@)
    }

    /// How many bytes the record takes at the start of `buf`, or why it cannot be read.
    pub open spec fn extent(ctx: Context, buf: Seq<u8>) -> Result<nat, CodecError> {
        if buf.len() < 2 {
            Err(CodecError::TruncatedInput)
        } else {
            match lp_text_extent(ctx, buf.skip(2)) {
                Err(e) => Err(e),
                Ok(k_string) => {
                    Ok((2 + k_string) as nat)
                },
            }
        }
    }

    /// Reads the record at the start of `buf`.
    pub fn parse(ctx: Context, buf: &[u8]) -> (r: Result<(usize, Self), CodecError>)
        ensures
            match r {
                Ok((n, c)) => Self::extent(ctx, buf@) == Ok::<nat, CodecError>(n as nat) && n <= buf@.len()
                    && c.wire(ctx) == buf@.take(n as int) && c.wf(ctx),
                Err(e) => Self::extent(ctx, buf@) == Err::<nat, CodecError>(e),
            },
    {
        let mut pos: usize = 0;
        if buf.len() - pos < 2 {
            return Err(CodecError::TruncatedInput);
        }
        let ghost at_field_1 = pos;
        let field_1 = get_u16(ctx.order, buf, pos);
        pos = pos + 2;
        let ghost at_string = pos;
        let (string_len, string) = match parse_lp_text(ctx, slice_subrange(buf, pos, buf.len())) {
            Ok(x) => x,
            Err(e) => {
                return Err(e);
            },
        };
        pos = pos + string_len;
        let c = Control4_0 { field_1, string };
        proof {
            lemma_u16_at_wire(ctx.order, buf@, at_field_1 as int);
            assert(c.wire(ctx) =~= buf@.take(pos as int));
        }
        Ok((pos, c))
    }

    /// Appends the record's bytes, or fails when a length does not fit its prefix.
    pub fn write(&self, ctx: Context, out: &mut Vec<u8>) -> (r: Result<(), CodecError>)
        ensures
            r is Ok <==> self.wf(ctx),
            r is Ok ==> final(out)@ == old(out)@ + self.wire(ctx),
            r is Err ==> r == Err::<(), CodecError>(CodecError::FieldTooLong),
            old(out)@.is_prefix_of(final(out)@),
    {
        let ghost start = out@;
        write_u16(ctx.order, self.field_1, out);
        if write_lp_text(ctx, self.string.as_str(), out).is_err() {
            assert(out@.subrange(0, start.len() as int) =~= start);
            return Err(CodecError::FieldTooLong);
        }
        assert(out@ =~= start + self.wire(ctx));
        assert(out@.subrange(0, start.len() as int) =~= start);
        Ok(())
    }

    /// Cutting bytes off the end of `buf`, after the record, does not change how it reads.
    pub proof fn lemma_extent_prefix(ctx: Context, buf: Seq<u8>)
        requires
            Self::extent(ctx, buf) is Ok,
            Self::extent(ctx, buf)->Ok_0 < buf.len(),
        ensures
            Self::extent(ctx, buf.drop_last()) == Self::extent(ctx, buf),
    {
        let rest = buf.skip(2);
        assert(buf.drop_last().skip(2) =~= rest.drop_last());
        assert(buf.drop_last().subrange(0, 2) =~= buf.subrange(0, 2));
        lemma_lp_text_prefix(ctx, rest);
    }
}

/// Subtype 1 of main type 4: a length-prefixed run of bytes.
#[derive(Debug)]
pub struct Control4_1 {
    pub field_1: Vec<u8>,
}

impl Control4_1 {
    /// The bytes of the record on the wire.
    pub open spec fn wire(self, ctx: Context) -> Seq<u8> {
        lp_bytes_wire(ctx.order, self.field_1@)
    }

    /// Every length of the record fits its 16-bit prefix.
    pub open spec fn wf(self, ctx: Context) -> bool {
        lp_bytes_fits(self.field_1@)
    }

    /// How many bytes the record takes at the start of `buf`, or why it cannot be read.
    pub open spec fn extent(ctx: Context, buf: Seq<u8>) -> Result<nat, CodecError> {
        match lp_bytes_extent(ctx.order, buf) {
            Err(e) => Err(e),
            Ok(k_field_1) => {
                Ok((k_field_1) as nat)
            },
        }
    }

    /// Reads the record at the start of `buf`.
    pub fn parse(ctx: Context, buf: &[u8]) -> (r: Result<(usize, Self), CodecError>)
        ensures
            match r {
                Ok((n, c)) => Self::extent(ctx, buf@) == Ok::<nat, CodecError>(n as nat) && n <= buf@.len()
                    && c.wire(ctx) == buf@.take(n as int) && c.wf(ctx),
                Err(e) => Self::extent(ctx, buf@) == Err::<nat, CodecError>(e),
            },
    {
        let mut pos: usize = 0;
        let ghost at_field_1 = pos;
        let (field_1_len, field_1) = match parse_lp_bytes(ctx.order, slice_subrange(buf, pos, buf.len())) {
            Ok(x) => x,
            Err(e) => {
                return Err(e);
            },
        };
        pos = pos + field_1_len;
        let c = Control4_1 { field_1 };
        proof {
            assert(c.wire(ctx) =~= buf@.take(pos as int));
        }
        Ok((pos, c))
    }

    /// Appends the record's bytes, or fails when a length does not fit its prefix.
    pub fn write(&self, ctx: Context, out: &mut Vec<u8>) -> (r: Result<(), CodecError>)
        ensures
            r is Ok <==> self.wf(ctx),
            r is Ok ==> final(out)@ == old(out)@ + self.wire(ctx),
            r is Err ==> r == Err::<(), CodecError>(CodecError::FieldTooLong),
            old(out)@.is_prefix_of(final(out)@),
    {
        let ghost start = out@;
        if write_lp_bytes(ctx.order, self.field_1.as_slice(), out).is_err() {
            assert(out@.subrange(0, start.len() as int) =~= start);
            return Err(CodecError::FieldTooLong);
        }
        assert(out@ =~= start + self.wire(ctx));
        assert(out@.subrange(0, start.len() as int) =~= start);
        Ok(())
    }

    /// Cutting bytes off the end of `buf`, after the record, does not change how it reads.
    pub proof fn lemma_extent_prefix(ctx: Context, buf: Seq<u8>)
        requires
            Self::extent(ctx, buf) is Ok,
            Self::extent(ctx, buf)->Ok_0 < buf.len(),
        ensures
            Self::extent(ctx, buf.drop_last()) == Self::extent(ctx, buf),
    {
        let rest = buf.skip(0);
        assert(buf.drop_last().skip(0) =~= rest.drop_last());
        lemma_lp_bytes_prefix(ctx.order, rest);
    }

    /// The subtype marker, 1.
    pub fn marker(&self) -> (r: u16)
        ensures
            r == 1,
    {
        1
    }
}

/// Subtype 2 of main type 4: one integer.
#[derive(Clone, Copy, Debug, PartialEq, Eq, Structural)]
pub struct Control4_2 {
    pub field_1: u16,
}

impl Control4_2 {
    /// The bytes of the record on the wire.
    pub open spec fn wire(self, ctx: Context) -> Seq<u8> {
        u16_wire(ctx.order, self.field_1)
    }

    /// How many bytes the record takes at the start of `buf`, or why it cannot be read.
    pub open spec fn extent(ctx: Context, buf: Seq<u8>) -> Result<nat, CodecError> {
        if buf.len() >= 2 {
            Ok(2)
        } else {
            Err(CodecError::TruncatedInput)
        }
    }

    /// Reads the record at the start of `buf`.
    pub fn parse(ctx: Context, buf: &[u8]) -> (r: Result<(usize, Self), CodecError>)
        ensures
            match r {
                Ok((n, c)) => Self::extent(ctx, buf@) == Ok::<nat, CodecError>(n as nat) && n <= buf@.len()
                    && c.wire(ctx) == buf@.take(n as int),
                Err(e) => Self::extent(ctx, buf@) == Err::<nat, CodecError>(e),
            },
    {
        if buf.len() < 2 {
            return Err(CodecError::TruncatedInput);
        }
        let field_1 = get_u16(ctx.order, buf, 0);
        let c = Control4_2 { field_1 };
        proof {
            lemma_u16_at_wire(ctx.order, buf@, 0);
            assert(c.wire(ctx) =~= buf@.take(2));
        }
        Ok((2, c))
    }

    /// Appends the record's bytes.
    pub fn write(&self, ctx: Context, out: &mut Vec<u8>)
        ensures
            final(out)@ == old(out)@ + self.wire(ctx),
    {
        write_u16(ctx.order, self.field_1, out);
        assert(final(out)@ =~= old(out)@ + self.wire(ctx));
    }

    /// Cutting bytes off the end of `buf`, after the record, does not change how it reads.
    pub proof fn lemma_extent_prefix(ctx: Context, buf: Seq<u8>)
        requires
            Self::extent(ctx, buf) is Ok,
            Self::extent(ctx, buf)->Ok_0 < buf.len(),
        ensures
            Self::extent(ctx, buf.drop_last()) == Self::extent(ctx, buf),
    {
    }
}

/// Subtype 3 of main type 4: one integer.
#[derive(Clone, Copy, Debug, PartialEq, Eq, Structural)]
pub struct Control4_3 {
    pub field_1: u16,
}

impl Control4_3 {
    /// The bytes of the record on the wire.
    pub open spec fn wire(self, ctx: Context) -> Seq<u8> {
        u16_wire(ctx.order, self.field_1)
    }

    /// How many bytes the record takes at the start of `buf`, or why it cannot be read.
    pub open spec fn extent(ctx: Context, buf: Seq<u8>) -> Result<nat, CodecError> {
        if buf.len() >= 2 {
            Ok(2)
        } else {
            Err(CodecError::TruncatedInput)
        }
    }

    /// Reads the record at the start of `buf`.
    pub fn parse(ctx: Context, buf: &[u8]) -> (r: Result<(usize, Self), CodecError>)
        ensures
            match r {
                Ok((n, c)) => Self::extent(ctx, buf@) == Ok::<nat, CodecError>(n as nat) && n <= buf@.len()
                    && c.wire(ctx) == buf@.take(n as int),
                Err(e) => Self::extent(ctx, buf@) == Err::<nat, CodecError>(e),
            },
    {
        if buf.len() < 2 {
            return Err(CodecError::TruncatedInput);
        }
        let field_1 = get_u16(ctx.order, buf, 0);
        let c = Control4_3 { field_1 };
        proof {
            lemma_u16_at_wire(ctx.order, buf@, 0);
            assert(c.wire(ctx) =~= buf@.take(2));
        }
        Ok((2, c))
    }

    /// Appends the record's bytes.
    pub fn write(&self, ctx: Context, out: &mut Vec<u8>)
        ensures
            final(out)@ == old(out)@ + self.wire(ctx),
    {
        write_u16(ctx.order, self.field_1, out);
        assert(final(out)@ =~= old(out)@ + self.wire(ctx));
    }

    /// Cutting bytes off the end of `buf`, after the record, does not change how it reads.
    pub proof fn lemma_extent_prefix(ctx: Context, buf: Seq<u8>)
        requires
            Self::extent(ctx, buf) is Ok,
            Self::extent(ctx, buf)->Ok_0 < buf.len(),
        ensures
            Self::extent(ctx, buf.drop_last()) == Self::extent(ctx, buf),
    {
    }

    /// The subtype marker, 3.
    pub fn marker(&self) -> (r: u16)
        ensures
            r == 3,
    {
        3
    }
}

} // verus!
