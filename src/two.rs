use vstd::prelude::*;
use vstd::slice::slice_subrange;

use crate::error::{after_u16, CodecError};
use crate::scalar::{lemma_u16_at_wire, get_u16, u16_at, u16_wire, write_u16};
use crate::text::{lemma_lp_text_prefix, lp_text_extent, lp_text_fits, lp_text_wire, parse_lp_text, write_lp_text, Context};

verus! {

/// Main type 2: a sparse set of subtypes sharing two record layouts.
#[derive(Debug)]
pub enum Control2 {
    Type1(Control2Variable),
    Type2(Control2Variable),
    Type3(Control2OneField),
    Type4(Control2OneField),
    Type7(Control2OneField),
    Type8(Control2OneField),
    Type9(Control2Variable),
    Type10(Control2OneField),
    Type11(Control2Variable),
    Type13(Control2OneField),
    Type14(Control2Variable),
    Type15(Control2Variable),
    Type16(Control2Variable),
    Type17(Control2Variable),
    Type18(Control2Variable),
    Type19(Control2Variable),
}

impl Control2 {
    /// The subtype marker that stands before the record.
    pub open spec fn spec_subtype(self) -> u16 {
        match self {
            Control2::Type1(_) => 1,
            Control2::Type2(_) => 2,
            Control2::Type3(_) => 3,
            Control2::Type4(_) => 4,
            Control2::Type7(_) => 7,
            Control2::Type8(_) => 8,
            Control2::Type9(_) => 9,
            Control2::Type10(_) => 10,
            Control2::Type11(_) => 11,
            Control2::Type13(_) => 13,
            Control2::Type14(_) => 14,
            Control2::Type15(_) => 15,
            Control2::Type16(_) => 16,
            Control2::Type17(_) => 17,
            Control2::Type18(_) => 18,
            Control2::Type19(_) => 19,
        }
    }

    /// The main type marker, 2.
    pub fn marker(&self) -> (r: u16)
        ensures
            r == 2,
    {
        2
    }

    pub fn subtype_marker(&self) -> (r: u16)
        ensures
            r == self.spec_subtype(),
    {
        match self {
            Control2::Type1(_) => 1,
            Control2::Type2(_) => 2,
            Control2::Type3(_) => 3,
            Control2::Type4(_) => 4,
            Control2::Type7(_) => 7,
            Control2::Type8(_) => 8,
            Control2::Type9(_) => 9,
            Control2::Type10(_) => 10,
            Control2::Type11(_) => 11,
            Control2::Type13(_) => 13,
            Control2::Type14(_) => 14,
            Control2::Type15(_) => 15,
            Control2::Type16(_) => 16,
            Control2::Type17(_) => 17,
            Control2::Type18(_) => 18,
            Control2::Type19(_) => 19,
        }
    }

    /// The bytes of the record that follow the subtype marker.
    pub open spec fn body_wire(self, ctx: Context) -> Seq<u8> {
        match self {
            Control2::Type1(c) => c.wire(ctx),
            Control2::Type2(c) => c.wire(ctx),
            Control2::Type3(c) => c.wire(ctx),
            Control2::Type4(c) => c.wire(ctx),
            Control2::Type7(c) => c.wire(ctx),
            Control2::Type8(c) => c.wire(ctx),
            Control2::Type9(c) => c.wire(ctx),
            Control2::Type10(c) => c.wire(ctx),
            Control2::Type11(c) => c.wire(ctx),
            Control2::Type13(c) => c.wire(ctx),
            Control2::Type14(c) => c.wire(ctx),
            Control2::Type15(c) => c.wire(ctx),
            Control2::Type16(c) => c.wire(ctx),
            Control2::Type17(c) => c.wire(ctx),
            Control2::Type18(c) => c.wire(ctx),
            Control2::Type19(c) => c.wire(ctx),
        }
    }

    /// The subtype marker followed by the record's bytes.
    pub open spec fn wire(self, ctx: Context) -> Seq<u8> {
        u16_wire(ctx.order, self.spec_subtype()) + self.body_wire(ctx)
    }

    /// Every length of the record fits its prefix.
    pub open spec fn wf(self, ctx: Context) -> bool {
        match self {
            Control2::Type1(c) => c.wf(ctx),
            Control2::Type2(c) => c.wf(ctx),
            Control2::Type3(c) => true,
            Control2::Type4(c) => true,
            Control2::Type7(c) => true,
            Control2::Type8(c) => true,
            Control2::Type9(c) => c.wf(ctx),
            Control2::Type10(c) => true,
            Control2::Type11(c) => c.wf(ctx),
            Control2::Type13(c) => true,
            Control2::Type14(c) => c.wf(ctx),
            Control2::Type15(c) => c.wf(ctx),
            Control2::Type16(c) => c.wf(ctx),
            Control2::Type17(c) => c.wf(ctx),
            Control2::Type18(c) => c.wf(ctx),
            Control2::Type19(c) => c.wf(ctx),
        }
    }

    /// How many bytes the record of subtype `kind` takes at the start of `rest`, or why it cannot be read.
    pub open spec fn body_extent(ctx: Context, kind: u16, rest: Seq<u8>) -> Result<nat, CodecError> {
        match kind {
            1 => Control2Variable::extent(ctx, rest),
            2 => Control2Variable::extent(ctx, rest),
            3 => Control2OneField::extent(ctx, rest),
            4 => Control2OneField::extent(ctx, rest),
            7 => Control2OneField::extent(ctx, rest),
            8 => Control2OneField::extent(ctx, rest),
            9 => Control2Variable::extent(ctx, rest),
            10 => Control2OneField::extent(ctx, rest),
            11 => Control2Variable::extent(ctx, rest),
            13 => Control2OneField::extent(ctx, rest),
            14 => Control2Variable::extent(ctx, rest),
            15 => Control2Variable::extent(ctx, rest),
            16 => Control2Variable::extent(ctx, rest),
            17 => Control2Variable::extent(ctx, rest),
            18 => Control2Variable::extent(ctx, rest),
            19 => Control2Variable::extent(ctx, rest),
            m => Err(CodecError::UnknownSubtype { main: 2, marker: m }),
        }
    }

    /// How many bytes the subtype marker and record take at the start of `buf`, or why they cannot be read.
    pub open spec fn extent(ctx: Context, buf: Seq<u8>) -> Result<nat, CodecError> {
        if buf.len() < 2 {
            Err(CodecError::TruncatedInput)
        } else {
            after_u16(Self::body_extent(ctx, u16_at(ctx.order, buf, 0), buf.skip(2)))
        }
    }

    fn parse_body(ctx: Context, kind: u16, rest: &[u8]) -> (r: Result<(usize, Self), CodecError>)
        ensures
            match r {
                Ok((n, c)) => Self::body_extent(ctx, kind, rest@) == Ok::<nat, CodecError>(n as nat) && n <= rest@.len()
                    && c.spec_subtype() == kind && c.body_wire(ctx) == rest@.take(n as int) && c.wf(ctx),
                Err(e) => Self::body_extent(ctx, kind, rest@) == Err::<nat, CodecError>(e),
            },
    {
        match kind {
            1 => match Control2Variable::parse(ctx, rest) {
                Ok((n, c)) => Ok((n, Control2::Type1(c))),
                Err(e) => Err(e),
            },
            2 => match Control2Variable::parse(ctx, rest) {
                Ok((n, c)) => Ok((n, Control2::Type2(c))),
                Err(e) => Err(e),
            },
            3 => match Control2OneField::parse(ctx, rest) {
                Ok((n, c)) => Ok((n, Control2::Type3(c))),
                Err(e) => Err(e),
            },
            4 => match Control2OneField::parse(ctx, rest) {
                Ok((n, c)) => Ok((n, Control2::Type4(c))),
                Err(e) => Err(e),
            },
            7 => match Control2OneField::parse(ctx, rest) {
                Ok((n, c)) => Ok((n, Control2::Type7(c))),
                Err(e) => Err(e),
            },
            8 => match Control2OneField::parse(ctx, rest) {
                Ok((n, c)) => Ok((n, Control2::Type8(c))),
                Err(e) => Err(e),
            },
            9 => match Control2Variable::parse(ctx, rest) {
                Ok((n, c)) => Ok((n, Control2::Type9(c))),
                Err(e) => Err(e),
            },
            10 => match Control2OneField::parse(ctx, rest) {
                Ok((n, c)) => Ok((n, Control2::Type10(c))),
                Err(e) => Err(e),
            },
            11 => match Control2Variable::parse(ctx, rest) {
                Ok((n, c)) => Ok((n, Control2::Type11(c))),
                Err(e) => Err(e),
            },
            13 => match Control2OneField::parse(ctx, rest) {
                Ok((n, c)) => Ok((n, Control2::Type13(c))),
                Err(e) => Err(e),
            },
            14 => match Control2Variable::parse(ctx, rest) {
                Ok((n, c)) => Ok((n, Control2::Type14(c))),
                Err(e) => Err(e),
            },
            15 => match Control2Variable::parse(ctx, rest) {
                Ok((n, c)) => Ok((n, Control2::Type15(c))),
                Err(e) => Err(e),
            },
            16 => match Control2Variable::parse(ctx, rest) {
                Ok((n, c)) => Ok((n, Control2::Type16(c))),
                Err(e) => Err(e),
            },
            17 => match Control2Variable::parse(ctx, rest) {
                Ok((n, c)) => Ok((n, Control2::Type17(c))),
                Err(e) => Err(e),
            },
            18 => match Control2Variable::parse(ctx, rest) {
                Ok((n, c)) => Ok((n, Control2::Type18(c))),
                Err(e) => Err(e),
            },
            19 => match Control2Variable::parse(ctx, rest) {
                Ok((n, c)) => Ok((n, Control2::Type19(c))),
                Err(e) => Err(e),
            },
            _ => Err(CodecError::UnknownSubtype { main: 2, marker: kind }),
        }
    }

    /// Reads the subtype marker and the record that follows it.
    pub fn parse(ctx: Context, buf: &[u8]) -> (r: Result<(usize, Self), CodecError>)
        ensures
            match r {
                Ok((n, c)) => Self::extent(ctx, buf@) == Ok::<nat, CodecError>(n as nat) && n <= buf@.len()
                    && c.wire(ctx) == buf@.take(n as int) && c.wf(ctx),
                Err(e) => Self::extent(ctx, buf@) == Err::<nat, CodecError>(e),
            },
    {
        if buf.len() < 2 {
            return Err(CodecError::TruncatedInput);
        }
        let kind = get_u16(ctx.order, buf, 0);
        match Self::parse_body(ctx, kind, slice_subrange(buf, 2, buf.len())) {
            Ok((n, c)) => {
                proof {
                    lemma_u16_at_wire(ctx.order, buf@, 0);
                    assert(c.wire(ctx) =~= buf@.take(n + 2));
                }
                Ok((n + 2, c))
            },
            Err(e) => Err(e),
        }
    }

    #[verifier::rlimit(100)]
    /// Appends the subtype marker and the record, or fails when a length does not fit its prefix.
    pub fn write(&self, ctx: Context, out: &mut Vec<u8>) -> (r: Result<(), CodecError>)
        ensures
            r is Ok <==> self.wf(ctx),
            r is Ok ==> final(out)@ == old(out)@ + self.wire(ctx),
            r is Err ==> r == Err::<(), CodecError>(CodecError::FieldTooLong),
            old(out)@.is_prefix_of(final(out)@),
    {
        let ghost start = out@;
        write_u16(ctx.order, self.subtype_marker(), out);
        let r = match self {
            Control2::Type1(c) => c.write(ctx, out),
            Control2::Type2(c) => c.write(ctx, out),
            Control2::Type3(c) => {
                c.write(ctx, out);
                Ok(())
            },
            Control2::Type4(c) => {
                c.write(ctx, out);
                Ok(())
            },
            Control2::Type7(c) => {
                c.write(ctx, out);
                Ok(())
            },
            Control2::Type8(c) => {
                c.write(ctx, out);
                Ok(())
            },
            Control2::Type9(c) => c.write(ctx, out),
            Control2::Type10(c) => {
                c.write(ctx, out);
                Ok(())
            },
            Control2::Type11(c) => c.write(ctx, out),
            Control2::Type13(c) => {
                c.write(ctx, out);
                Ok(())
            },
            Control2::Type14(c) => c.write(ctx, out),
            Control2::Type15(c) => c.write(ctx, out),
            Control2::Type16(c) => c.write(ctx, out),
            Control2::Type17(c) => c.write(ctx, out),
            Control2::Type18(c) => c.write(ctx, out),
            Control2::Type19(c) => c.write(ctx, out),
        };
        assert(start.is_prefix_of(out@));
        proof {
            if r is Ok {
                assert(out@ =~= start + self.wire(ctx));
            }
        }
        r
    }

    /// Cutting bytes off the end of `buf`, after the record, does not change how it reads.
    pub proof fn lemma_extent_prefix(ctx: Context, buf: Seq<u8>)
        requires
            Self::extent(ctx, buf) is Ok,
            Self::extent(ctx, buf)->Ok_0 < buf.len(),
        ensures
            Self::extent(ctx, buf.drop_last()) == Self::extent(ctx, buf),
    {
        let rest = buf.skip(2);
        assert(buf.drop_last().skip(2) =~= rest.drop_last());
        assert(buf.drop_last().subrange(0, 2) =~= buf.subrange(0, 2));
        match u16_at(ctx.order, buf, 0) {
            1 => Control2Variable::lemma_extent_prefix(ctx, rest),
            2 => Control2Variable::lemma_extent_prefix(ctx, rest),
            3 => Control2OneField::lemma_extent_prefix(ctx, rest),
            4 => Control2OneField::lemma_extent_prefix(ctx, rest),
            7 => Control2OneField::lemma_extent_prefix(ctx, rest),
            8 => Control2OneField::lemma_extent_prefix(ctx, rest),
            9 => Control2Variable::lemma_extent_prefix(ctx, rest),
            10 => Control2OneField::lemma_extent_prefix(ctx, rest),
            11 => Control2Variable::lemma_extent_prefix(ctx, rest),
            13 => Control2OneField::lemma_extent_prefix(ctx, rest),
            14 => Control2Variable::lemma_extent_prefix(ctx, rest),
            15 => Control2Variable::lemma_extent_prefix(ctx, rest),
            16 => Control2Variable::lemma_extent_prefix(ctx, rest),
            17 => Control2Variable::lemma_extent_prefix(ctx, rest),
            18 => Control2Variable::lemma_extent_prefix(ctx, rest),
            19 => Control2Variable::lemma_extent_prefix(ctx, rest),
            _ => {},
        }
    }
}

/// A subtype of main type 2 that holds one integer.
#[derive(Clone, Copy, Debug, PartialEq, Eq, Structural)]
pub struct Control2OneField {
    pub field_1: u16,
}

impl Control2OneField {
    /// The bytes of the record on the wire.
    pub open spec fn wire(self, ctx: Context) -> Seq<u8> {
        u16_wire(ctx.order, self.field_1)
    }

    /// How many bytes the record takes at the start of `buf`, or why it cannot be read.
    pub open spec fn extent(ctx: Context, buf: Seq<u8>) -> Result<nat, CodecError> {
        if buf.len() >= 2 {
            Ok(2)
        } else {
            Err(CodecError::TruncatedInput)
        }
    }

    /// Reads the record at the start of `buf`.
    pub fn parse(ctx: Context, buf: &[u8]) -> (r: Result<(usize, Self), CodecError>)
        ensures
            match r {
                Ok((n, c)) => Self::extent(ctx, buf@) == Ok::<nat, CodecError>(n as nat) && n <= buf@.len()
                    && c.wire(ctx) == buf@.take(n as int),
                Err(e) => Self::extent(ctx, buf@) == Err::<nat, CodecError>(e),
            },
    {
        if buf.len() < 2 {
            return Err(CodecError::TruncatedInput);
        }
        let field_1 = get_u16(ctx.order, buf, 0);
        let c = Control2OneField { field_1 };
        proof {
            lemma_u16_at_wire(ctx.order, buf@, 0);
            assert(c.wire(ctx) =~= buf@.take(2));
        }
        Ok((2, c))
    }

    /// Appends the record's bytes.
    pub fn write(&self, ctx: Context, out: &mut Vec<u8>)
        ensures
            final(out)@ == old(out)@ + self.wire(ctx),
    {
        write_u16(ctx.order, self.field_1, out);
        assert(final(out)@ =~= old(out)@ + self.wire(ctx));
    }

    /// Cutting bytes off the end of `buf`, after the record, does not change how it reads.
    pub proof fn lemma_extent_prefix(ctx: Context, buf: Seq<u8>)
        requires
            Self::extent(ctx, buf) is Ok,
            Self::extent(ctx, buf)->Ok_0 < buf.len(),
        ensures
            Self::extent(ctx, buf.drop_last()) == Self::extent(ctx, buf),
    {
    }
}

/// A subtype of main type 2 that holds a text between two integers.
#[derive(Debug)]
pub struct Control2Variable {
    pub field_1: u16,
    pub string: String,
    pub field_3: u16,
}

impl Control2Variable {
    /// The bytes of the record on the wire.
    pub open spec fn wire(self, ctx: Context) -> Seq<u8> {
        u16_wire(ctx.order, self.field_1) + lp_text_wire(ctx, self.string@) + u16_wire(ctx.order, self.field_3)
    }

    /// Every length of the record fits its 16-bit prefix.
    pub open spec fn wf(self, ctx: Context) -> bool {
        lp_text_fits(ctx, self.string@)
    }

    /// How many bytes the record takes at the start of `buf`, or why it cannot be read.
    pub open spec fn extent(ctx: Context, buf: Seq<u8>) -> Result<nat, CodecError> {
        if buf.len() < 2 {
            Err(CodecError::TruncatedInput)
        } else {
            match lp_text_extent(ctx, buf.skip(2)) {
                Err(e) => Err(e),
                Ok(k_string) => {
                    if buf.len() < 4 + k_string {
                        Err(CodecError::TruncatedInput)
                    } else {
                        Ok((4 + k_string) as nat)
                    }
                },
            }
        }
    }

    /// Reads the record at the start of `buf`.
    pub fn parse(ctx: Context, buf: &[u8]) -> (r: Result<(usize, Self), CodecError>)
        ensures
            match r {
                Ok((n, c)) => Self::extent(ctx, buf@) == Ok::<nat, CodecError>(n as nat) && n <= buf@.len()
                    && c.wire(ctx) == buf@.take(n as int) && c.wf(ctx),
                Err(e) => Self::extent(ctx, buf@) == Err::<nat, CodecError>(e),
            },
    {
        let mut pos: usize = 0;
        if buf.len() - pos < 2 {
            return Err(CodecError::TruncatedInput);
        }
        let ghost at_field_1 = pos;
        let field_1 = get_u16(ctx.order, buf, pos);
        pos = pos + 2;
        let ghost at_string = pos;
        let (string_len, string) = match parse_lp_text(ctx, slice_subrange(buf, pos, buf.len())) {
            Ok(x) => x,
            Err(e) => {
                return Err(e);
            },
        };
        pos = pos + string_len;
        if buf.len() - pos < 2 {
            return Err(CodecError::TruncatedInput);
        }
        let ghost at_field_3 = pos;
        let field_3 = get_u16(ctx.order, buf, pos);
        pos = pos + 2;
        let c = Control2Variable { field_1, string, field_3 };
        proof {
            lemma_u16_at_wire(ctx.order, buf@, at_field_1 as int);
            lemma_u16_at_wire(ctx.order, buf@, at_field_3 as int);
            assert(c.wire(ctx) =~= buf@.take(pos as int));
        }
        Ok((pos, c))
    }

    /// Appends the record's bytes, or fails when a length does not fit its prefix.
    pub fn write(&self, ctx: Context, out: &mut Vec<u8>) -> (r: Result<(), CodecError>)
        ensures
            r is Ok <==> self.wf(ctx),
            r is Ok ==> final(out)@ == old(out)@ + self.wire(ctx),
            r is Err ==> r == Err::<(), CodecError>(CodecError::FieldTooLong),
            old(out)@.is_prefix_of(final(out)@),
    {
        let ghost start = out@;
        write_u16(ctx.order, self.field_1, out);
        if write_lp_text(ctx, self.string.as_str(), out).is_err() {
            assert(out@.subrange(0, start.len() as int) =~= start);
            return Err(CodecError::FieldTooLong);
        }
        write_u16(ctx.order, self.field_3, out);
        assert(out@ =~= start + self.wire(ctx));
        assert(out@.subrange(0, start.len() as int) =~= start);
        Ok(())
    }

    /// Cutting bytes off the end of `buf`, after the record, does not change how it reads.
    pub proof fn lemma_extent_prefix(ctx: Context, buf: Seq<u8>)
        requires
            Self::extent(ctx, buf) is Ok,
            Self::extent(ctx, buf)->Ok_0 < buf.len(),
        ensures
            Self::extent(ctx, buf.drop_last()) == Self::extent(ctx, buf),
    {
        let rest = buf.skip(2);
        assert(buf.drop_last().skip(2) =~= rest.drop_last());
        assert(buf.drop_last().subrange(0, 2) =~= buf.subrange(0, 2));
        lemma_lp_text_prefix(ctx, rest);
    }
}

} // verus!
