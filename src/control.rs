use vstd::prelude::*;
use vstd::slice::slice_subrange;

use crate::error::{after_u16, CodecError};
use crate::five::Control5;
use crate::four::Control4;
use crate::one::Control1;
use crate::scalar::{lemma_u16_at_wire, get_u16, u16_at, u16_wire, write_u16};
use crate::text::Context;
use crate::three::Control3;
use crate::two::Control2;
use crate::two_hundred_one::Control201;
use crate::zero::Control0;

verus! {

/// The 16-bit unit that opens a control sequence in a value.
pub const SENTINEL: u16 = 0x0E;

/// A control sequence: its main type marker and the record of that type.
#[derive(Debug)]
pub enum Control {
    Zero(Control0),
    One(Control1),
    Two(Control2),
    Three(Control3),
    Four(Control4),
    Five(Control5),
    TwoHundredOne(Control201),
}

impl Control {
    /// The main type marker that stands before the record.
    pub open spec fn spec_marker(self) -> u16 {
        match self {
            Control::Zero(_) => 0,
            Control::One(_) => 1,
            Control::Two(_) => 2,
            Control::Three(_) => 3,
            Control::Four(_) => 4,
            Control::Five(_) => 5,
            Control::TwoHundredOne(_) => 201,
        }
    }

    pub fn marker(&self) -> (r: u16)
        ensures
            r == self.spec_marker(),
    {
        match self {
            Control::Zero(_) => 0,
            Control::One(_) => 1,
            Control::Two(_) => 2,
            Control::Three(_) => 3,
            Control::Four(_) => 4,
            Control::Five(_) => 5,
            Control::TwoHundredOne(_) => 201,
        }
    }

    /// The bytes of the record that follow the main type marker.
    pub open spec fn body_wire(self, ctx: Context) -> Seq<u8> {
        match self {
            Control::Zero(c) => c.wire(ctx),
            Control::One(c) => c.wire(ctx),
            Control::Two(c) => c.wire(ctx),
            Control::Three(c) => c.wire(ctx),
            Control::Four(c) => c.wire(ctx),
            Control::Five(c) => c.wire(ctx),
            Control::TwoHundredOne(c) => c.wire(ctx),
        }
    }

    /// The main type marker followed by the record's bytes.
    pub open spec fn wire(self, ctx: Context) -> Seq<u8> {
        u16_wire(ctx.order, self.spec_marker()) + self.body_wire(ctx)
    }

    /// Every length of the record fits its prefix.
    pub open spec fn wf(self, ctx: Context) -> bool {
        match self {
            Control::Zero(c) => true,
            Control::One(c) => c.wf(ctx),
            Control::Two(c) => c.wf(ctx),
            Control::Three(c) => c.wf(ctx),
            Control::Four(c) => c.wf(ctx),
            Control::Five(c) => true,
            Control::TwoHundredOne(c) => c.wf(ctx),
        }
    }

    /// The record is the one that reading its own bytes gives.
    pub open spec fn canonical(self, ctx: Context) -> bool {
        match self {
            Control::Zero(c) => true,
            Control::One(c) => c.canonical(ctx),
            Control::Two(c) => true,
            Control::Three(c) => true,
            Control::Four(c) => true,
            Control::Five(c) => true,
            Control::TwoHundredOne(c) => true,
        }
    }

    /// How many bytes the record of main type `kind` takes at the start of `rest`, or why it cannot be read.
    pub open spec fn body_extent(ctx: Context, kind: u16, rest: Seq<u8>) -> Result<nat, CodecError> {
        match kind {
            0 => Control0::extent(ctx, rest),
            1 => Control1::extent(ctx, rest),
            2 => Control2::extent(ctx, rest),
            3 => Control3::extent(ctx, rest),
            4 => Control4::extent(ctx, rest),
            5 => Control5::extent(ctx, rest),
            201 => Control201::extent(ctx, rest),
            m => Err(CodecError::UnknownMainType { marker: m }),
        }
    }

    /// How many bytes the main type marker and record take at the start of `buf`, or why they cannot be read.
    pub open spec fn extent(ctx: Context, buf: Seq<u8>) -> Result<nat, CodecError> {
        if buf.len() < 2 {
            Err(CodecError::TruncatedInput)
        } else {
            after_u16(Self::body_extent(ctx, u16_at(ctx.order, buf, 0), buf.skip(2)))
        }
    }

    fn parse_body(ctx: Context, kind: u16, rest: &[u8]) -> (r: Result<(usize, Self), CodecError>)
        ensures
            match r {
                Ok((n, c)) => Self::body_extent(ctx, kind, rest@) == Ok::<nat, CodecError>(n as nat) && n <= rest@.len()
                    && c.spec_marker() == kind && c.body_wire(ctx) == rest@.take(n as int) && c.wf(ctx) && c.canonical(ctx),
                Err(e) => Self::body_extent(ctx, kind, rest@) == Err::<nat, CodecError>(e),
            },
    {
        match kind {
            0 => match Control0::parse(ctx, rest) {
                Ok((n, c)) => Ok((n, Control::Zero(c))),
                Err(e) => Err(e),
            },
            1 => match Control1::parse(ctx, rest) {
                Ok((n, c)) => Ok((n, Control::One(c))),
                Err(e) => Err(e),
            },
            2 => match Control2::parse(ctx, rest) {
                Ok((n, c)) => Ok((n, Control::Two(c))),
                Err(e) => Err(e),
            },
            3 => match Control3::parse(ctx, rest) {
                Ok((n, c)) => Ok((n, Control::Three(c))),
                Err(e) => Err(e),
            },
            4 => match Control4::parse(ctx, rest) {
                Ok((n, c)) => Ok((n, Control::Four(c))),
                Err(e) => Err(e),
            },
            5 => match Control5::parse(ctx, rest) {
                Ok((n, c)) => Ok((n, Control::Five(c))),
                Err(e) => Err(e),
            },
            201 => match Control201::parse(ctx, rest) {
                Ok((n, c)) => Ok((n, Control::TwoHundredOne(c))),
                Err(e) => Err(e),
            },
            _ => Err(CodecError::UnknownMainType { marker: kind }),
        }
    }

    /// Reads a control sequence's body: the main type marker, then its record.
    pub fn parse(ctx: Context, buf: &[u8]) -> (r: Result<(usize, Self), CodecError>)
        ensures
            match r {
                Ok((n, c)) => Self::extent(ctx, buf@) == Ok::<nat, CodecError>(n as nat) && n <= buf@.len()
                    && c.wire(ctx) == buf@.take(n as int) && c.wf(ctx) && c.canonical(ctx),
                Err(e) => Self::extent(ctx, buf@) == Err::<nat, CodecError>(e),
            },
    {
        if buf.len() < 2 {
            return Err(CodecError::TruncatedInput);
        }
        let kind = get_u16(ctx.order, buf, 0);
        match Self::parse_body(ctx, kind, slice_subrange(buf, 2, buf.len())) {
            Ok((n, c)) => {
                proof {
                    lemma_u16_at_wire(ctx.order, buf@, 0);
                    assert(c.wire(ctx) =~= buf@.take(n + 2));
                }
                Ok((n + 2, c))
            },
            Err(e) => Err(e),
        }
    }

    /// Appends the sentinel unit, the main type marker, then the record, or fails when a
    /// length does not fit its prefix.
    pub fn write(&self, ctx: Context, out: &mut Vec<u8>) -> (r: Result<(), CodecError>)
        ensures
            r is Ok <==> self.wf(ctx),
            r is Ok ==> final(out)@ == old(out)@ + u16_wire(ctx.order, SENTINEL) + self.wire(ctx),
            r is Err ==> r == Err::<(), CodecError>(CodecError::FieldTooLong),
            old(out)@.is_prefix_of(final(out)@),
    {
        let ghost start = out@;
        write_u16(ctx.order, SENTINEL, out);
        write_u16(ctx.order, self.marker(), out);
        let r = match self {
            Control::Zero(c) => {
                c.write(ctx, out);
                Ok(())
            },
            Control::One(c) => c.write(ctx, out),
            Control::Two(c) => c.write(ctx, out),
            Control::Three(c) => c.write(ctx, out),
            Control::Four(c) => c.write(ctx, out),
            Control::Five(c) => {
                c.write(ctx, out);
                Ok(())
            },
            Control::TwoHundredOne(c) => c.write(ctx, out),
        };
        assert(start.is_prefix_of(out@));
        proof {
            if r is Ok {
                assert(out@ =~= start + u16_wire(ctx.order, SENTINEL) + self.wire(ctx));
            }
        }
        r
    }

    /// Cutting bytes off the end of `buf`, after the record, does not change how it reads.
    pub proof fn lemma_extent_prefix(ctx: Context, buf: Seq<u8>)
        requires
            Self::extent(ctx, buf) is Ok,
            Self::extent(ctx, buf)->Ok_0 < buf.len(),
        ensures
            Self::extent(ctx, buf.drop_last()) == Self::extent(ctx, buf),
    {
        let rest = buf.skip(2);
        assert(buf.drop_last().skip(2) =~= rest.drop_last());
        assert(buf.drop_last().subrange(0, 2) =~= buf.subrange(0, 2));
        match u16_at(ctx.order, buf, 0) {
            0 => Control0::lemma_extent_prefix(ctx, rest),
            1 => Control1::lemma_extent_prefix(ctx, rest),
            2 => Control2::lemma_extent_prefix(ctx, rest),
            3 => Control3::lemma_extent_prefix(ctx, rest),
            4 => Control4::lemma_extent_prefix(ctx, rest),
            5 => Control5::lemma_extent_prefix(ctx, rest),
            201 => Control201::lemma_extent_prefix(ctx, rest),
            _ => {},
        }
    }
}

} // verus!
