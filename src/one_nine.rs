use vstd::prelude::*;
use vstd::slice::slice_subrange;

use crate::error::CodecError;
use crate::scalar::{
    lemma_u16_at_wire, read_pair, get_u16, u16_at, u16_wire, write_bytes, write_pair, write_u16,
};
use crate::text::{lemma_lp_text_prefix, lp_text_extent, lp_text_fits, lp_text_wire, parse_lp_text, write_lp_text, Context};

verus! {

/// One of the four texts of subtype 9 of main type 1: an integer and a text.
#[derive(Debug)]
pub struct Control1_9String {
    pub field_1: u16,
    pub string: String,
}

impl Control1_9String {
    /// The bytes of the record on the wire.
    pub open spec fn wire(self, ctx: Context) -> Seq<u8> {
        u16_wire(ctx.order, self.field_1) + lp_text_wire(ctx, self.string@)
    }

    /// Every length of the record fits its 16-bit prefix.
    pub open spec fn wf(self, ctx: Context) -> bool {
        lp_text_fits(ctx, self.string@)
    }

    /// How many bytes the record takes at the start of `buf`, or why it cannot be read.
    pub open spec fn extent(ctx: Context, buf: Seq<u8>) -> Result<nat, CodecError> {
        if buf.len() < 2 {
            Err(CodecError::TruncatedInput)
        } else {
            match lp_text_extent(ctx, buf.skip((2) as int)) {
                Err(e) => Err(e),
                Ok(k_string) => {
                    Ok((2 + k_string) as nat)
                },
            }
        }
    }

    /// Cutting bytes off the end of `buf`, after the record, does not change how it reads.
    pub proof fn lemma_extent_prefix(ctx: Context, buf: Seq<u8>)
        requires
            Self::extent(ctx, buf) is Ok,
            Self::extent(ctx, buf)->Ok_0 < buf.len(),
        ensures
            Self::extent(ctx, buf.drop_last()) == Self::extent(ctx, buf),
    {
        let rest = buf.skip(2);
        assert(buf.drop_last().skip(2) =~= rest.drop_last());
        assert(buf.drop_last().subrange(0, 2) =~= buf.subrange(0, 2));
        lemma_lp_text_prefix(ctx, rest);
    }

    /// Reads the record at the start of `buf`.
    pub fn parse(ctx: Context, buf: &[u8]) -> (r: Result<(usize, Self), CodecError>)
        ensures
            match r {
                Ok((n, c)) => Self::extent(ctx, buf@) == Ok::<nat, CodecError>(n as nat) && n <= buf@.len()
                    && c.wire(ctx) == buf@.take(n as int) && c.wf(ctx),
                Err(e) => Self::extent(ctx, buf@) == Err::<nat, CodecError>(e),
            },
    {
        let mut pos: usize = 0;
        if buf.len() - pos < 2 {
            return Err(CodecError::TruncatedInput);
        }
        let ghost at_field_1 = pos;
        let field_1 = get_u16(ctx.order, buf, pos);
        pos = pos + 2;
        let ghost at_string = pos;
        let (string_len, string) = match parse_lp_text(ctx, slice_subrange(buf, pos, buf.len())) {
            Ok(x) => x,
            Err(e) => {
                return Err(e);
            },
        };
        pos = pos + string_len;
        let c = Control1_9String { field_1, string };
        proof {
            lemma_u16_at_wire(ctx.order, buf@, at_field_1 as int);
            assert(c.wire(ctx) =~= buf@.take(pos as int));
        }
        Ok((pos, c))
    }

    /// Appends the record's bytes, or fails when a length does not fit its prefix.
    pub fn write(&self, ctx: Context, out: &mut Vec<u8>) -> (r: Result<(), CodecError>)
        ensures
            r is Ok <==> self.wf(ctx),
            r is Ok ==> final(out)@ == old(out)@ + self.wire(ctx),
            r is Err ==> r == Err::<(), CodecError>(CodecError::FieldTooLong),
            old(out)@.is_prefix_of(final(out)@),
    {
        let ghost start = out@;
        write_u16(ctx.order, self.field_1, out);
        if write_lp_text(ctx, self.string.as_str(), out).is_err() {
            assert(out@.subrange(0, start.len() as int) =~= start);
            return Err(CodecError::FieldTooLong);
        }
        assert(out@ =~= start + self.wire(ctx));
        assert(out@.subrange(0, start.len() as int) =~= start);
        Ok(())
    }
}

/// The twelve bytes of an optional sentinel block.
pub open spec fn sentinel_12() -> Seq<u8> {
    seq![255u8, 255u8, 0u8, 0u8, 255u8, 255u8, 0u8, 0u8, 255u8, 255u8, 0u8, 0u8]
}

/// The bytes of an optional 12-byte block.
pub open spec fn opt_block_wire(b: Option<[u8; 12]>) -> Seq<u8> {
    match b {
        Some(x) => x@,
        None => Seq::empty(),
    }
}

/// The bytes of a run of texts.
pub open spec fn strings_wire(ctx: Context, ss: Seq<Control1_9String>) -> Seq<u8>
    decreases ss.len(),
{
    if ss.len() == 0 {
        Seq::empty()
    } else {
        strings_wire(ctx, ss.drop_last()) + ss.last().wire(ctx)
    }
}

/// Where `count` texts that start at `pos` end, or why they cannot be read.
pub open spec fn strings_extent(ctx: Context, buf: Seq<u8>, pos: nat, count: nat) -> Result<
    nat,
    CodecError,
>
    decreases count,
{
    if count == 0 {
        Ok(pos)
    } else {
        match Control1_9String::extent(ctx, buf.skip(pos as int)) {
            Err(e) => Err(e),
            Ok(k) => strings_extent(ctx, buf, pos + k, (count - 1) as nat),
        }
    }
}

proof fn lemma_strings_extent_ge(ctx: Context, buf: Seq<u8>, pos: nat, count: nat)
    ensures
        strings_extent(ctx, buf, pos, count) is Ok ==> strings_extent(ctx, buf, pos, count)->Ok_0
            >= pos + 4 * count,
    decreases count,
{
    if count > 0 {
        if let Ok(k) = Control1_9String::extent(ctx, buf.skip(pos as int)) {
            lemma_strings_extent_ge(ctx, buf, pos + k, (count - 1) as nat);
        }
    }
}

proof fn lemma_strings_prefix(ctx: Context, buf: Seq<u8>, pos: nat, count: nat)
    requires
        strings_extent(ctx, buf, pos, count) is Ok,
        strings_extent(ctx, buf, pos, count)->Ok_0 < buf.len(),
    ensures
        strings_extent(ctx, buf.drop_last(), pos, count) == strings_extent(ctx, buf, pos, count),
    decreases count,
{
    if count > 0 {
        let k = Control1_9String::extent(ctx, buf.skip(pos as int))->Ok_0;
        lemma_strings_extent_ge(ctx, buf, pos + k, (count - 1) as nat);
        Control1_9String::lemma_extent_prefix(ctx, buf.skip(pos as int));
        assert(buf.drop_last().skip(pos as int) =~= buf.skip(pos as int).drop_last());
        lemma_strings_prefix(ctx, buf, pos + k, (count - 1) as nat);
    }
}

proof fn lemma_strings_wire_len(ctx: Context, ss: Seq<Control1_9String>)
    ensures
        strings_wire(ctx, ss).len() >= 4 * ss.len(),
    decreases ss.len(),
{
    if ss.len() > 0 {
        lemma_strings_wire_len(ctx, ss.drop_last());
    }
}

/// True when the twelve bytes at `pos` are the sentinel block.
fn sentinel_12_at(buf: &[u8], pos: usize) -> (r: bool)
    requires
        pos + 12 <= buf@.len(),
    ensures
        r == (buf@.subrange(pos as int, pos + 12) == sentinel_12()),
{
    assert(buf@.len() == buf.len());
    let mut i: usize = 0;
    while i < 12
        invariant
            i <= 12,
            pos + 12 <= buf@.len(),
            buf@.len() == buf.len(),
            forall|j: int| 0 <= j < i ==> buf@[pos + j] == sentinel_12()[j],
        decreases 12 - i,
    {
        let want: u8 = if i % 4 < 2 {
            255
        } else {
            0
        };
        assert(want == sentinel_12()[i as int]);
        if buf[pos + i] != want {
            assert(buf@.subrange(pos as int, pos + 12)[i as int] != sentinel_12()[i as int]);
            return false;
        }
        i = i + 1;
    }
    assert(buf@.subrange(pos as int, pos + 12) =~= sentinel_12());
    true
}

/// Reads four texts starting at `start`; on success gives where they end.
fn parse_strings(ctx: Context, buf: &[u8], start: usize) -> (r: Result<
    (usize, [Control1_9String; 4]),
    CodecError,
>)
    requires
        start <= buf@.len(),
    ensures
        match r {
            Ok((end, ss)) => strings_extent(ctx, buf@, start as nat, 4) == Ok::<nat, CodecError>(
                end as nat,
            ) && start <= end <= buf@.len() && strings_wire(ctx, ss@) == buf@.subrange(
                start as int,
                end as int,
            ) && (forall|i: int| 0 <= i < 4 ==> #[trigger] ss@[i].wf(ctx)),
            Err(e) => strings_extent(ctx, buf@, start as nat, 4) == Err::<nat, CodecError>(e),
        },
{
    let mut v: Vec<Control1_9String> = Vec::new();
    let mut pos: usize = start;
    let mut i: usize = 0;
    assert(buf@.subrange(start as int, start as int) =~= strings_wire(ctx, v@));
    while i < 4
        invariant
            i <= 4,
            v@.len() == i,
            start <= pos <= buf@.len(),
            strings_extent(ctx, buf@, start as nat, 4) == strings_extent(
                ctx,
                buf@,
                pos as nat,
                (4 - i) as nat,
            ),
            strings_wire(ctx, v@) == buf@.subrange(start as int, pos as int),
            forall|j: int| 0 <= j < i ==> #[trigger] v@[j].wf(ctx),
        decreases 4 - i,
    {
        let (k, s) = match Control1_9String::parse(ctx, slice_subrange(buf, pos, buf.len())) {
            Ok(x) => x,
            Err(e) => {
                return Err(e);
            },
        };
        let ghost old_v = v@;
        v.push(s);
        assert(v@.drop_last() =~= old_v);
        assert(buf@.subrange(start as int, pos + k) =~= buf@.subrange(start as int, pos as int)
            + buf@.skip(pos as int).take(k as int));
        pos = pos + k;
        i = i + 1;
    }
    let ghost full = v@;
    assert(strings_extent(ctx, buf@, pos as nat, 0) == Ok::<nat, CodecError>(pos as nat));
    let s3 = v.pop().unwrap();
    let s2 = v.pop().unwrap();
    let s1 = v.pop().unwrap();
    let s0 = v.pop().unwrap();
    let ghost all = seq![s0, s1, s2, s3];
    let ss = [s0, s1, s2, s3];
    assert(all =~= full);
    assert(ss@ =~= all);
    Ok((pos, ss))
}

/// Subtype 9 of main type 1: four texts, four integers and two optional sentinel
/// blocks whose presence is only seen from the bytes, behind one 16-bit length.
#[derive(Debug)]
pub struct Control1_9 {
    pub unknown_1: Option<[u8; 12]>,
    pub strings: [Control1_9String; 4],
    pub field_4: u16,
    pub field_5: u16,
    pub unknown_2: Option<[u8; 12]>,
    pub field_6: [u8; 2],
}

impl Control1_9 {
    /// The bytes of the record after its length field.
    pub open spec fn body_wire(self, ctx: Context) -> Seq<u8> {
        opt_block_wire(self.unknown_1) + strings_wire(ctx, self.strings@) + u16_wire(
            ctx.order,
            self.field_4,
        ) + u16_wire(ctx.order, self.field_5) + opt_block_wire(self.unknown_2) + self.field_6@
    }

    /// The bytes of the record on the wire.
    pub open spec fn wire(self, ctx: Context) -> Seq<u8> {
        u16_wire(ctx.order, self.body_wire(ctx).len() as u16) + self.body_wire(ctx)
    }

    /// Every length of the record fits its 16-bit prefix.
    pub open spec fn wf(self, ctx: Context) -> bool {
        &&& forall|i: int| 0 <= i < 4 ==> #[trigger] self.strings@[i].wf(ctx)
        &&& self.body_wire(ctx).len() <= 0xFFFF
    }

    /// The record is the one that reading its own bytes gives: a block that is
    /// there is the sentinel block, and where the first is missing the texts do not
    /// begin with one.
    pub open spec fn canonical(self, ctx: Context) -> bool {
        &&& (self.unknown_1 matches Some(b) ==> b@ == sentinel_12())
        &&& (self.unknown_2 matches Some(b) ==> b@ == sentinel_12())
        &&& (self.unknown_1 is None ==> strings_wire(ctx, self.strings@).take(12) != sentinel_12())
    }

    /// How many bytes the record takes at the start of `buf`, or why it cannot be read.
    /// The first block is there when the twelve bytes after the length are the sentinel
    /// block; the second when more than twelve bytes are left after the fifth field and
    /// the next twelve are the sentinel block. The length field must count the bytes
    /// that follow it.
    pub open spec fn extent(ctx: Context, buf: Seq<u8>) -> Result<nat, CodecError> {
        if buf.len() < 14 {
            Err(CodecError::TruncatedInput)
        } else {
            let p0: nat = if buf.subrange(2, 14) == sentinel_12() {
                14
            } else {
                2
            };
            match strings_extent(ctx, buf, p0, 4) {
                Err(e) => Err(e),
                Ok(p4) => if buf.len() < p4 + 4 {
                    Err(CodecError::TruncatedInput)
                } else {
                    let p5 = p4 + 4;
                    let p6 = if buf.len() > p5 + 12 && buf.subrange(p5 as int, (p5 + 12) as int)
                        == sentinel_12() {
                        p5 + 12
                    } else {
                        p5
                    };
                    if buf.len() < p6 + 2 {
                        Err(CodecError::TruncatedInput)
                    } else if u16_at(ctx.order, buf, 0) != p6 {
                        Err(CodecError::InconsistentLength)
                    } else {
                        Ok(p6 + 2)
                    }
                },
            }
        }
    }
}

/// The record read from `buf` has exactly the bytes it was read from.
proof fn lemma_parsed_wire(ctx: Context, buf: Seq<u8>, c: Control1_9, p0: int, p4: int, p6: int)
    requires
        2 <= p0 <= p4,
        p4 + 4 <= p6,
        p6 + 2 <= buf.len(),
        p0 == 2 || p0 == 14,
        buf.len() >= 14,
        p0 == 2 ==> buf.subrange(2, 14) != sentinel_12(),
        u16_wire(ctx.order, p6 as u16) == buf.subrange(0, 2),
        opt_block_wire(c.unknown_1) == buf.subrange(2, p0 as int),
        c.unknown_1 is None <==> p0 == 2,
        strings_wire(ctx, c.strings@) == buf.subrange(p0 as int, p4 as int),
        u16_wire(ctx.order, c.field_4) == buf.subrange(p4 as int, p4 + 2),
        u16_wire(ctx.order, c.field_5) == buf.subrange(p4 + 2, p4 + 4),
        opt_block_wire(c.unknown_2) == buf.subrange(p4 + 4, p6 as int),
        c.field_6@ == buf.subrange(p6 as int, p6 + 2),
    ensures
        c.body_wire(ctx) == buf.subrange(2, p6 + 2),
        c.wire(ctx) == buf.take(p6 + 2),
        c.unknown_1 is None ==> strings_wire(ctx, c.strings@).take(12) != sentinel_12(),
{
    lemma_strings_wire_len(ctx, c.strings@);
    assert(c.body_wire(ctx) =~= buf.subrange(2, p6 + 2));
    assert(c.wire(ctx) =~= buf.take(p6 + 2));
    if c.unknown_1 is None {
        assert(strings_wire(ctx, c.strings@).take(12) =~= buf.subrange(2, 14));
    }
}

impl Control1_9 {
    /// Cutting bytes off the end of `buf`, after the record, does not change how it reads.
    pub proof fn lemma_extent_prefix(ctx: Context, buf: Seq<u8>)
        requires
            Self::extent(ctx, buf) is Ok,
            Self::extent(ctx, buf)->Ok_0 < buf.len(),
        ensures
            Self::extent(ctx, buf.drop_last()) == Self::extent(ctx, buf),
    {
        assert(buf.len() >= 14);
        let p0: nat = if buf.subrange(2, 14) == sentinel_12() {
            14
        } else {
            2
        };
        lemma_strings_extent_ge(ctx, buf, p0, 4);
        let p4 = strings_extent(ctx, buf, p0, 4)->Ok_0;
        assert(buf.len() > 16);
        assert(buf.drop_last().subrange(2, 14) =~= buf.subrange(2, 14));
        assert(buf.drop_last().subrange(0, 2) =~= buf.subrange(0, 2));
        lemma_strings_prefix(ctx, buf, p0, 4);
        let p5 = p4 + 4;
        if p5 + 12 < buf.len() {
            assert(buf.drop_last().subrange(p5 as int, (p5 + 12) as int) =~= buf.subrange(
                p5 as int,
                (p5 + 12) as int,
            ));
        }
    }

    /// Reads the record at the start of `buf`.
    #[verifier::rlimit(60)]
    pub fn parse(ctx: Context, buf: &[u8]) -> (r: Result<(usize, Self), CodecError>)
        ensures
            match r {
                Ok((n, c)) => Self::extent(ctx, buf@) == Ok::<nat, CodecError>(n as nat) && n
                    <= buf@.len() && c.wire(ctx) == buf@.take(n as int) && c.wf(ctx)
                    && c.canonical(ctx),
                Err(e) => Self::extent(ctx, buf@) == Err::<nat, CodecError>(e),
            },
    {
        if buf.len() < 14 {
            return Err(CodecError::TruncatedInput);
        }
        let payload_length = get_u16(ctx.order, buf, 0);
        let block: [u8; 12] = [255, 255, 0, 0, 255, 255, 0, 0, 255, 255, 0, 0];
        assert(block@ =~= sentinel_12());
        let has_1 = sentinel_12_at(buf, 2);
        let p0: usize = if has_1 {
            14
        } else {
            2
        };
        let (p4, strings) = match parse_strings(ctx, buf, p0) {
            Ok(x) => x,
            Err(e) => {
                return Err(e);
            },
        };
        if buf.len() - p4 < 4 {
            return Err(CodecError::TruncatedInput);
        }
        let field_4 = get_u16(ctx.order, buf, p4);
        let field_5 = get_u16(ctx.order, buf, p4 + 2);
        let p5 = p4 + 4;
        let has_2 = buf.len() - p5 > 12 && sentinel_12_at(buf, p5);
        let p6 = if has_2 {
            p5 + 12
        } else {
            p5
        };
        if buf.len() - p6 < 2 {
            return Err(CodecError::TruncatedInput);
        }
        let field_6 = read_pair(buf, p6);
        if payload_length as usize != p6 {
            return Err(CodecError::InconsistentLength);
        }
        let unknown_1 = if has_1 {
            Some(block)
        } else {
            None
        };
        let unknown_2 = if has_2 {
            Some(block)
        } else {
            None
        };
        let c = Control1_9 { unknown_1, strings, field_4, field_5, unknown_2, field_6 };
        proof {
            lemma_u16_at_wire(ctx.order, buf@, 0);
            lemma_u16_at_wire(ctx.order, buf@, p4 as int);
            lemma_u16_at_wire(ctx.order, buf@, p4 + 2);
            assert(opt_block_wire(unknown_1) =~= buf@.subrange(2, p0 as int));
            assert(opt_block_wire(unknown_2) =~= buf@.subrange(p5 as int, p6 as int));
            lemma_parsed_wire(ctx, buf@, c, p0 as int, p4 as int, p6 as int);
        }
        Ok((p6 + 2, c))
    }

    /// Appends the record's bytes, the length field counting what follows it, or
    /// fails, leaving `out` as it was, when a length does not fit its prefix.
    pub fn write(&self, ctx: Context, out: &mut Vec<u8>) -> (r: Result<(), CodecError>)
        ensures
            r is Ok <==> self.wf(ctx),
            r is Ok ==> final(out)@ == old(out)@ + self.wire(ctx),
            r is Err ==> r == Err::<(), CodecError>(CodecError::FieldTooLong) && final(out)@
                == old(out)@,
    {
        let mut body: Vec<u8> = Vec::new();
        match &self.unknown_1 {
            Some(b) => write_bytes(b.as_slice(), &mut body),
            None => {},
        }
        let ghost head = body@;
        let mut i: usize = 0;
        while i < 4
            invariant
                i <= 4,
                body@ == head + strings_wire(ctx, self.strings@.take(i as int)),
                forall|j: int| 0 <= j < i ==> #[trigger] self.strings@[j].wf(ctx),
            decreases 4 - i,
        {
            if self.strings[i].write(ctx, &mut body).is_err() {
                return Err(CodecError::FieldTooLong);
            }
            assert(self.strings@.take(i + 1).drop_last() =~= self.strings@.take(i as int));
            i = i + 1;
        }
        assert(self.strings@.take(4) =~= self.strings@);
        write_u16(ctx.order, self.field_4, &mut body);
        write_u16(ctx.order, self.field_5, &mut body);
        match &self.unknown_2 {
            Some(b) => write_bytes(b.as_slice(), &mut body),
            None => {},
        }
        write_pair(&self.field_6, &mut body);
        assert(body@ =~= self.body_wire(ctx));
        if body.len() > 0xFFFF {
            return Err(CodecError::FieldTooLong);
        }
        write_u16(ctx.order, body.len() as u16, out);
        write_bytes(body.as_slice(), out);
        assert(final(out)@ =~= old(out)@ + self.wire(ctx));
        Ok(())
    }
}

} // verus!
