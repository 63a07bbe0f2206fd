use vstd::prelude::*;
use vstd::slice::slice_subrange;

use crate::control::{Control, SENTINEL};
use crate::error::CodecError;
use crate::laws::lemma_round_trip;
use crate::scalar::{get_u16, u16_at, u16_wire, write_u16};
use crate::text::{decode_text, encode_text, text_valid, text_wire, Context};

verus! {

/// One item of a decoded value: a run of plain text or a control sequence.
#[derive(Debug)]
pub enum Content {
    Text(String),
    Control(Control),
}

impl Content {
    /// The bytes of the item: the text in the table's encoding, or the sentinel
    /// unit followed by the control sequence, as `Control::write` emits it.
    pub open spec fn wire(self, ctx: Context) -> Seq<u8> {
        match self {
            Content::Text(s) => text_wire(ctx, s@),
            Content::Control(c) => u16_wire(ctx.order, SENTINEL) + c.wire(ctx),
        }
    }

    /// Every length in the item fits its 16-bit prefix.
    pub open spec fn wf(self, ctx: Context) -> bool {
        match self {
            Content::Text(_) => true,
            Content::Control(c) => c.wf(ctx),
        }
    }
}

/// The bytes of a sequence of items, in order.
pub open spec fn items_wire(ctx: Context, items: Seq<Content>) -> Seq<u8>
    decreases items.len(),
{
    if items.len() == 0 {
        Seq::empty()
    } else {
        items_wire(ctx, items.drop_last()) + items.last().wire(ctx)
    }
}

/// The terminator that ends every value: one null 16-bit unit.
pub open spec fn terminator() -> Seq<u8> {
    seq![0u8, 0u8]
}

/// Where the scanner found a run of text or a control sequence, by byte range;
/// a control sequence's range starts at its sentinel unit.
pub enum Segment {
    Text { start: nat, end: nat },
    Control { start: nat, end: nat },
}

/// A text run `v[start..p]` that is still open, closed into the segments found so far.
pub open spec fn flush_text(ctx: Context, v: Seq<u8>, text: Option<nat>, p: nat, acc: Seq<Segment>) -> Result<
    Seq<Segment>,
    CodecError,
> {
    match text {
        Some(start) => if text_valid(ctx, v.subrange(start as int, p as int)) {
            Ok(acc.push(Segment::Text { start, end: p }))
        } else {
            Err(CodecError::InvalidText)
        },
        None => Ok(acc),
    }
}

/// The end of the value: the open text run must end with the null unit, which is
/// dropped; what comes before it, if anything, is the last text item.
pub open spec fn finish(ctx: Context, v: Seq<u8>, text: Option<nat>, acc: Seq<Segment>) -> Result<
    Seq<Segment>,
    CodecError,
> {
    match text {
        None => Err(CodecError::TruncatedInput),
        Some(start) => if u16_at(ctx.order, v, v.len() - 2) != 0 {
            Err(CodecError::TruncatedInput)
        } else if start + 2 == v.len() {
            Ok(acc)
        } else {
            flush_text(ctx, v, text, (v.len() - 2) as nat, acc)
        },
    }
}

/// The scanner, one 16-bit unit at a time from byte `p`: `text` is where the open
/// text run started, `acc` the segments found before `p`.
pub open spec fn scan(ctx: Context, v: Seq<u8>, p: nat, text: Option<nat>, acc: Seq<Segment>) -> Result<
    Seq<Segment>,
    CodecError,
>
    decreases v.len() - p,
{
    if p >= v.len() {
        finish(ctx, v, text, acc)
    } else if p + 2 > v.len() {
        Err(CodecError::TruncatedInput)
    } else if u16_at(ctx.order, v, p as int) == SENTINEL {
        match flush_text(ctx, v, text, p, acc) {
            Err(e) => Err(e),
            Ok(acc1) => match Control::extent(ctx, v.skip((p + 2) as int)) {
                Err(e) => Err(e),
                Ok(n) => if p + 2 + n > v.len() {
                    Err(CodecError::TruncatedInput)
                } else {
                    scan(ctx, v, p + 2 + n, None, acc1.push(Segment::Control { start: p, end: p + 2 + n }))
                },
            },
        }
    } else {
        let t = match text {
            Some(s) => Some(s),
            None => Some(p),
        };
        scan(ctx, v, p + 2, t, acc)
    }
}

/// The segments of a raw value, or why it cannot be decoded.
pub open spec fn decode_segments(ctx: Context, v: Seq<u8>) -> Result<Seq<Segment>, CodecError> {
    scan(ctx, v, 0, None, Seq::empty())
}

/// The item is what the segment's bytes hold.
pub open spec fn item_matches(ctx: Context, v: Seq<u8>, seg: Segment, item: Content) -> bool {
    match (seg, item) {
        (Segment::Text { start, end }, Content::Text(s)) => text_wire(ctx, s@) == v.subrange(
            start as int,
            end as int,
        ),
        (Segment::Control { start, end }, Content::Control(c)) => c.wire(ctx) == v.subrange(
            (start + 2) as int,
            end as int,
        ) && c.wf(ctx) && c.canonical(ctx),
        _ => false,
    }
}

/// Each item is what the matching segment holds.
pub open spec fn items_match(ctx: Context, v: Seq<u8>, segs: Seq<Segment>, items: Seq<Content>) -> bool {
    &&& segs.len() == items.len()
    &&& forall|i: int| 0 <= i < segs.len() ==> #[trigger] item_matches(ctx, v, segs[i], items[i])
}

/// `items` is the decoding of the raw value `v`.
pub open spec fn decodes_to(ctx: Context, v: Seq<u8>, items: Seq<Content>) -> bool {
    match decode_segments(ctx, v) {
        Ok(segs) => items_match(ctx, v, segs, items),
        Err(_) => false,
    }
}

pub open spec fn opt_nat(o: Option<usize>) -> Option<nat> {
    match o {
        Some(x) => Some(x as nat),
        None => None,
    }
}

proof fn lemma_push_match(
    ctx: Context,
    v: Seq<u8>,
    acc: Seq<Segment>,
    old_items: Seq<Content>,
    items: Seq<Content>,
    seg: Segment,
)
    requires
        items_match(ctx, v, acc, old_items),
        items.drop_last() == old_items,
        items.len() == old_items.len() + 1,
        item_matches(ctx, v, seg, items.last()),
    ensures
        items_match(ctx, v, acc.push(seg), items),
{
    assert forall|i: int| 0 <= i < acc.push(seg).len() implies #[trigger] item_matches(
        ctx,
        v,
        acc.push(seg)[i],
        items[i],
    ) by {
        if i < acc.len() {
            assert(acc.push(seg)[i] == acc[i]);
            assert(items[i] == old_items[i]);
        }
    }
}

/// Splits a raw value into runs of text and control sequences, scanning it one
/// 16-bit unit at a time. The items that come back encode to exactly the value
/// they were read from.
#[verifier::rlimit(60)]
pub fn parse_controls(ctx: Context, v: &[u8]) -> (r: Result<Vec<Content>, CodecError>)
    ensures
        match r {
            Ok(items) => decodes_to(ctx, v@, items@) && items_wire(ctx, items@) + terminator()
                == v@,
            Err(e) => decode_segments(ctx, v@) == Err::<Seq<Segment>, CodecError>(e),
        },
{
    let mut items: Vec<Content> = Vec::new();
    let ghost mut acc: Seq<Segment> = Seq::empty();
    let mut p: usize = 0;
    let mut text: Option<usize> = None;
    let len = v.len();
    while p < len
        invariant
            len == v@.len(),
            p <= len,
            text matches Some(s) ==> s + 2 <= p,
            decode_segments(ctx, v@) == scan(ctx, v@, p as nat, opt_nat(text), acc),
            items_match(ctx, v@, acc, items@),
        decreases len - p,
    {
        if len - p < 2 {
            return Err(CodecError::TruncatedInput);
        }
        let u = get_u16(ctx.order, v, p);
        if u == SENTINEL {
            match text {
                Some(s) => {
                    let t = match decode_text(ctx, slice_subrange(v, s, p)) {
                        Ok(t) => t,
                        Err(e) => {
                            return Err(e);
                        },
                    };
                    let ghost old_items = items@;
                    items.push(Content::Text(t));
                    proof {
                        let seg = Segment::Text { start: s as nat, end: p as nat };
                        assert(items@.drop_last() =~= old_items);
                        lemma_push_match(ctx, v@, acc, old_items, items@, seg);
                        acc = acc.push(seg);
                    }
                },
                None => {},
            }
            text = None;
            let (n, c) = match Control::parse(ctx, slice_subrange(v, p + 2, len)) {
                Ok(x) => x,
                Err(e) => {
                    return Err(e);
                },
            };
            let ghost old_items = items@;
            items.push(Content::Control(c));
            proof {
                let seg = Segment::Control { start: p as nat, end: (p + 2 + n) as nat };
                assert(v@.skip(p + 2).take(n as int) =~= v@.subrange(p + 2, p + 2 + n));
                assert(items@.drop_last() =~= old_items);
                lemma_push_match(ctx, v@, acc, old_items, items@, seg);
                acc = acc.push(seg);
            }
            p = p + 2 + n;
        } else {
            if text.is_none() {
                text = Some(p);
            }
            p = p + 2;
        }
    }
    let s = match text {
        Some(s) => s,
        None => {
            return Err(CodecError::TruncatedInput);
        },
    };
    if get_u16(ctx.order, v, len - 2) != 0 {
        return Err(CodecError::TruncatedInput);
    }
    if s + 2 < len {
        let t = match decode_text(ctx, slice_subrange(v, s, len - 2)) {
            Ok(t) => t,
            Err(e) => {
                return Err(e);
            },
        };
        let ghost old_items = items@;
        items.push(Content::Text(t));
        proof {
            let seg = Segment::Text { start: s as nat, end: (len - 2) as nat };
            assert(items@.drop_last() =~= old_items);
            lemma_push_match(ctx, v@, acc, old_items, items@, seg);
            acc = acc.push(seg);
        }
    }
    proof {
        lemma_round_trip(ctx, v@, items@);
    }
    Ok(items)
}

impl Content {
    /// Encodes a sequence of items into a raw value, ending it with one null unit.
    pub fn write_all(ctx: Context, contents: &[Content]) -> (r: Result<Vec<u8>, CodecError>)
        ensures
            r is Ok <==> forall|i: int| 0 <= i < contents@.len() ==> #[trigger] contents@[i].wf(ctx),
            r matches Ok(v) ==> v@ == items_wire(ctx, contents@) + terminator(),
            r is Err ==> r == Err::<Vec<u8>, CodecError>(CodecError::FieldTooLong),
    {
        let mut buf: Vec<u8> = Vec::new();
        let mut i: usize = 0;
        while i < contents.len()
            invariant
                i <= contents@.len(),
                buf@ == items_wire(ctx, contents@.take(i as int)),
                forall|j: int| 0 <= j < i ==> #[trigger] contents@[j].wf(ctx),
            decreases contents@.len() - i,
        {
            match &contents[i] {
                Content::Text(s) => encode_text(ctx, s.as_str(), &mut buf),
                Content::Control(c) => {
                    if c.write(ctx, &mut buf).is_err() {
                        assert(!contents@[i as int].wf(ctx));
                        return Err(CodecError::FieldTooLong);
                    }
                },
            }
            assert(contents@.take(i + 1).drop_last() =~= contents@.take(i as int));
            assert(buf@ =~= items_wire(ctx, contents@.take(i + 1)));
            i = i + 1;
        }
        assert(contents@.take(i as int) =~= contents@);
        write_u16(ctx.order, 0, &mut buf);
        assert(u16_wire(ctx.order, 0) =~= terminator());
        Ok(buf)
    }
}

} // verus!
