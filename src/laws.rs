use vstd::prelude::*;

use crate::content::{
    decode_segments, decodes_to, flush_text, item_matches, items_match, items_wire, scan,
    terminator, Content, Segment,
};
use crate::control::{Control, SENTINEL};
use crate::error::CodecError;
use crate::one_eight::{blocks_wire, sentinel_block, sentinel_run, Control1_8};
use crate::scalar::{
    lemma_u16_at_wire, lemma_u16_of_wire, lemma_u16s_wire_len, u16_at, u16_wire, u16s_of, u16s_wire, ByteOrder,
};
use crate::text::{
    char_utf16, is_high_surrogate, is_low_surrogate, text_valid, text_wire, utf16_encode, utf16_valid,
    Context, TextEncoding,
};
use vstd::utf8::{
    char_is_scalar, char_u32_cast, encode_scalar, encode_utf8, encode_utf8_decode_utf8,
    encode_utf8_first_scalar, encode_utf8_valid_utf8, has_width_1_encoding,
};

verus! {

/// The segments in `segs` cover `v[0..upto]` one after the other, and each
/// control sequence starts at a sentinel unit.
pub open spec fn tiles(ctx: Context, v: Seq<u8>, segs: Seq<Segment>, upto: nat) -> bool
    decreases segs.len(),
{
    if segs.len() == 0 {
        upto == 0
    } else {
        match segs.last() {
            Segment::Text { start, end } => end == upto && start <= end && tiles(
                ctx,
                v,
                segs.drop_last(),
                start,
            ),
            Segment::Control { start, end } => end == upto && start + 2 <= end && u16_at(
                ctx.order,
                v,
                start as int,
            ) == SENTINEL && tiles(ctx, v, segs.drop_last(), start),
        }
    }
}

proof fn lemma_flush_tiles(ctx: Context, v: Seq<u8>, text: Option<nat>, p: nat, acc: Seq<Segment>)
    requires
        match text {
            Some(s) => s <= p && tiles(ctx, v, acc, s),
            None => tiles(ctx, v, acc, p),
        },
    ensures
        flush_text(ctx, v, text, p, acc) matches Ok(segs) ==> tiles(ctx, v, segs, p),
{
    if let Some(s) = text {
        let segs = acc.push(Segment::Text { start: s, end: p });
        assert(segs.drop_last() =~= acc);
    }
}

proof fn lemma_scan_tiles(ctx: Context, v: Seq<u8>, p: nat, text: Option<nat>, acc: Seq<Segment>)
    requires
        p <= v.len(),
        match text {
            Some(s) => s + 2 <= p && tiles(ctx, v, acc, s),
            None => tiles(ctx, v, acc, p),
        },
    ensures
        scan(ctx, v, p, text, acc) matches Ok(segs) ==> v.len() >= 2 && tiles(
            ctx,
            v,
            segs,
            (v.len() - 2) as nat,
        ) && u16_at(ctx.order, v, v.len() - 2) == 0,
    decreases v.len() - p,
{
    if p >= v.len() {
        if let Some(s) = text {
            if s + 2 != v.len() {
                lemma_flush_tiles(ctx, v, text, (v.len() - 2) as nat, acc);
            }
        }
    } else if p + 2 > v.len() {
    } else if u16_at(ctx.order, v, p as int) == SENTINEL {
        lemma_flush_tiles(ctx, v, text, p, acc);
        if let Ok(acc1) = flush_text(ctx, v, text, p, acc) {
            if let Ok(n) = Control::extent(ctx, v.skip((p + 2) as int)) {
                if p + 2 + n <= v.len() {
                    let segs = acc1.push(Segment::Control { start: p, end: p + 2 + n });
                    assert(segs.drop_last() =~= acc1);
                    lemma_scan_tiles(ctx, v, p + 2 + n, None, segs);
                }
            }
        }
    } else {
        let t = match text {
            Some(s) => Some(s),
            None => Some(p),
        };
        lemma_scan_tiles(ctx, v, p + 2, t, acc);
    }
}

proof fn lemma_tiles_wire(ctx: Context, v: Seq<u8>, segs: Seq<Segment>, items: Seq<Content>, upto: nat)
    requires
        tiles(ctx, v, segs, upto),
        upto <= v.len(),
        items_match(ctx, v, segs, items),
    ensures
        items_wire(ctx, items) == v.subrange(0, upto as int),
        forall|i: int| 0 <= i < items.len() ==> #[trigger] items[i].wf(ctx),
    decreases segs.len(),
{
    if segs.len() == 0 {
        assert(v.subrange(0, 0) =~= Seq::<u8>::empty());
    } else {
        let last = segs.len() - 1;
        assert(item_matches(ctx, v, segs[last], items[last]));
        let start = match segs.last() {
            Segment::Text { start, end } => start,
            Segment::Control { start, end } => start,
        };
        assert forall|i: int| 0 <= i < segs.drop_last().len() implies #[trigger] item_matches(
            ctx,
            v,
            segs.drop_last()[i],
            items.drop_last()[i],
        ) by {
            assert(item_matches(ctx, v, segs[i], items[i]));
        }
        lemma_tiles_wire(ctx, v, segs.drop_last(), items.drop_last(), start);
        match segs.last() {
            Segment::Text { start, end } => {},
            Segment::Control { start, end } => {
                lemma_u16_at_wire(ctx.order, v, start as int);
            },
        }
        assert(items_wire(ctx, items) =~= v.subrange(0, upto as int));
        assert forall|i: int| 0 <= i < items.len() implies #[trigger] items[i].wf(ctx) by {
            if i < last {
                assert(items[i] == items.drop_last()[i]);
            }
        }
    }
}

/// Round trip: the items decoded from a raw value all encode, and their bytes
/// followed by the null terminator are exactly that value.
pub proof fn lemma_round_trip(ctx: Context, v: Seq<u8>, items: Seq<Content>)
    requires
        decodes_to(ctx, v, items),
    ensures
        forall|i: int| 0 <= i < items.len() ==> #[trigger] items[i].wf(ctx),
        items_wire(ctx, items) + terminator() == v,
{
    let segs = decode_segments(ctx, v)->Ok_0;
    assert(tiles(ctx, v, Seq::<Segment>::empty(), 0));
    lemma_scan_tiles(ctx, v, 0, None, Seq::empty());
    let end = (v.len() - 2) as nat;
    lemma_tiles_wire(ctx, v, segs, items, end);
    lemma_u16_at_wire(ctx.order, v, end as int);
    assert(u16_wire(ctx.order, 0) =~= terminator());
    assert(items_wire(ctx, items) + terminator() =~= v);
}

/// `item` is a text whose bytes are `t`.
pub open spec fn text_item_of(ctx: Context, item: Content, t: Seq<u8>) -> bool {
    match item {
        Content::Text(s) => text_wire(ctx, s@) == t,
        _ => false,
    }
}

/// `item` is the control sequence that reading `b` gives.
pub open spec fn control_item_of(ctx: Context, item: Content, b: Seq<u8>) -> bool {
    match item {
        Content::Control(c) => c.wire(ctx) == b && c.wf(ctx) && c.canonical(ctx),
        _ => false,
    }
}

proof fn lemma_plain_scan(ctx: Context, v: Seq<u8>, end: nat, p: nat)
    requires
        0 < end,
        v.len() == end + 2,
        u16_at(ctx.order, v, end as int) == 0,
        p <= v.len(),
        p % 2 == 0,
        end % 2 == 0,
        forall|q: int| 0 <= q < end && q % 2 == 0 ==> u16_at(ctx.order, v, q) != SENTINEL,
        text_valid(ctx, v.subrange(0, end as int)),
    ensures
        scan(ctx, v, p, if p == 0 { None } else { Some(0) }, Seq::empty()) == Ok::<
            Seq<Segment>,
            CodecError,
        >(seq![Segment::Text { start: 0, end }]),
    decreases v.len() - p,
{
    if p < v.len() {
        assert(u16_at(ctx.order, v, p as int) != SENTINEL);
        lemma_plain_scan(ctx, v, end, p + 2);
    } else {
        assert(Seq::<Segment>::empty().push(Segment::Text { start: 0, end }) =~= seq![
            Segment::Text { start: 0, end },
        ]);
    }
}

/// A run of text with no sentinel unit, followed by the null terminator, decodes
/// to exactly one text item, whose bytes are the run.
pub proof fn lemma_plain_text(ctx: Context, t: Seq<u8>, items: Seq<Content>)
    requires
        t.len() > 0,
        t.len() % 2 == 0,
        forall|q: int| 0 <= q < t.len() && q % 2 == 0 ==> u16_at(ctx.order, t, q) != SENTINEL,
        text_valid(ctx, t),
    ensures
        decodes_to(ctx, t + terminator(), items) <==> (items.len() == 1 && text_item_of(
            ctx,
            items[0],
            t,
        )),
{
    let v = t + terminator();
    let end = t.len();
    assert(v.subrange(0, end as int) =~= t);
    assert forall|q: int| 0 <= q < end && q % 2 == 0 implies u16_at(ctx.order, v, q) != SENTINEL by {
        assert(u16_at(ctx.order, t, q) != SENTINEL);
        assert(v.subrange(q, q + 2) =~= t.subrange(q, q + 2));
    }
    assert(v.subrange(end as int, (end + 2) as int) =~= terminator());
    lemma_plain_scan(ctx, v, end as nat, 0);
    let segs = seq![Segment::Text { start: 0, end: end as nat }];
    assert(decode_segments(ctx, v) == Ok::<Seq<Segment>, CodecError>(segs));
    if decodes_to(ctx, v, items) {
        assert(item_matches(ctx, v, segs[0], items[0]));
    }
    if items.len() == 1 && text_item_of(ctx, items[0], t) {
        assert forall|i: int| 0 <= i < segs.len() implies #[trigger] item_matches(ctx, v, segs[i], items[i]) by {
            assert(i == 0);
        }
    }
}

#[verifier::spinoff_prover]
#[verifier::rlimit(100)]
proof fn lemma_single_control_segments(ctx: Context, b: Seq<u8>)
    requires
        Control::extent(ctx, b + terminator()) == Ok::<nat, CodecError>(b.len()),
    ensures
        decode_segments(ctx, u16_wire(ctx.order, SENTINEL) + b + terminator()) == Ok::<
            Seq<Segment>,
            CodecError,
        >(seq![Segment::Control { start: 0, end: 2 + b.len() }]),
{
    let v = u16_wire(ctx.order, SENTINEL) + b + terminator();
    let end = 2 + b.len();
    lemma_u16_of_wire(ctx.order, SENTINEL);
    assert(v.subrange(0, 2) =~= u16_wire(ctx.order, SENTINEL));
    assert(v.subrange(end as int, (end + 2) as int) =~= terminator());
    assert(v.skip(2) =~= b + terminator());
    let segs = seq![Segment::Control { start: 0, end: end as nat }];
    assert(Seq::<Segment>::empty().push(Segment::Control { start: 0, end: end as nat }) =~= segs);
    assert(u16_at(ctx.order, v, end as int) == 0);
    assert(scan(ctx, v, (end + 2) as nat, Some(end as nat), segs) == Ok::<Seq<Segment>, CodecError>(segs));
    assert(scan(ctx, v, end as nat, None, segs) == Ok::<Seq<Segment>, CodecError>(segs));
    assert(u16_at(ctx.order, v, 0) == SENTINEL);
    assert(Control::extent(ctx, v.skip(2)) == Ok::<nat, CodecError>(b.len()));
    assert(scan(ctx, v, 0, None, Seq::empty()) == Ok::<Seq<Segment>, CodecError>(segs));
}

/// The sentinel unit, the body of one control sequence and the null terminator
/// decode to exactly one control item, whose bytes are the body.
pub proof fn lemma_single_control(ctx: Context, b: Seq<u8>, items: Seq<Content>)
    requires
        Control::extent(ctx, b + terminator()) == Ok::<nat, CodecError>(b.len()),
    ensures
        decodes_to(ctx, u16_wire(ctx.order, SENTINEL) + b + terminator(), items) <==> (items.len()
            == 1 && control_item_of(ctx, items[0], b)),
{
    let v = u16_wire(ctx.order, SENTINEL) + b + terminator();
    let end = 2 + b.len();
    lemma_single_control_segments(ctx, b);
    lemma_u16_of_wire(ctx.order, SENTINEL);
    assert(v.subrange(2, end as int) =~= b);
    let segs = seq![Segment::Control { start: 0, end: end as nat }];
    if decodes_to(ctx, v, items) {
        assert(item_matches(ctx, v, segs[0], items[0]));
    }
    if items.len() == 1 && control_item_of(ctx, items[0], b) {
        assert forall|i: int| 0 <= i < segs.len() implies #[trigger] item_matches(ctx, v, segs[i], items[i]) by {
            assert(i == 0);
        }
    }
}

#[verifier::rlimit(100)]
#[verifier::spinoff_prover]
proof fn lemma_scan_truncated(ctx: Context, v: Seq<u8>, p: nat, text: Option<nat>, acc: Seq<Segment>)
    requires
        p + 2 <= v.len(),
        scan(ctx, v, p, text, acc) is Ok,
        text matches Some(s) ==> s + 2 <= p,
    ensures
        scan(ctx, v.drop_last(), p, text, acc) == Err::<Seq<Segment>, CodecError>(
            CodecError::TruncatedInput,
        ),
    decreases v.len() - p,
{
    let u = v.drop_last();
    if p + 2 <= u.len() {
        assert(u.subrange(p as int, (p + 2) as int) =~= v.subrange(p as int, (p + 2) as int));
        if let Some(s) = text {
            assert(u.subrange(s as int, p as int) =~= v.subrange(s as int, p as int));
        }
        if u16_at(ctx.order, v, p as int) == SENTINEL {
            let acc1 = flush_text(ctx, v, text, p, acc)->Ok_0;
            let b = v.skip((p + 2) as int);
            let n = Control::extent(ctx, b)->Ok_0;
            let q = p + 2 + n;
            let segs = acc1.push(Segment::Control { start: p, end: q });
            assert(scan(ctx, v, q, None, segs) is Ok);
            if q + 2 > v.len() {
                assert(scan(ctx, v, q, None, segs) is Err);
            }
            Control::lemma_extent_prefix(ctx, b);
            assert(u.skip((p + 2) as int) =~= b.drop_last());
            lemma_scan_truncated(ctx, v, q, None, segs);
        } else {
            let t = match text {
                Some(s) => Some(s),
                None => Some(p),
            };
            if p + 4 > v.len() {
                assert(scan(ctx, v, p + 2, t, acc) is Err);
            }
            lemma_scan_truncated(ctx, v, p + 2, t, acc);
        }
    }
}

/// Truncation: dropping the last byte of a value that decodes makes it fail with
/// `TruncatedInput`, rather than give a shorter record.
pub proof fn lemma_truncation(ctx: Context, v: Seq<u8>, items: Seq<Content>)
    requires
        decodes_to(ctx, v, items),
    ensures
        decode_segments(ctx, v.drop_last()) == Err::<Seq<Segment>, CodecError>(
            CodecError::TruncatedInput,
        ),
{
    assert(tiles(ctx, v, Seq::<Segment>::empty(), 0));
    lemma_scan_tiles(ctx, v, 0, None, Seq::empty());
    lemma_scan_truncated(ctx, v, 0, None, Seq::empty());
}

/// The integer at byte `2 * k` of a run's wire form is the run's `k`-th integer.
proof fn lemma_u16s_wire_at(order: ByteOrder, us: Seq<u16>, k: int)
    requires
        0 <= k < us.len(),
    ensures
        u16_at(order, u16s_wire(order, us), 2 * k) == us[k],
    decreases us.len(),
{
    let w = u16s_wire(order, us);
    let front = u16s_wire(order, us.drop_last());
    lemma_u16s_wire_len(order, us.drop_last());
    if k < us.len() - 1 {
        lemma_u16s_wire_at(order, us.drop_last(), k);
        assert(w.subrange(2 * k, 2 * k + 2) =~= front.subrange(2 * k, 2 * k + 2));
    } else {
        lemma_u16_of_wire(order, us.last());
        assert(w.subrange(2 * k, 2 * k + 2) =~= u16_wire(order, us.last()));
    }
}

proof fn lemma_u16s_of_wire(order: ByteOrder, us: Seq<u16>)
    ensures
        u16s_of(order, u16s_wire(order, us)) == us,
{
    lemma_u16s_wire_len(order, us);
    assert forall|k: int| 0 <= k < us.len() implies #[trigger] u16s_of(order, u16s_wire(order, us))[k]
        == us[k] by {
        lemma_u16s_wire_at(order, us, k);
    }
    assert(u16s_of(order, u16s_wire(order, us)) =~= us);
}

/// The units of one character: a non-surrogate unit, or a high then a low surrogate.
proof fn lemma_char_utf16(c: char)
    ensures
        utf16_valid(char_utf16(c)),
        char_utf16(c).len() == 1 ==> !is_low_surrogate(char_utf16(c)[0]) && char_utf16(c)[0] == c as u32,
        char_utf16(c).len() == 2 ==> is_low_surrogate(char_utf16(c)[1]) && c as u32 >= 0x10000,
        char_utf16(c).len() == 1 || char_utf16(c).len() == 2,
        forall|k: int| 0 <= k < char_utf16(c).len() && char_utf16(c)[k] == SENTINEL ==> c as u32 == SENTINEL,
{
    char_is_scalar(c);
    let u = char_utf16(c);
    assert(utf16_valid(Seq::<u16>::empty()));
    if (c as u32) < 0x10000 {
        assert(u.skip(1) =~= Seq::<u16>::empty());
    } else {
        assert(u.skip(2) =~= Seq::<u16>::empty());
    }
}

proof fn lemma_utf16_valid_concat(a: Seq<u16>, b: Seq<u16>)
    requires
        utf16_valid(a),
        utf16_valid(b),
    ensures
        utf16_valid(a + b),
    decreases a.len(),
{
    if a.len() == 0 {
        assert(a + b =~= b);
    } else if is_high_surrogate(a[0]) {
        assert((a + b).skip(2) =~= a.skip(2) + b);
        lemma_utf16_valid_concat(a.skip(2), b);
    } else {
        assert((a + b).skip(1) =~= a.skip(1) + b);
        lemma_utf16_valid_concat(a.skip(1), b);
    }
}

/// The UTF-16 units of any characters are well formed and hold a sentinel unit
/// only where a character is the sentinel.
proof fn lemma_utf16_encode(cs: Seq<char>)
    ensures
        utf16_valid(utf16_encode(cs)),
        utf16_encode(cs).len() >= cs.len(),
        (forall|i: int| 0 <= i < cs.len() ==> cs[i] as u32 != SENTINEL) ==> forall|k: int|
            0 <= k < utf16_encode(cs).len() ==> utf16_encode(cs)[k] != SENTINEL,
    decreases cs.len(),
{
    if cs.len() > 0 {
        let front = cs.drop_last();
        lemma_utf16_encode(front);
        lemma_char_utf16(cs.last());
        lemma_utf16_valid_concat(utf16_encode(front), char_utf16(cs.last()));
        if forall|i: int| 0 <= i < cs.len() ==> cs[i] as u32 != SENTINEL {
            assert(forall|i: int| 0 <= i < front.len() ==> front[i] == cs[i]);
            assert(cs.last() as u32 != SENTINEL);
            let e = utf16_encode(cs);
            assert forall|k: int| 0 <= k < e.len() implies e[k] != SENTINEL by {
                if k >= utf16_encode(front).len() {
                    assert(e[k] == char_utf16(cs.last())[k - utf16_encode(front).len()]);
                }
            }
        }
    }
}

/// Different character sequences have different UTF-16 units.
proof fn lemma_utf16_injective(a: Seq<char>, b: Seq<char>)
    requires
        utf16_encode(a) == utf16_encode(b),
    ensures
        a == b,
    decreases a.len(),
{
    lemma_utf16_encode(a);
    lemma_utf16_encode(b);
    if a.len() == 0 {
        assert(b.len() == 0);
        assert(a =~= b);
    } else {
        assert(b.len() > 0);
        let (x, y) = (a.last(), b.last());
        lemma_char_utf16(x);
        lemma_char_utf16(y);
        let e = utf16_encode(a);
        let ux = char_utf16(x);
        let uy = char_utf16(y);
        assert(e.last() == ux.last());
        assert(e.last() == uy.last());
        char_u32_cast(x, x as u32);
        char_u32_cast(y, y as u32);
        if ux.len() == 1 {
            assert(uy.len() == 1);
            assert(x as u32 == y as u32);
        } else {
            assert(uy.len() == 2);
            let n = e.len();
            assert(ux[0] == e[n - 2] && uy[0] == e[n - 2]);
            let wx = (x as u32 - 0x10000) as int;
            let wy = (y as u32 - 0x10000) as int;
            assert(wx / 0x400 == wy / 0x400);
            assert(wx % 0x400 == wy % 0x400);
            assert(wx == wy);
        }
        assert(x == y);
        let k = ux.len() as int;
        assert(utf16_encode(a.drop_last()) =~= e.subrange(0, e.len() - k));
        assert(utf16_encode(b.drop_last()) =~= e.subrange(0, e.len() - k));
        lemma_utf16_injective(a.drop_last(), b.drop_last());
        assert(a.len() == b.len());
        assert forall|i: int| 0 <= i < a.len() implies a[i] == b[i] by {
            if i < a.len() - 1 {
                assert(a[i] == a.drop_last()[i]);
                assert(b[i] == b.drop_last()[i]);
            }
        }
        assert(a =~= b);
    }
}

/// The UTF-8 bytes of one character hold the sentinel value only for the sentinel character.
proof fn lemma_utf8_char_no_sentinel(c: char)
    ensures
        forall|k: int| 0 <= k < encode_scalar(c as u32).len() && #[trigger] encode_scalar(c as u32)[k] == SENTINEL
            ==> c as u32 == SENTINEL,
{
    let v = c as u32;
    assert(forall|x: u8| (0x80u8 | x) != 0x0Eu8) by (bit_vector);
    assert(forall|x: u8| (0xC0u8 | x) != 0x0Eu8) by (bit_vector);
    assert(forall|x: u8| (0xE0u8 | x) != 0x0Eu8) by (bit_vector);
    assert(forall|x: u8| (0xF0u8 | x) != 0x0Eu8) by (bit_vector);
    if has_width_1_encoding(v) {
        assert(v <= 0x7F ==> (v & 0x7F) == v) by (bit_vector);
    }
}

/// The UTF-8 bytes of characters hold the sentinel value only where a character is the sentinel.
proof fn lemma_utf8_no_sentinel(cs: Seq<char>)
    requires
        forall|i: int| 0 <= i < cs.len() ==> cs[i] as u32 != SENTINEL,
    ensures
        forall|k: int| 0 <= k < encode_utf8(cs).len() ==> encode_utf8(cs)[k] != SENTINEL,
    decreases cs.len(),
{
    if cs.len() > 0 {
        let rest = cs.drop_first();
        assert(forall|i: int| 0 <= i < rest.len() ==> rest[i] == cs[i + 1]);
        lemma_utf8_no_sentinel(rest);
        lemma_utf8_char_no_sentinel(cs[0]);
        let head = encode_scalar(cs[0] as u32);
        let e = encode_utf8(cs);
        assert forall|k: int| 0 <= k < e.len() implies e[k] != SENTINEL by {
            if k >= head.len() {
                assert(e[k] == encode_utf8(rest)[k - head.len()]);
            }
        }
    }
}

/// A 16-bit unit equal to the sentinel has a byte equal to it.
proof fn lemma_sentinel_unit_byte(order: ByteOrder, t: Seq<u8>, q: int)
    requires
        0 <= q,
        q + 2 <= t.len(),
        u16_at(order, t, q) == SENTINEL,
    ensures
        t[q] == SENTINEL || t[q + 1] == SENTINEL,
{
    assert(t.subrange(q, q + 2)[0] == t[q] && t.subrange(q, q + 2)[1] == t[q + 1]);
}

/// `item` is a text that holds exactly the characters `cs`.
pub open spec fn string_item_of(item: Content, cs: Seq<char>) -> bool {
    match item {
        Content::Text(s) => s@ == cs,
        _ => false,
    }
}

/// A string with no sentinel character, written in the table's encoding and
/// followed by the null terminator, decodes to exactly one text item holding that
/// string. In UTF-8 its byte count must be even, since the scanner reads 16-bit
/// units.
pub proof fn lemma_plain_string(ctx: Context, cs: Seq<char>, items: Seq<Content>)
    requires
        text_wire(ctx, cs).len() % 2 == 0,
        cs.len() > 0,
        forall|i: int| 0 <= i < cs.len() ==> cs[i] as u32 != SENTINEL,
    ensures
        decodes_to(ctx, text_wire(ctx, cs) + terminator(), items) <==> (items.len() == 1
            && string_item_of(items[0], cs)),
{
    if ctx.encoding == TextEncoding::Utf8 {
        lemma_plain_utf8(ctx, cs, items);
        return;
    }
    let us = utf16_encode(cs);
    let t = text_wire(ctx, cs);
    lemma_utf16_encode(cs);
    lemma_u16s_wire_len(ctx.order, us);
    lemma_u16s_of_wire(ctx.order, us);
    assert forall|q: int| 0 <= q < t.len() && q % 2 == 0 implies u16_at(ctx.order, t, q) != SENTINEL by {
        lemma_u16s_wire_at(ctx.order, us, q / 2);
    }
    lemma_plain_text(ctx, t, items);
    if items.len() == 1 && text_item_of(ctx, items[0], t) {
        let s = items[0]->Text_0;
        lemma_u16s_of_wire(ctx.order, utf16_encode(s@));
        lemma_utf16_injective(s@, cs);
    }
}

proof fn lemma_plain_utf8(ctx: Context, cs: Seq<char>, items: Seq<Content>)
    requires
        ctx.encoding == TextEncoding::Utf8,
        encode_utf8(cs).len() % 2 == 0,
        cs.len() > 0,
        forall|i: int| 0 <= i < cs.len() ==> cs[i] as u32 != SENTINEL,
    ensures
        decodes_to(ctx, text_wire(ctx, cs) + terminator(), items) <==> (items.len() == 1
            && string_item_of(items[0], cs)),
{
    let t = encode_utf8(cs);
    lemma_utf8_no_sentinel(cs);
    encode_utf8_valid_utf8(cs);
    encode_utf8_first_scalar(cs);
    assert(t.len() > 0);
    assert forall|q: int| 0 <= q < t.len() && q % 2 == 0 implies u16_at(ctx.order, t, q) != SENTINEL by {
        if u16_at(ctx.order, t, q) == SENTINEL {
            lemma_sentinel_unit_byte(ctx.order, t, q);
        }
    }
    lemma_plain_text(ctx, t, items);
    if items.len() == 1 && text_item_of(ctx, items[0], t) {
        let s = items[0]->Text_0;
        encode_utf8_decode_utf8(s@);
        encode_utf8_decode_utf8(cs);
    }
}

/// The number of sentinel blocks that a record read from the wire holds is the
/// length of the run of sentinel strides at the start of its payload.
pub proof fn lemma_sentinel_count(ctx: Context, c: Control1_8)
    requires
        c.canonical(ctx),
    ensures
        sentinel_run(blocks_wire(c.unknown_1@) + u16s_wire(ctx.order, c.field_1@)) == c.unknown_1@.len(),
    decreases c.unknown_1@.len(),
{
    lemma_blocks_run(ctx.order, c.unknown_1@, c.field_1@);
}

proof fn lemma_blocks_run(order: ByteOrder, bs: Seq<[u8; 4]>, vs: Seq<u16>)
    requires
        forall|i: int| 0 <= i < bs.len() ==> #[trigger] bs[i]@ == sentinel_block(),
        !(vs.len() >= 2 && vs[0] == 0xFFFF && vs[1] == 0),
    ensures
        sentinel_run(blocks_wire(bs) + u16s_wire(order, vs)) == bs.len(),
    decreases bs.len(),
{
    let p = blocks_wire(bs) + u16s_wire(order, vs);
    if bs.len() == 0 {
        assert(p =~= u16s_wire(order, vs));
        lemma_u16s_wire_len(order, vs);
        if p.len() >= 4 && p.take(4) == sentinel_block() {
            lemma_u16s_wire_prefix(order, vs);
            assert(p.take(2) =~= p.take(4).take(2));
            assert(p.subrange(2, 4) =~= p.take(4).subrange(2, 4));
            lemma_u16_of_wire(order, vs[0]);
            lemma_u16_of_wire(order, vs[1]);
            assert(p.take(4).take(2) =~= seq![255u8, 255u8]);
            assert(p.take(4).subrange(2, 4) =~= seq![0u8, 0u8]);
        }
    } else {
        let rest = bs.drop_first();
        assert(rest.len() == bs.len() - 1);
        lemma_blocks_wire_first(bs);
        assert forall|i: int| 0 <= i < rest.len() implies #[trigger] rest[i]@ == sentinel_block() by {
            assert(rest[i] == bs[i + 1]);
        }
        lemma_blocks_run(order, rest, vs);
        assert(p.take(4) =~= sentinel_block());
        assert(p.skip(4) =~= blocks_wire(rest) + u16s_wire(order, vs));
    }
}

proof fn lemma_blocks_wire_first(bs: Seq<[u8; 4]>)
    requires
        bs.len() > 0,
    ensures
        blocks_wire(bs) == bs[0]@ + blocks_wire(bs.drop_first()),
    decreases bs.len(),
{
    if bs.len() == 1 {
        assert(bs.drop_last() =~= Seq::<[u8; 4]>::empty());
        assert(bs.drop_first() =~= Seq::<[u8; 4]>::empty());
        assert(blocks_wire(bs.drop_last()) == Seq::<u8>::empty());
        assert(bs.last() == bs[0]);
        assert(blocks_wire(bs) =~= bs[0]@);
    } else {
        lemma_blocks_wire_first(bs.drop_last());
        assert(bs.drop_last().drop_first() =~= bs.drop_first().drop_last());
        assert(blocks_wire(bs) =~= bs[0]@ + blocks_wire(bs.drop_first()));
    }
}

/// The first two integers of a run sit in its first four bytes.
proof fn lemma_u16s_wire_prefix(order: ByteOrder, vs: Seq<u16>)
    requires
        vs.len() >= 2,
    ensures
        u16s_wire(order, vs).take(2) == u16_wire(order, vs[0]),
        u16s_wire(order, vs).subrange(2, 4) == u16_wire(order, vs[1]),
    decreases vs.len(),
{
    lemma_u16s_wire_len(order, vs.drop_last());
    if vs.len() == 2 {
        assert(vs.drop_last().drop_last() =~= Seq::<u16>::empty());
        assert(u16s_wire(order, vs) =~= u16_wire(order, vs[0]) + u16_wire(order, vs[1]));
    } else {
        lemma_u16s_wire_prefix(order, vs.drop_last());
        lemma_u16s_wire_len(order, vs.drop_last());
        assert(u16s_wire(order, vs).take(2) =~= u16s_wire(order, vs.drop_last()).take(2));
        assert(u16s_wire(order, vs).subrange(2, 4) =~= u16s_wire(order, vs.drop_last()).subrange(2, 4));
    }
}

/// Where the sentinel run stops: a payload whose first stride is the sentinel
/// block and whose second is not holds a run of one; one whose first stride is not
/// holds none, whatever follows.
pub proof fn lemma_sentinel_run_boundary(p: Seq<u8>)
    ensures
        p.len() >= 4 && p.take(4) == sentinel_block() && !(p.skip(4).len() >= 4 && p.skip(4).take(4)
            == sentinel_block()) ==> sentinel_run(p) == 1,
        !(p.len() >= 4 && p.take(4) == sentinel_block()) ==> sentinel_run(p) == 0,
{
    if p.len() >= 4 && p.take(4) == sentinel_block() {
        assert(sentinel_run(p) == 1 + sentinel_run(p.skip(4)));
    }
}

} // verus!
