use vstd::prelude::*;
use vstd::string::*;
use vstd::utf8::*;

use crate::error::CodecError;
use crate::scalar::{lemma_lp_bytes_prefix, lp_bytes_extent, parse_lp_bytes, read_u16s, u16_wire, write_lp_bytes, lemma_u16s_wire_of, u16s_of, u16s_wire, write_bytes, write_u16s, ByteOrder};

verus! {

/// How the characters of a table are stored.
#[derive(Clone, Copy, Debug, PartialEq, Eq, Structural)]
pub enum TextEncoding {
    Utf16,
    Utf8,
}

/// Byte order and character encoding of one table, handed to every codec call.
#[derive(Clone, Copy, Debug, PartialEq, Eq, Structural)]
pub struct Context {
    pub order: ByteOrder,
    pub encoding: TextEncoding,
}

pub open spec fn is_high_surrogate(u: u16) -> bool {
    0xD800 <= u < 0xDC00
}

pub open spec fn is_low_surrogate(u: u16) -> bool {
    0xDC00 <= u < 0xE000
}

/// The UTF-16 code units of one character.
pub open spec fn char_utf16(c: char) -> Seq<u16> {
    let v = c as u32;
    if v < 0x10000 {
        seq![v as u16]
    } else {
        let w = v - 0x10000;
        seq![(0xD800 + w / 0x400) as u16, (0xDC00 + w % 0x400) as u16]
    }
}

/// The UTF-16 code units of a character sequence.
pub open spec fn utf16_encode(cs: Seq<char>) -> Seq<u16>
    decreases cs.len(),
{
    if cs.len() == 0 {
        Seq::empty()
    } else {
        utf16_encode(cs.drop_last()) + char_utf16(cs.last())
    }
}

/// True when every high surrogate is followed by a low one and no low surrogate stands alone.
pub open spec fn utf16_valid(u: Seq<u16>) -> bool
    decreases u.len(),
{
    if u.len() == 0 {
        true
    } else if is_high_surrogate(u[0]) {
        u.len() >= 2 && is_low_surrogate(u[1]) && utf16_valid(u.skip(2))
    } else {
        !is_low_surrogate(u[0]) && utf16_valid(u.skip(1))
    }
}

/// The bytes of the characters `cs` in the table's encoding.
pub open spec fn text_wire(ctx: Context, cs: Seq<char>) -> Seq<u8> {
    match ctx.encoding {
        TextEncoding::Utf16 => u16s_wire(ctx.order, utf16_encode(cs)),
        TextEncoding::Utf8 => encode_utf8(cs),
    }
}

/// True when `b` is well-formed text in the table's encoding.
pub open spec fn text_valid(ctx: Context, b: Seq<u8>) -> bool {
    match ctx.encoding {
        TextEncoding::Utf16 => b.len() % 2 == 0 && utf16_valid(u16s_of(ctx.order, b)),
        TextEncoding::Utf8 => valid_utf8(b),
    }
}

/// A text preceded by the 16-bit count of its bytes.
pub open spec fn lp_text_wire(ctx: Context, cs: Seq<char>) -> Seq<u8> {
    u16_wire(ctx.order, text_wire(ctx, cs).len() as u16) + text_wire(ctx, cs)
}

/// True when the byte count of `cs` fits its 16-bit prefix.
pub open spec fn lp_text_fits(ctx: Context, cs: Seq<char>) -> bool {
    text_wire(ctx, cs).len() <= 0xFFFF
}

/// How many bytes a length-prefixed text takes at the start of `buf`, or why it cannot be read.
pub open spec fn lp_text_extent(ctx: Context, buf: Seq<u8>) -> Result<nat, CodecError> {
    match lp_bytes_extent(ctx.order, buf) {
        Err(e) => Err(e),
        Ok(n) => if text_valid(ctx, buf.subrange(2, n as int)) {
            Ok(n)
        } else {
            Err(CodecError::InvalidText)
        },
    }
}

/// Cutting bytes off the end of `buf`, after the text, does not change how it reads.
pub proof fn lemma_lp_text_prefix(ctx: Context, buf: Seq<u8>)
    requires
        lp_text_extent(ctx, buf) is Ok,
        lp_text_extent(ctx, buf)->Ok_0 < buf.len(),
    ensures
        lp_text_extent(ctx, buf.drop_last()) == lp_text_extent(ctx, buf),
{
    lemma_lp_bytes_prefix(ctx.order, buf);
    let n = lp_text_extent(ctx, buf)->Ok_0;
    assert(buf.drop_last().subrange(2, n as int) =~= buf.subrange(2, n as int));
}

/// Reads a text preceded by the 16-bit count of its bytes.
pub fn parse_lp_text(ctx: Context, buf: &[u8]) -> (r: Result<(usize, String), CodecError>)
    ensures
        match r {
            Ok((n, s)) => lp_text_extent(ctx, buf@) == Ok::<nat, CodecError>(n as nat) && n
                <= buf@.len() && lp_text_fits(ctx, s@) && lp_text_wire(ctx, s@) == buf@.take(n as int),
            Err(e) => lp_text_extent(ctx, buf@) == Err::<nat, CodecError>(e),
        },
{
    let (n, b) = match parse_lp_bytes(ctx.order, buf) {
        Ok(x) => x,
        Err(e) => {
            return Err(e);
        },
    };
    assert(u16_wire(ctx.order, b@.len() as u16).len() == 2);
    assert(b@ =~= buf@.take(n as int).subrange(2, n as int));
    assert(b@ =~= buf@.subrange(2, n as int));
    let s = match decode_text(ctx, b.as_slice()) {
        Ok(s) => s,
        Err(e) => {
            return Err(e);
        },
    };
    proof {
        assert(lp_text_wire(ctx, s@) =~= buf@.take(n as int));
    }
    Ok((n, s))
}

/// Appends `s` preceded by the count of its bytes, or fails, leaving `out` as it was, when it is too long.
pub fn write_lp_text(ctx: Context, s: &str, out: &mut Vec<u8>) -> (r: Result<(), CodecError>)
    ensures
        r is Ok <==> lp_text_fits(ctx, s@),
        r is Ok ==> final(out)@ == old(out)@ + lp_text_wire(ctx, s@),
        r is Err ==> r == Err::<(), CodecError>(CodecError::FieldTooLong) && final(out)@ == old(out)@,
{
    let mut bytes: Vec<u8> = Vec::new();
    encode_text(ctx, s, &mut bytes);
    assert(bytes@ =~= text_wire(ctx, s@));
    write_lp_bytes(ctx.order, bytes.as_slice(), out)
}

/// Relies on `String::from_utf16`: it decodes well-formed UTF-16, whose
/// re-encoding gives back the same units, and fails on anything else.
#[verifier::external_body]
fn string_from_utf16(units: &[u16]) -> (r: Option<String>)
    ensures
        match r {
            Some(s) => utf16_valid(units@) && utf16_encode(s@) == units@,
            None => !utf16_valid(units@),
        },
{
    String::from_utf16(units).ok()
}

/// Relies on `str::encode_utf16`: the UTF-16 code units of the string.
#[verifier::external_body]
fn utf16_units(s: &str) -> (r: Vec<u16>)
    ensures
        r@ == utf16_encode(s@),
{
    s.encode_utf16().collect()
}

/// Relies on `String::from_utf8`: it keeps valid UTF-8 as it is and fails on anything else.
#[verifier::external_body]
fn string_from_utf8(bytes: Vec<u8>) -> (r: Option<String>)
    ensures
        match r {
            Some(s) => valid_utf8(bytes@) && s@ == decode_utf8(bytes@),
            None => !valid_utf8(bytes@),
        },
{
    String::from_utf8(bytes).ok()
}

/// Decodes `bytes` as text in the table's encoding.
pub fn decode_text(ctx: Context, bytes: &[u8]) -> (r: Result<String, CodecError>)
    ensures
        match r {
            Ok(s) => text_valid(ctx, bytes@) && text_wire(ctx, s@) == bytes@,
            Err(e) => e == CodecError::InvalidText && !text_valid(ctx, bytes@),
        },
{
    match ctx.encoding {
        TextEncoding::Utf16 => {
            if bytes.len() % 2 != 0 {
                return Err(CodecError::InvalidText);
            }
            let units = read_u16s(ctx.order, bytes);
            match string_from_utf16(units.as_slice()) {
                Some(s) => {
                    proof {
                        lemma_u16s_wire_of(ctx.order, bytes@);
                    }
                    Ok(s)
                },
                None => Err(CodecError::InvalidText),
            }
        },
        TextEncoding::Utf8 => {
            let v = vstd::slice::slice_to_vec(bytes);
            match string_from_utf8(v) {
                Some(s) => {
                    proof {
                        decode_utf8_encode_utf8(bytes@);
                    }
                    Ok(s)
                },
                None => Err(CodecError::InvalidText),
            }
        },
    }
}

/// Appends the bytes of `s` in the table's encoding.
pub fn encode_text(ctx: Context, s: &str, out: &mut Vec<u8>)
    ensures
        final(out)@ == old(out)@ + text_wire(ctx, s@),
{
    match ctx.encoding {
        TextEncoding::Utf16 => {
            let units = utf16_units(s);
            write_u16s(ctx.order, &units, out);
        },
        TextEncoding::Utf8 => {
            write_bytes(s.as_bytes(), out);
        },
    }
}

} // verus!
