use msyt::content::{parse_controls, Content};
use msyt::control::Control;
use msyt::error::CodecError;
use msyt::five::Control5;
use msyt::one::Control1;
use msyt::one_eight::Control1_8;
use msyt::one_nine::{Control1_9, Control1_9String};
use msyt::scalar::{read_u16, read_u32, ByteOrder};
use msyt::text::{decode_text, Context, TextEncoding};
use msyt::three::Control3;
use msyt::two::Control2;

fn le16() -> Context {
    Context { order: ByteOrder::Little, encoding: TextEncoding::Utf16 }
}

fn be16() -> Context {
    Context { order: ByteOrder::Big, encoding: TextEncoding::Utf16 }
}

fn le8() -> Context {
    Context { order: ByteOrder::Little, encoding: TextEncoding::Utf8 }
}

fn units_le(s: &str) -> Vec<u8> {
    s.encode_utf16().flat_map(|u| u.to_le_bytes()).collect()
}

fn u16s_le(vs: &[u16]) -> Vec<u8> {
    vs.iter().flat_map(|u| u.to_le_bytes()).collect()
}

fn u16s_be(vs: &[u16]) -> Vec<u8> {
    vs.iter().flat_map(|u| u.to_be_bytes()).collect()
}

fn round_trip(ctx: Context, v: &[u8]) -> Vec<Content> {
    let items = parse_controls(ctx, v).expect("value decodes");
    let back = Content::write_all(ctx, &items).expect("items encode");
    assert_eq!(back, v);
    items
}

fn text_of(item: &Content) -> &str {
    match item {
        Content::Text(s) => s.as_str(),
        Content::Control(_) => panic!("expected text"),
    }
}

#[test]
fn plain_text_is_one_item() {
    let mut v = units_le("Hello");
    v.extend_from_slice(&[0, 0]);
    let items = round_trip(le16(), &v);
    assert_eq!(items.len(), 1);
    assert_eq!(text_of(&items[0]), "Hello");
}

#[test]
fn null_terminator_dropped_and_restored() {
    let mut v = units_le("abc");
    v.extend_from_slice(&[0, 0]);
    let items = parse_controls(le16(), &v).unwrap();
    assert_eq!(items.len(), 1);
    assert_eq!(text_of(&items[0]), "abc");
    let back = Content::write_all(le16(), &[Content::Text("abc".to_string())]).unwrap();
    assert_eq!(back, vec![b'a', 0, b'b', 0, b'c', 0, 0, 0]);
}

#[test]
fn empty_value_has_no_items() {
    assert_eq!(parse_controls(le16(), &[0, 0]).unwrap().len(), 0);
    assert_eq!(parse_controls(le8(), &[0, 0]).unwrap().len(), 0);
    assert_eq!(Content::write_all(le8(), &[]).unwrap(), vec![0, 0]);
    assert_eq!(Content::write_all(le16(), &[]).unwrap(), vec![0, 0]);
}

#[test]
fn inner_null_is_kept_as_text() {
    let items = round_trip(le16(), &[0, 0, 0, 0]);
    assert_eq!(items.len(), 1);
    assert_eq!(text_of(&items[0]), "\u{0}");
}

#[test]
fn single_control_has_no_text() {
    let v = u16s_le(&[0x0E, 5, 7, 9, 0]);
    let items = round_trip(le16(), &v);
    assert_eq!(items.len(), 1);
    match &items[0] {
        Content::Control(Control::Five(c)) => {
            assert_eq!(c.field_1, 7);
            assert_eq!(c.field_2, 9);
        }
        _ => panic!("expected control 5"),
    }
}

#[test]
fn text_control_text_in_order() {
    let mut v = units_le("A");
    v.extend(u16s_le(&[0x0E, 5, 0x1234, 0x5678]));
    v.extend(units_le("B"));
    v.extend_from_slice(&[0, 0]);
    let items = round_trip(le16(), &v);
    assert_eq!(items.len(), 3);
    assert_eq!(text_of(&items[0]), "A");
    match &items[1] {
        Content::Control(Control::Five(c)) => {
            assert_eq!((c.field_1, c.field_2), (0x1234, 0x5678));
        }
        _ => panic!("expected control 5"),
    }
    assert_eq!(text_of(&items[2]), "B");
}

#[test]
fn big_endian_control_fields() {
    let v = u16s_be(&[0x0E, 5, 0x0102, 0x0304, 0]);
    let items = round_trip(be16(), &v);
    match &items[0] {
        Content::Control(Control::Five(c)) => assert_eq!((c.field_1, c.field_2), (0x0102, 0x0304)),
        _ => panic!("expected control 5"),
    }
}

#[test]
fn encode_control_five_exact_bytes() {
    let items = vec![Content::Control(Control::Five(Control5 { field_1: 1, field_2: 2 }))];
    let v = Content::write_all(le16(), &items).unwrap();
    assert_eq!(v, vec![0x0E, 0, 5, 0, 1, 0, 2, 0, 0, 0]);
}

#[test]
fn unknown_main_type_rejected() {
    let v = u16s_le(&[0x0E, 0xFF, 0, 0]);
    assert_eq!(parse_controls(le16(), &v).unwrap_err(), CodecError::UnknownMainType { marker: 0xFF });
}

#[test]
fn unknown_subtype_rejected() {
    let v = u16s_le(&[0x0E, 2, 99, 0, 0]);
    assert_eq!(
        parse_controls(le16(), &v).unwrap_err(),
        CodecError::UnknownSubtype { main: 2, marker: 99 }
    );
}

#[test]
fn truncated_value_rejected() {
    let mut v = u16s_le(&[0x0E, 5, 7, 9, 0]);
    v.pop();
    assert_eq!(parse_controls(le16(), &v).unwrap_err(), CodecError::TruncatedInput);
    let mut t = units_le("abc");
    t.extend_from_slice(&[0, 0]);
    t.pop();
    assert_eq!(parse_controls(le16(), &t).unwrap_err(), CodecError::TruncatedInput);
    assert_eq!(parse_controls(le8(), b"abc").unwrap_err(), CodecError::TruncatedInput);
}

#[test]
fn control_eating_terminator_rejected() {
    // the control's body runs into the terminator
    let v = u16s_le(&[0x0E, 5, 7, 0]);
    assert_eq!(parse_controls(le16(), &v).unwrap_err(), CodecError::TruncatedInput);
}

#[test]
fn lone_surrogate_is_invalid_text() {
    let v = u16s_le(&[0xD800, 0x41, 0]);
    assert_eq!(parse_controls(le16(), &v).unwrap_err(), CodecError::InvalidText);
}

#[test]
fn invalid_utf8_is_invalid_text() {
    assert_eq!(parse_controls(le8(), &[0xC3, 0x28, 0, 0]).unwrap_err(), CodecError::InvalidText);
}

#[test]
fn surrogate_pair_decodes() {
    let mut v = units_le("\u{1F600}x");
    v.extend_from_slice(&[0, 0]);
    let items = round_trip(le16(), &v);
    assert_eq!(text_of(&items[0]), "\u{1F600}x");
}

#[test]
fn decode_text_converts_utf16_and_utf8() {
    assert_eq!(decode_text(be16(), &[0, 0x68, 0, 0x69]).unwrap(), "hi");
    assert_eq!(decode_text(le8(), "é!".as_bytes()).unwrap(), "é!");
    assert_eq!(decode_text(le16(), &[0x41]).unwrap_err(), CodecError::InvalidText);
}

#[test]
fn utf8_value_with_control() {
    let mut v = "né!".as_bytes().to_vec();
    v.extend(u16s_le(&[0x0E, 5, 3, 4]));
    v.extend_from_slice(b"zz");
    v.extend_from_slice(&[0, 0]);
    let items = round_trip(le8(), &v);
    assert_eq!(items.len(), 3);
    assert_eq!(text_of(&items[0]), "né!");
    assert_eq!(text_of(&items[2]), "zz");
}

#[test]
fn variable_string_control_utf16_and_utf8() {
    // main 2, subtype 1: field_1, length-prefixed text, field_3
    let mut v = u16s_le(&[0x0E, 2, 1, 10, 4]);
    v.extend(units_le("ok"));
    v.extend(u16s_le(&[20, 0]));
    let items = round_trip(le16(), &v);
    match &items[0] {
        Content::Control(Control::Two(Control2::Type1(c))) => {
            assert_eq!(c.field_1, 10);
            assert_eq!(c.string, "ok");
            assert_eq!(c.field_3, 20);
        }
        _ => panic!("expected control 2.1"),
    }
    let mut w = u16s_le(&[0x0E, 2, 1, 10, 2]);
    w.extend_from_slice(b"ok");
    w.extend(u16s_le(&[20, 0]));
    round_trip(le8(), &w);
}

#[test]
fn one_field_subtypes_of_two() {
    for sub in [3u16, 4, 7, 8, 10, 13] {
        let v = u16s_le(&[0x0E, 2, sub, 77, 0]);
        round_trip(le16(), &v);
    }
}

#[test]
fn every_subtype_of_zero_round_trips() {
    round_trip(le16(), &u16s_le(&[0x0E, 0, 0, 1, 2, 3, 0]));
    round_trip(le16(), &u16s_le(&[0x0E, 0, 1, 1, 2, 0]));
    round_trip(le16(), &u16s_le(&[0x0E, 0, 2, 1, 2, 0]));
    round_trip(le16(), &u16s_le(&[0x0E, 0, 3, 1, 2, 0]));
    round_trip(le16(), &u16s_le(&[0x0E, 0, 4, 1, 0]));
    assert_eq!(
        parse_controls(le16(), &u16s_le(&[0x0E, 0, 5, 1, 0])).unwrap_err(),
        CodecError::UnknownSubtype { main: 0, marker: 5 }
    );
}

#[test]
fn fixed_subtypes_of_one_round_trip() {
    round_trip(le16(), &u16s_le(&[0x0E, 1, 0, 1, 2, 0]));
    round_trip(le16(), &u16s_le(&[0x0E, 1, 1, 1, 2, 0]));
    round_trip(le16(), &u16s_le(&[0x0E, 1, 2, 1, 0]));
    round_trip(le16(), &u16s_le(&[0x0E, 1, 3, 1, 0x5678, 0x1234, 0]));
    round_trip(le16(), &u16s_le(&[0x0E, 1, 4, 1, 2, 3, 0xABCD, 0]));
    round_trip(le16(), &u16s_le(&[0x0E, 1, 5, 1, 2, 3, 4, 0xABCD, 0]));
    round_trip(le16(), &u16s_le(&[0x0E, 1, 6, 1, 2, 3, 4, 5, 0xABCD, 0]));
    round_trip(le16(), &u16s_le(&[0x0E, 1, 7, 1, 0xABCD, 0]));
    round_trip(le16(), &u16s_le(&[0x0E, 1, 10, 1, 2, 0xABCD, 0]));
}

#[test]
fn subtype_three_of_one_reads_u32() {
    let items = round_trip(be16(), &u16s_be(&[0x0E, 1, 3, 9, 0x1234, 0x5678, 0]));
    match &items[0] {
        Content::Control(Control::One(Control1::Type3(c))) => {
            assert_eq!(c.field_1, 9);
            assert_eq!(c.field_2, 0x1234_5678);
        }
        _ => panic!("expected control 1.3"),
    }
}

#[test]
fn type_three_and_four_blobs() {
    // main 3: field_1, then a length-prefixed run of four raw bytes
    let mut v = u16s_le(&[0x0E, 3, 5, 4]);
    v.extend_from_slice(&[1, 2, 3, 4]);
    v.extend_from_slice(&[0, 0]);
    let items = round_trip(le16(), &v);
    match &items[0] {
        Content::Control(Control::Three(c)) => assert_eq!(c.field_2, vec![1, 2, 3, 4]),
        _ => panic!("expected control 3"),
    }
    let mut w = u16s_le(&[0x0E, 4, 1, 2]);
    w.extend_from_slice(&[9, 8]);
    w.extend_from_slice(&[0, 0]);
    round_trip(le16(), &w);
    let mut x = u16s_le(&[0x0E, 4, 0, 6, 2]);
    x.extend(units_le("q"));
    x.extend_from_slice(&[0, 0]);
    round_trip(le16(), &x);
    round_trip(le16(), &u16s_le(&[0x0E, 4, 2, 6, 0]));
    round_trip(le16(), &u16s_le(&[0x0E, 4, 3, 6, 0]));
}

#[test]
fn two_hundred_one_round_trips() {
    let mut v = u16s_le(&[0x0E, 201, 1, 2, 3, 4, 5, 6, 6]);
    v.extend(units_le("abc"));
    v.extend_from_slice(&[0, 0]);
    let items = round_trip(le16(), &v);
    match &items[0] {
        Content::Control(Control::TwoHundredOne(c)) => {
            assert_eq!(c.field_6, 6);
            assert_eq!(c.field_7, "abc");
        }
        _ => panic!("expected control 201"),
    }
}

#[test]
fn oversized_blob_is_field_too_long() {
    let c = Control3 { field_1: 0, field_2: vec![0; 70000] };
    let items = vec![Content::Control(Control::Three(c))];
    assert_eq!(Content::write_all(le16(), &items).unwrap_err(), CodecError::FieldTooLong);
}

fn one_eight_value(payload: &[u8]) -> Vec<u8> {
    let mut v = u16s_le(&[0x0E, 1, 8, (payload.len() + 4) as u16]);
    v.extend_from_slice(payload);
    v.extend_from_slice(&[7, 7, 7, 7]);
    v.extend_from_slice(&[0, 0]);
    v
}

fn one_eight_of(items: &[Content]) -> &Control1_8 {
    match &items[0] {
        Content::Control(Control::One(Control1::Type8(c))) => c,
        _ => panic!("expected control 1.8"),
    }
}

#[test]
fn sentinel_run_of_one() {
    let v = one_eight_value(&[255, 255, 0, 0, 1, 0, 2, 0]);
    let items = round_trip(le16(), &v);
    let c = one_eight_of(&items);
    assert_eq!(c.unknown_1.len(), 1);
    assert_eq!(c.field_1, vec![1, 2]);
    assert_eq!(c.field_2, [7, 7, 7, 7]);
}

#[test]
fn sentinel_run_needs_first_stride() {
    let v = one_eight_value(&[1, 0, 2, 0, 255, 255, 0, 0]);
    let items = round_trip(le16(), &v);
    let c = one_eight_of(&items);
    assert_eq!(c.unknown_1.len(), 0);
    assert_eq!(c.field_1, vec![1, 2, 0xFFFF, 0]);
}

#[test]
fn sentinel_run_of_two() {
    let v = one_eight_value(&[255, 255, 0, 0, 255, 255, 0, 0, 3, 0]);
    let items = round_trip(le16(), &v);
    let c = one_eight_of(&items);
    assert_eq!(c.unknown_1.len(), 2);
    assert_eq!(c.field_1, vec![3]);
}

#[test]
fn short_length_is_inconsistent() {
    let v = u16s_le(&[0x0E, 1, 8, 2, 0, 0, 0]);
    assert_eq!(parse_controls(le16(), &v).unwrap_err(), CodecError::InconsistentLength);
}

fn one_nine_value(first: bool, second: bool, length: Option<u16>) -> Vec<u8> {
    let mut body = Vec::new();
    let block = [255u8, 255, 0, 0, 255, 255, 0, 0, 255, 255, 0, 0];
    if first {
        body.extend_from_slice(&block);
    }
    for (i, s) in ["a", "bc", "", "d"].iter().enumerate() {
        body.extend(u16s_le(&[i as u16, (2 * s.len()) as u16]));
        body.extend(units_le(s));
    }
    body.extend(u16s_le(&[40, 50]));
    if second {
        body.extend_from_slice(&block);
    }
    body.extend_from_slice(&[6, 6]);
    let mut v = u16s_le(&[0x0E, 1, 9, length.unwrap_or(body.len() as u16)]);
    v.extend(body);
    v.extend_from_slice(&[0, 0]);
    v
}

fn one_nine_of(items: &[Content]) -> &Control1_9 {
    match &items[0] {
        Content::Control(Control::One(Control1::Type9(c))) => c,
        _ => panic!("expected control 1.9"),
    }
}

#[test]
fn optional_blocks_detected() {
    for (first, second) in [(false, false), (true, false), (true, true), (false, true)] {
        let v = one_nine_value(first, second, None);
        let items = round_trip(le16(), &v);
        let c = one_nine_of(&items);
        assert_eq!(c.unknown_1.is_some(), first);
        assert_eq!(c.unknown_2.is_some(), second);
        assert_eq!(c.strings[1].string, "bc");
        assert_eq!(c.strings[3].field_1, 3);
        assert_eq!((c.field_4, c.field_5), (40, 50));
    }
}

#[test]
fn wrong_declared_length_is_inconsistent() {
    let v = one_nine_value(false, false, Some(3));
    assert_eq!(parse_controls(le16(), &v).unwrap_err(), CodecError::InconsistentLength);
}

#[test]
fn one_nine_written_from_fields() {
    let s = |f: u16, t: &str| Control1_9String { field_1: f, string: t.to_string() };
    let c = Control1_9 {
        unknown_1: None,
        strings: [s(0, "a"), s(1, "bc"), s(2, ""), s(3, "d")],
        field_4: 40,
        field_5: 50,
        unknown_2: None,
        field_6: [6, 6],
    };
    let items = vec![Content::Control(Control::One(Control1::Type9(c)))];
    let v = Content::write_all(le16(), &items).unwrap();
    assert_eq!(v, one_nine_value(false, false, None));
}

#[test]
fn control_write_starts_with_sentinel() {
    let c = Control::Five(Control5 { field_1: 1, field_2: 2 });
    let mut w = Vec::new();
    c.write(le16(), &mut w).unwrap();
    assert_eq!(w, vec![0x0E, 0, 5, 0, 1, 0, 2, 0]);
    let mut b = Vec::new();
    c.write(be16(), &mut b).unwrap();
    assert_eq!(b, vec![0, 0x0E, 0, 5, 0, 1, 0, 2]);
}

#[test]
fn unknown_marker_without_terminator() {
    let mut v = units_le("hi");
    v.extend(u16s_le(&[0x0E, 0xFF, 1]));
    assert_eq!(parse_controls(le16(), &v).unwrap_err(), CodecError::UnknownMainType { marker: 0xFF });
}

#[test]
fn missing_terminator_after_control() {
    let v = u16s_le(&[0x0E, 5, 7, 9]);
    assert_eq!(parse_controls(le16(), &v).unwrap_err(), CodecError::TruncatedInput);
}

#[test]
fn utf8_terminator_is_two_bytes() {
    let items = vec![Content::Text("ab".to_string())];
    assert_eq!(Content::write_all(le8(), &items).unwrap(), vec![b'a', b'b', 0, 0]);
}

#[test]
fn writing_joined_lists_shares_one_terminator() {
    for ctx in [le16(), le8()] {
        let a = vec![Content::Text("xy".to_string())];
        let b = vec![
            Content::Control(Control::Five(Control5 { field_1: 3, field_2: 4 })),
            Content::Text("zw".to_string()),
        ];
        let x = Content::write_all(ctx, &a).unwrap();
        let y = Content::write_all(ctx, &b).unwrap();
        let ab: Vec<Content> = vec![
            Content::Text("xy".to_string()),
            Content::Control(Control::Five(Control5 { field_1: 3, field_2: 4 })),
            Content::Text("zw".to_string()),
        ];
        let mut expect = x[..x.len() - 2].to_vec();
        expect.extend(y);
        assert_eq!(Content::write_all(ctx, &ab).unwrap(), expect);
    }
}

#[test]
fn checked_readers() {
    assert_eq!(read_u16(ByteOrder::Big, &[1, 2, 3], 1), Ok(0x0203));
    assert_eq!(read_u16(ByteOrder::Little, &[1, 2, 3], 1), Ok(0x0302));
    assert_eq!(read_u16(ByteOrder::Little, &[1, 2, 3], 2), Err(CodecError::TruncatedInput));
    assert_eq!(read_u32(ByteOrder::Big, &[1, 2, 3, 4], 0), Ok(0x0102_0304));
    assert_eq!(read_u32(ByteOrder::Little, &[1, 2, 3, 4], 0), Ok(0x0403_0201));
    assert_eq!(read_u32(ByteOrder::Little, &[1, 2, 3, 4], 1), Err(CodecError::TruncatedInput));
}

#[test]
fn utf8_string_is_one_item() {
    let mut v = "héllo".as_bytes().to_vec();
    v.extend_from_slice(&[0, 0]);
    let items = round_trip(le8(), &v);
    assert_eq!(items.len(), 1);
    assert_eq!(text_of(&items[0]), "héllo");
}

#[test]
fn utf8_truncation_rejected() {
    let mut v = b"ab".to_vec();
    v.extend(u16s_le(&[0x0E, 5, 1, 2, 0]));
    assert!(parse_controls(le8(), &v).is_ok());
    v.pop();
    assert_eq!(parse_controls(le8(), &v).unwrap_err(), CodecError::TruncatedInput);
}
