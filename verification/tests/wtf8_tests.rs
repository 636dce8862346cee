//! Behavioural tests for the WTF-8 library: code points, buffers,
//! conversions, producers and renderings on concrete values.

use wtf8::CodePoint;
use wtf8::Wtf8;
use wtf8::Wtf8Buf;
use wtf8::is_code_point_boundary;
use wtf8::slice_unchecked;
use wtf8::codec::decode_surrogate;
use wtf8::codec::decode_surrogate_pair;

fn into_string_ok(buf: Wtf8Buf) -> String {
    match buf.into_string() {
        Ok(s) => s,
        Err(_) => panic!("expected UTF-8 content"),
    }
}

fn code_point_values(w: &Wtf8) -> Vec<u32> {
    let mut out = Vec::new();
    let mut it = w.code_points();
    while let Some(cp) = it.next() {
        out.push(cp.to_u32());
    }
    out
}

fn wide_units(w: &Wtf8) -> Vec<u16> {
    let mut out = Vec::new();
    let mut it = w.encode_wide();
    while let Some(u) = it.next() {
        out.push(u);
    }
    out
}

#[test]
fn from_u32_accepts_all_code_points() {
    for v in [0u32, 0x61, 0xD800, 0xDFFF, 0xFFFD, 0x10000, 0x10FFFF] {
        let cp = CodePoint::from_u32(v).unwrap();
        assert_eq!(cp.to_u32(), v);
    }
}

#[test]
fn from_u32_rejects_values_above_max() {
    assert!(CodePoint::from_u32(0x110000).is_none());
    assert!(CodePoint::from_u32(u32::MAX).is_none());
}

#[test]
fn from_u32_unchecked_keeps_value() {
    assert_eq!(CodePoint::from_u32_unchecked(0x1F4A9).to_u32(), 0x1F4A9);
}

#[test]
fn scalar_round_trips_through_code_point() {
    for c in ['a', '\u{0}', 'é', '\u{FFFD}', '\u{10FFFF}', '💩'] {
        let cp = CodePoint::from_char(c);
        assert_eq!(cp.to_u32(), c as u32);
        assert_eq!(cp.to_char(), Some(c));
        assert_eq!(cp.to_char_lossy(), c);
    }
}

#[test]
fn surrogate_has_no_char() {
    let cp = CodePoint::from_u32(0xD800).unwrap();
    assert_eq!(cp.to_char(), None);
    assert_eq!(cp.to_char_lossy(), '\u{FFFD}');
}

#[test]
fn code_point_debug_rendering() {
    assert_eq!(CodePoint::from_u32(0).unwrap().debug_str(), "U+0000");
    assert_eq!(CodePoint::from_char('a').debug_str(), "U+0061");
    assert_eq!(CodePoint::from_u32(0xD800).unwrap().debug_str(), "U+D800");
    assert_eq!(CodePoint::from_char('💩').debug_str(), "U+1F4A9");
    assert_eq!(CodePoint::from_u32(0x10FFFF).unwrap().debug_str(), "U+10FFFF");
}

#[test]
fn surrogate_codec_decodes_bytes() {
    assert_eq!(decode_surrogate(0xA0, 0x80), 0xD800);
    assert_eq!(decode_surrogate(0xAF, 0xBF), 0xDBFF);
    assert_eq!(decode_surrogate(0xB0, 0x80), 0xDC00);
    assert_eq!(decode_surrogate(0xBF, 0xBF), 0xDFFF);
}

#[test]
fn surrogate_codec_combines_pairs() {
    assert_eq!(decode_surrogate_pair(0xD800, 0xDC00), '\u{10000}');
    assert_eq!(decode_surrogate_pair(0xD801, 0xDC02), '\u{10402}');
    assert_eq!(decode_surrogate_pair(0xDBFF, 0xDFFF), '\u{10FFFF}');
}

#[test]
fn wide_round_trip_with_lone_lead() {
    let units: Vec<u16> = vec![0x0061, 0xD800];
    let buf = Wtf8Buf::from_wide(&units);
    assert_eq!(wide_units(buf.as_slice()), units);
    assert_eq!(code_point_values(buf.as_slice()), vec![0x61, 0xD800]);
}

#[test]
fn wide_round_trip_mixed() {
    let units: Vec<u16> = vec![0xDC00, 0x0041, 0xD801, 0xDC02, 0xD802, 0xFFFD, 0xDFFF];
    let buf = Wtf8Buf::from_wide(&units);
    assert_eq!(wide_units(buf.as_slice()), units);
}

#[test]
fn wide_pairs_combine() {
    let buf = Wtf8Buf::from_wide(&[0xD801, 0xDC02]);
    assert_eq!(code_point_values(buf.as_slice()), vec![0x10402]);
    assert_eq!(buf.as_slice().as_bytes(), &[0xF0, 0x90, 0x90, 0x82]);
}

#[test]
fn wide_empty() {
    let buf = Wtf8Buf::from_wide(&[]);
    assert!(buf.as_slice().is_empty());
    assert_eq!(wide_units(buf.as_slice()), Vec::<u16>::new());
}

#[test]
fn utf8_round_trip_through_buffer() {
    let s = String::from("héllo wörld 💖");
    let buf = Wtf8Buf::from_string(s.clone());
    assert_eq!(into_string_ok(buf), s);
}

#[test]
fn utf8_round_trip_from_str() {
    let buf = Wtf8Buf::from_str("abc");
    assert_eq!(buf.as_slice().as_bytes(), b"abc");
    assert_eq!(into_string_ok(buf), "abc");
}

#[test]
fn into_string_returns_buffer_on_surrogate() {
    let mut buf = Wtf8Buf::from_str("ab");
    buf.push(CodePoint::from_u32(0xD800).unwrap());
    let original_bytes: Vec<u8> = buf.as_slice().as_bytes().to_vec();
    match buf.into_string() {
        Ok(_) => panic!("a buffer holding a surrogate is not UTF-8"),
        Err(back) => assert_eq!(back.as_slice().as_bytes(), &original_bytes[..]),
    }
}

#[test]
fn pairing_law_on_push() {
    let mut paired = Wtf8Buf::new();
    paired.push(CodePoint::from_u32(0xD800).unwrap());
    paired.push(CodePoint::from_u32(0xDC00).unwrap());
    let mut direct = Wtf8Buf::new();
    direct.push(CodePoint::from_u32(0x10000).unwrap());
    assert!(paired == direct);
    assert_eq!(paired.as_slice().as_bytes(), &[0xF0, 0x90, 0x80, 0x80]);
}

#[test]
fn push_does_not_pair_lead_after_trail() {
    let mut buf = Wtf8Buf::new();
    buf.push(CodePoint::from_u32(0xDC00).unwrap());
    buf.push(CodePoint::from_u32(0xD800).unwrap());
    assert_eq!(code_point_values(buf.as_slice()), vec![0xDC00, 0xD800]);
}

#[test]
fn push_wtf8_pairs_at_the_boundary() {
    let mut left = Wtf8Buf::from_str("a");
    left.push(CodePoint::from_u32(0xD800).unwrap());
    let mut right = Wtf8Buf::new();
    right.push(CodePoint::from_u32(0xDC00).unwrap());
    right.push_str("b");
    left.push_wtf8(right.as_slice());
    assert_eq!(code_point_values(left.as_slice()), vec![0x61, 0x10000, 0x62]);
}

#[test]
fn push_wtf8_plain_append() {
    let mut left = Wtf8Buf::from_str("a");
    let right = Wtf8Buf::from_str("bc");
    left.push_wtf8(right.as_slice());
    assert_eq!(into_string_ok(left), "abc");
}

#[test]
fn extend_collapses_surrogate_pairs() {
    let cps = [
        CodePoint::from_char('a'),
        CodePoint::from_u32(0xD800).unwrap(),
        CodePoint::from_u32(0xDC00).unwrap(),
    ];
    let buf = Wtf8Buf::from_code_points(&cps);
    assert_eq!(code_point_values(buf.as_slice()), vec![0x61, 0x10000]);
}

#[test]
fn lossy_law_replaces_surrogate_in_place() {
    let buf = Wtf8Buf::from_wide(&[0x61, 0xD800, 0x62]);
    let bytes: Vec<u8> = buf.as_slice().as_bytes().to_vec();
    assert_eq!(bytes, vec![0x61, 0xED, 0xA0, 0x80, 0x62]);
    let text = buf.into_string_lossy();
    assert_eq!(text, "a\u{FFFD}b");
    assert_eq!(text.as_bytes(), &[0x61, 0xEF, 0xBF, 0xBD, 0x62]);
    assert_eq!(text.as_bytes().len(), bytes.len());
}

#[test]
fn to_string_lossy_keeps_clean_content() {
    let buf = Wtf8Buf::from_str("héllo");
    assert_eq!(buf.as_slice().to_string_lossy(), "héllo");
}

#[test]
fn as_str_exactly_when_no_surrogate() {
    let clean = Wtf8Buf::from_str("ok");
    assert_eq!(clean.as_slice().as_str(), Some("ok"));
    let mut dirty = Wtf8Buf::from_str("ok");
    dirty.push(CodePoint::from_u32(0xDFFF).unwrap());
    assert_eq!(dirty.as_slice().as_str(), None);
}

#[test]
fn boundary_law_ends_are_boundaries() {
    for text in ["", "a", "aé💖", "\u{7FF}\u{800}"] {
        let w = Wtf8::from_str(text);
        assert!(is_code_point_boundary(&w, 0));
        assert!(is_code_point_boundary(&w, w.len()));
        assert!(w.slice(0, w.len()).is_some());
    }
}

#[test]
fn boundary_law_slicing_at_boundaries() {
    let w = Wtf8::from_str("aéb");
    assert!(is_code_point_boundary(&w, 1));
    assert!(is_code_point_boundary(&w, 3));
    let mid = w.slice(1, 3).unwrap();
    assert_eq!(mid.as_bytes(), "é".as_bytes());
    let s = slice_unchecked(&w, 0, 1);
    assert_eq!(s.as_bytes(), b"a");
}

#[test]
fn fatal_case_interior_offset_is_refused() {
    let w = Wtf8::from_str("é");
    assert_eq!(w.len(), 2);
    assert!(!is_code_point_boundary(&w, 1));
    assert!(w.slice(0, 1).is_none());
    assert!(w.slice(1, 2).is_none());
    assert!(w.slice(0, 3).is_none());
    assert!(w.slice(2, 0).is_none());
}

#[test]
fn truncate_at_boundary() {
    let mut buf = Wtf8Buf::from_str("aéb");
    buf.truncate(3);
    assert_eq!(buf.as_slice().as_bytes(), "aé".as_bytes());
    buf.truncate(0);
    assert!(buf.as_slice().is_empty());
}

#[test]
fn debug_rendering_of_surrogate() {
    let buf = Wtf8Buf::from_wide(&[0x0061, 0xD800]);
    assert_eq!(buf.debug_str(), "\"a\\u{d800}\"");
}

#[test]
fn debug_rendering_escapes() {
    let buf = Wtf8Buf::from_str("a\"b\\c\nd");
    assert_eq!(buf.debug_str(), "\"a\\\"b\\\\c\\nd\"");
    let tabbed = Wtf8Buf::from_str("\t\r\u{1}");
    assert_eq!(tabbed.debug_str(), "\"\\t\\r\\u{1}\"");
}

#[test]
fn code_points_producer_is_exact() {
    let buf = Wtf8Buf::from_wide(&[0x61, 0xD800, 0xD801, 0xDC02]);
    assert_eq!(code_point_values(buf.as_slice()), vec![0x61, 0xD800, 0x10402]);
}

#[test]
fn code_points_size_hint_bounds() {
    let w = Wtf8::from_str("aéb💖");
    let it = w.code_points();
    let (low, high) = it.size_hint();
    let count = code_point_values(&w).len();
    assert_eq!(high, Some(w.len()));
    assert!(low <= count && count <= high.unwrap());
    assert_eq!(low, (w.len() + 3) / 4);
}

#[test]
fn encode_wide_size_hint_bounds() {
    let w = Wtf8::from_str("a💖");
    let it = w.encode_wide();
    let (low, high) = it.size_hint();
    let count = wide_units(&w).len();
    assert!(low <= count);
    assert_eq!(high, Some(2 * w.len()));
}

#[test]
fn ascii_byte_at_reports_non_ascii() {
    let w = Wtf8::from_str("aé");
    assert_eq!(w.ascii_byte_at(0), 0x61);
    assert_eq!(w.ascii_byte_at(1), 0xFF);
}

#[test]
fn ascii_predicates_and_case() {
    let w = Wtf8::from_str("AbC");
    assert!(w.is_ascii());
    assert!(!Wtf8::from_str("é").is_ascii());
    assert_eq!(w.to_ascii_uppercase().as_slice().as_bytes(), b"ABC");
    assert_eq!(w.to_ascii_lowercase().as_slice().as_bytes(), b"abc");
    assert!(w.eq_ignore_ascii_case(&Wtf8::from_str("aBc")));
    assert!(!w.eq_ignore_ascii_case(&Wtf8::from_str("aBd")));
}

#[test]
fn ascii_case_leaves_non_ascii_untouched() {
    let w = Wtf8::from_str("aé");
    assert_eq!(w.to_ascii_uppercase().as_slice().as_bytes(), "Aé".as_bytes());
}

#[test]
fn make_ascii_case_in_place() {
    let mut w = Wtf8::from_str("MiXed");
    w.make_ascii_uppercase();
    assert_eq!(w.as_bytes(), b"MIXED");
    w.make_ascii_lowercase();
    assert_eq!(w.as_bytes(), b"mixed");
}

#[test]
fn hash_input_appends_discriminator() {
    let w = Wtf8::from_str("ab");
    assert_eq!(w.hash_input(), vec![0x61, 0x62, 0xFE]);
    let buf = Wtf8Buf::from_str("ab");
    assert_eq!(buf.hash_input(), vec![0x61, 0x62, 0xFE]);
}

#[test]
fn equality_is_byte_wise() {
    assert!(Wtf8::from_str("ab") == Wtf8::from_str("ab"));
    assert!(Wtf8::from_str("ab") != Wtf8::from_str("ac"));
    assert!(Wtf8Buf::from_str("ab") == Wtf8Buf::from_str("ab"));
    assert!(Wtf8Buf::from_str("") != Wtf8Buf::from_str("a"));
}

#[test]
fn boxes_round_trip() {
    let buf = Wtf8Buf::from_str("abc");
    let boxed = buf.into_box();
    assert_eq!(boxed.as_bytes(), b"abc");
    let back = Wtf8Buf::from_box(boxed);
    assert_eq!(into_string_ok(back), "abc");
    assert!(Wtf8::empty_box().is_empty());
    let w = Wtf8::from_str("x");
    assert_eq!(w.into_box().as_bytes(), b"x");
}

#[test]
fn capacity_operations_keep_content() {
    let mut buf = Wtf8Buf::with_capacity(16);
    assert!(buf.capacity() >= 16);
    buf.push_str("abc");
    buf.reserve(100);
    assert!(buf.capacity() >= 103);
    buf.reserve_exact(10);
    buf.shrink_to_fit();
    assert_eq!(into_string_ok(buf), "abc");
}

#[test]
fn clear_empties_the_buffer() {
    let mut buf = Wtf8Buf::from_str("abc");
    buf.clear();
    assert!(buf.as_slice().is_empty());
    buf.push_char('x');
    assert_eq!(into_string_ok(buf), "x");
}

#[test]
fn push_char_appends_utf8() {
    let mut buf = Wtf8Buf::new();
    buf.push_char('é');
    buf.push_char('💖');
    assert_eq!(into_string_ok(buf), "é💖");
}

#[test]
fn lone_lead_then_text_stays_unpaired() {
    let mut buf = Wtf8Buf::new();
    buf.push(CodePoint::from_u32(0xD800).unwrap());
    buf.push_str("a");
    assert_eq!(code_point_values(buf.as_slice()), vec![0xD800, 0x61]);
    assert_eq!(wide_units(buf.as_slice()), vec![0xD800, 0x61]);
}

#[test]
fn ordering_is_byte_wise_lexicographic() {
    assert!(Wtf8::from_str("a") < Wtf8::from_str("b"));
    assert!(Wtf8::from_str("a") < Wtf8::from_str("ab"));
    assert!(Wtf8::from_str("") < Wtf8::from_str("a"));
    assert!(Wtf8::from_str("ab") <= Wtf8::from_str("ab"));
    assert!(Wtf8::from_str("b") > Wtf8::from_str("az"));
    assert!(Wtf8Buf::from_str("ab") < Wtf8Buf::from_str("b"));
    let mut lead = Wtf8Buf::from_str("a");
    lead.push(CodePoint::from_u32(0xD800).unwrap());
    // an encoded surrogate (0xED ...) sorts above plain ASCII
    assert!(Wtf8Buf::from_str("az") < lead);
}

#[test]
fn code_point_ordering_follows_values() {
    assert!(CodePoint::from_u32(0x61).unwrap() < CodePoint::from_u32(0x62).unwrap());
    assert!(CodePoint::from_u32(0xD800).unwrap() < CodePoint::from_u32(0x10000).unwrap());
}
