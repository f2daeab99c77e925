use path_editor::codec::{decode_utf16_reg, encode_utf16_reg, join_path, split_path};
use path_editor::utf16::{decode_utf16_lossy, encode_utf16, to_wide};

fn strings(items: &[&str]) -> Vec<String> {
    items.iter().map(|s| s.to_string()).collect()
}

fn le_bytes(units: &[u16]) -> Vec<u8> {
    let mut bytes = Vec::new();
    for u in units {
        bytes.push((u & 0xFF) as u8);
        bytes.push((u >> 8) as u8);
    }
    bytes
}

#[test]
fn split_cuts_at_semicolons() {
    assert_eq!(split_path("C:\\A;C:\\B;C:\\C"), strings(&["C:\\A", "C:\\B", "C:\\C"]));
}

#[test]
fn split_trims_each_piece() {
    assert_eq!(split_path("  C:\\A ;\tC:\\B\t; C:\\C\u{A0}"), strings(&["C:\\A", "C:\\B", "C:\\C"]));
}

#[test]
fn split_discards_empty_pieces() {
    assert_eq!(split_path(";;C:\\A;; ;C:\\B;"), strings(&["C:\\A", "C:\\B"]));
}

#[test]
fn split_of_empty_text_is_empty() {
    assert_eq!(split_path(""), Vec::<String>::new());
    assert_eq!(split_path("   "), Vec::<String>::new());
    assert_eq!(split_path(";"), Vec::<String>::new());
}

#[test]
fn split_keeps_order_and_duplicates() {
    assert_eq!(split_path("b;a;b;A"), strings(&["b", "a", "b", "A"]));
}

#[test]
fn split_keeps_inner_spaces() {
    assert_eq!(split_path("C:\\Program Files\\X ; D:\\My Tools"), strings(&["C:\\Program Files\\X", "D:\\My Tools"]));
}

#[test]
fn join_puts_semicolons_between() {
    assert_eq!(join_path(&strings(&["C:\\A", "C:\\B", "C:\\C"])), "C:\\A;C:\\B;C:\\C");
}

#[test]
fn join_of_one_entry_has_no_separator() {
    assert_eq!(join_path(&strings(&["C:\\A"])), "C:\\A");
}

#[test]
fn join_of_nothing_is_empty() {
    assert_eq!(join_path(&[]), "");
}

#[test]
fn split_undoes_join() {
    let lists = [
        strings(&[]),
        strings(&["C:\\Tools"]),
        strings(&["C:\\A", "%SystemRoot%\\System32", "D:\\My Tools", "C:\\A"]),
        strings(&["é", "日本語", "x y"]),
    ];
    for xs in lists.iter() {
        assert_eq!(&split_path(&join_path(xs)), xs);
    }
}

#[test]
fn encode_appends_one_nul_unit() {
    assert_eq!(encode_utf16_reg(""), vec![0u8, 0u8]);
    assert_eq!(encode_utf16_reg("A"), vec![0x41u8, 0, 0, 0]);
}

#[test]
fn encode_is_little_endian() {
    assert_eq!(encode_utf16_reg("\u{20AC}"), vec![0xACu8, 0x20, 0, 0]);
}

#[test]
fn encode_of_tools_path() {
    let expected = le_bytes(&[0x43, 0x3A, 0x5C, 0x54, 0x6F, 0x6F, 0x6C, 0x73, 0]);
    assert_eq!(encode_utf16_reg("C:\\Tools"), expected);
}

#[test]
fn encode_uses_surrogate_pairs() {
    assert_eq!(encode_utf16_reg("\u{1F600}"), le_bytes(&[0xD83D, 0xDE00, 0]));
    assert_eq!(encode_utf16_reg("\u{10000}"), le_bytes(&[0xD800, 0xDC00, 0]));
    assert_eq!(encode_utf16_reg("\u{10FFFF}"), le_bytes(&[0xDBFF, 0xDFFF, 0]));
}

#[test]
fn encode_agrees_with_std() {
    for s in ["", "C:\\Tools;D:\\x", "héllo wörld", "日本語\u{1F600}z", "\u{FFFF}\u{E000}\u{D7FF}"] {
        let mut units: Vec<u16> = s.encode_utf16().collect();
        units.push(0);
        assert_eq!(encode_utf16_reg(s), le_bytes(&units));
        assert_eq!(to_wide(s), units);
    }
}

#[test]
fn decode_of_short_buffer_is_empty() {
    assert_eq!(decode_utf16_reg(&[]), "");
    assert_eq!(decode_utf16_reg(&[0x41]), "");
}

#[test]
fn decode_strips_all_trailing_nuls() {
    assert_eq!(decode_utf16_reg(&le_bytes(&[0x41, 0x42, 0, 0, 0])), "AB");
    assert_eq!(decode_utf16_reg(&le_bytes(&[0, 0])), "");
}

#[test]
fn decode_keeps_inner_nul() {
    assert_eq!(decode_utf16_reg(&le_bytes(&[0x41, 0, 0x42, 0])), "A\0B");
}

#[test]
fn decode_ignores_odd_last_byte() {
    let mut bytes = le_bytes(&[0x41, 0x42, 0]);
    bytes.push(0x7F);
    assert_eq!(decode_utf16_reg(&bytes), "AB");
}

#[test]
fn decode_without_terminator() {
    assert_eq!(decode_utf16_reg(&le_bytes(&[0x43, 0x3A])), "C:");
}

#[test]
fn decode_joins_surrogate_pairs() {
    assert_eq!(decode_utf16_reg(&le_bytes(&[0xD83D, 0xDE00, 0])), "\u{1F600}");
}

#[test]
fn decode_replaces_unpaired_surrogates() {
    assert_eq!(decode_utf16_reg(&le_bytes(&[0xD83D, 0x41, 0])), "\u{FFFD}A");
    assert_eq!(decode_utf16_reg(&le_bytes(&[0xDE00, 0x41, 0])), "\u{FFFD}A");
    assert_eq!(decode_utf16_reg(&le_bytes(&[0x41, 0xD83D])), "A\u{FFFD}");
    assert_eq!(decode_utf16_reg(&le_bytes(&[0xD83D, 0xD83D, 0xDE00])), "\u{FFFD}\u{1F600}");
    assert_eq!(decode_utf16_reg(&le_bytes(&[0xDE00, 0xD83D])), "\u{FFFD}\u{FFFD}");
}

#[test]
fn decode_agrees_with_std() {
    let cases: [&[u16]; 6] = [
        &[],
        &[0x43, 0x3A, 0x5C],
        &[0xD800, 0xDC00, 0xDBFF, 0xDFFF],
        &[0xD800, 0xD800, 0xDC00, 0xDC00],
        &[0xFFFF, 0xE000, 0xD7FF, 0xDFFF, 0x20],
        &[0x65E5, 0x672C, 0x8A9E, 0xDBFF],
    ];
    for units in cases.iter() {
        let expected = String::from_utf16_lossy(units);
        let got: String = decode_utf16_lossy(&units.to_vec()).into_iter().collect();
        assert_eq!(got, expected);
        assert_eq!(decode_utf16_reg(&le_bytes(units)), expected);
    }
}

#[test]
fn encode_units_agree_with_std() {
    for s in ["", "abc", "\u{1F600}\u{10000}", "a\u{FFFD}b"] {
        let chars: Vec<char> = s.chars().collect();
        let expected: Vec<u16> = s.encode_utf16().collect();
        assert_eq!(encode_utf16(&chars), expected);
    }
}

#[test]
fn encode_of_decoded_keeps_the_text() {
    let buffers = [
        le_bytes(&[0]),
        le_bytes(&[0x43, 0x3A, 0x5C, 0x41, 0]),
        le_bytes(&[0x41, 0, 0, 0]),
        le_bytes(&[0xD83D, 0xDE00, 0x3B, 0xD83D, 0]),
        le_bytes(&[0x41, 0, 0x42, 0]),
    ];
    for b in buffers.iter() {
        let text = decode_utf16_reg(b);
        assert_eq!(decode_utf16_reg(&encode_utf16_reg(&text)), text);
    }
}

#[test]
fn decode_undoes_encode() {
    for s in ["", "C:\\Tools", "%SystemRoot%\\System32;D:\\x", "日本語\u{1F600}"] {
        assert_eq!(decode_utf16_reg(&encode_utf16_reg(s)), s);
    }
}
