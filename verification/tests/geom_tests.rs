use pdf2fountain::geom::{
    decode_bytes, decode_plain_tj, decode_text, decode_tj, merge_same_line_items, parse_cmap,
    parse_hex, parse_utf16_hex, positioned_run, split_hex_tokens, FontInfo, RawTextItem, TextOperand,
};
use std::collections::BTreeMap;

const CMAP: &str = "/CIDInit /ProcSet findresource begin\n\
1 beginbfchar\n\
<0003> <0020>\n\
<0024><0041>\n\
endbfchar\n\
2 beginbfrange\n\
<0010> <0012> <0061>\n\
<0020> <0021> [<0062> <0063>]\n\
endbfrange\n\
end\n";

#[test]
fn hex_tokens_split() {
    assert_eq!(split_hex_tokens("<0003><0003><0020>"), vec!["<0003>", "<0003>", "<0020>"]);
    assert_eq!(
        split_hex_tokens("<0020> <0021> [<0062> <0063>]"),
        vec!["<0020>", "<0021>", "[<0062> <0063>]"]
    );
    assert!(split_hex_tokens("no tokens").is_empty());
}

#[test]
fn hex_values() {
    assert_eq!(parse_hex("<1F>"), Some(31));
    assert_eq!(parse_hex("<0041>"), Some(0x41));
    assert_eq!(parse_hex("<xyz>"), None);
    assert_eq!(parse_hex("<>"), None);
    assert_eq!(parse_hex("<100000000>"), None);
}

#[test]
fn utf16_destinations() {
    assert_eq!(parse_utf16_hex("<00410042>").as_deref(), Some("AB"));
    assert_eq!(parse_utf16_hex("<D83DDE00>").as_deref(), Some("\u{1F600}"));
    assert_eq!(parse_utf16_hex("<004>"), None);
    assert_eq!(parse_utf16_hex("<D800>"), None);
    assert_eq!(parse_utf16_hex("<00G1>"), None);
}

#[test]
fn cmap_parsed() {
    let map = parse_cmap(CMAP.as_bytes());
    let mut want = BTreeMap::new();
    want.insert(0x03u32, " ".to_string());
    want.insert(0x24, "A".to_string());
    want.insert(0x10, "a".to_string());
    want.insert(0x11, "b".to_string());
    want.insert(0x12, "c".to_string());
    want.insert(0x20, "b".to_string());
    want.insert(0x21, "c".to_string());
    assert_eq!(map, want);
}

#[test]
fn bytes_decoded() {
    let map = parse_cmap(CMAP.as_bytes());
    assert_eq!(decode_bytes(&[0x00, 0x24, 0x00, 0x10, 0x00, 0x03], &map, true), "Aa ");
    assert_eq!(decode_bytes(&[0x00, 0x99], &map, true), "");
    assert_eq!(decode_bytes(&[0x41, 0xe9], &BTreeMap::new(), false), "A\u{e9}");
    assert_eq!(decode_bytes(&[0x24], &map, false), "A");
}

#[test]
fn plain_text_decoded() {
    let ops = vec![
        TextOperand::Text(b"Hello".to_vec()),
        TextOperand::Array(vec![Some(b" wor".to_vec()), None, Some(b"ld".to_vec())]),
        TextOperand::Other,
    ];
    assert_eq!(decode_plain_tj(&ops), "Hello world");
    assert_eq!(decode_plain_tj(&[TextOperand::Text(vec![0xff])]), "\u{FFFD}");
    let map = parse_cmap(CMAP.as_bytes());
    assert_eq!(decode_text(&map, true, &[TextOperand::Text(vec![0x00, 0x24])]), "A");
}

#[test]
fn font_with_to_unicode_decoded() {
    let font = FontInfo {
        to_unicode: CMAP.as_bytes().to_vec(),
        encoding: Some(b"Identity-H".to_vec()),
    };
    assert_eq!(decode_tj(&font, &[TextOperand::Text(vec![0x00, 0x24, 0x00, 0x11])]), "Ab");
    // two-byte codes only: a code missing from the CMap is dropped whole
    assert_eq!(decode_tj(&font, &[TextOperand::Text(vec![0x00, 0x99, 0x00, 0x24])]), "A");
    let one_byte = FontInfo { to_unicode: CMAP.as_bytes().to_vec(), encoding: Some(b"WinAnsiEncoding".to_vec()) };
    assert_eq!(decode_tj(&one_byte, &[TextOperand::Text(vec![0x00, 0x99, 0x24])]), "\u{0}\u{99}A");
    let plain_font = FontInfo { to_unicode: Vec::new(), encoding: None };
    assert_eq!(decode_tj(&plain_font, &[TextOperand::Text(b"Ok".to_vec())]), "Ok");
    let vertical = FontInfo { to_unicode: CMAP.as_bytes().to_vec(), encoding: Some(b"Identity-V".to_vec()) };
    assert_eq!(decode_tj(&vertical, &[TextOperand::Array(vec![Some(vec![0x00, 0x03]), None, Some(vec![0x00, 0x24])])]), " A");
}

#[test]
fn runs_merged_into_lines() {
    let items = vec![
        RawTextItem { x: 14000, y: 70000, text: "World".to_string() },
        RawTextItem { x: 10000, y: 68000, text: "Next line".to_string() },
        RawTextItem { x: 10000, y: 70000, text: "Hello".to_string() },
        RawTextItem { x: 30000, y: 70010, text: "42".to_string() },
    ];
    let lines = merge_same_line_items(items);
    let texts: Vec<&str> = lines.iter().map(|l| l.text.as_str()).collect();
    assert_eq!(texts, vec!["Hello World", "42", "Next line"]);
    assert!(merge_same_line_items(Vec::new()).is_empty());
    let tight = vec![
        RawTextItem { x: 10000, y: 50000, text: "Hel".to_string() },
        RawTextItem { x: 12200, y: 50000, text: "lo".to_string() },
    ];
    assert_eq!(merge_same_line_items(tight)[0].text, "Hello");
}

#[test]
fn runs_placed_after_leading_spaces() {
    let run = positioned_run(10000, 70000, "  INT. HOUSE  ").unwrap();
    assert_eq!(run.x, 10000 + 2 * 720);
    assert_eq!(run.y, 70000);
    assert_eq!(run.text, "INT. HOUSE");
    let plain = positioned_run(-500, 100, "DAY").unwrap();
    assert_eq!(plain.x, -500);
    assert_eq!(plain.text, "DAY");
    assert!(positioned_run(0, 0, " \t ").is_none());
    assert!(positioned_run(0, 0, "").is_none());
    let far = positioned_run(i32::MAX - 100, 0, " X").unwrap();
    assert_eq!(far.x, i32::MAX);
}

#[test]
fn cmap_with_crlf_lines() {
    let cmap = "1 beginbfchar\r\n<0024> <0041>\r\nendbfchar\r\n1 beginbfrange\r\n<0030> <0031> <0061>\r\nendbfrange\r\n";
    let map = parse_cmap(cmap.as_bytes());
    let mut want = BTreeMap::new();
    want.insert(0x24u32, "A".to_string());
    want.insert(0x30, "a".to_string());
    want.insert(0x31, "b".to_string());
    assert_eq!(map, want);
}

#[test]
fn hex_tokens_between_blanks() {
    assert_eq!(split_hex_tokens("  <0041>\t<00AB>  <1> "), vec!["<0041>", "<00AB>", "<1>"]);
    assert_eq!(split_hex_tokens("\u{a0}<0041>"), vec!["<0041>"]);
}
