use pdf2fountain::calibrate::{calibrate_layout, is_likely_title_page, is_page_number, is_pure_number};
use pdf2fountain::geom::{PageData, RawTextItem};

/// Positions in the library are hundredths of a point.
fn pt(v: f32) -> i32 {
    (v * 100.0).round() as i32
}

fn item(x: f32, y: f32, text: &str) -> RawTextItem {
    RawTextItem { x: pt(x), y: pt(y), text: text.to_string() }
}

#[test]
fn test_is_page_number() {
    assert!(is_page_number("1"));
    assert!(is_page_number(" 42. "));
    assert!(is_page_number("123"));
    assert!(!is_page_number("PAGE 1"));
    assert!(!is_page_number("Scene 10"));
}

#[test]
fn test_is_pure_number() {
    assert!(is_pure_number("12"));
    assert!(is_pure_number(".45."));
    assert!(!is_pure_number("12A"));
    assert!(!is_pure_number(""));
}

#[test]
fn test_is_likely_title_page_true() {
    let page = PageData {
        page_number: 1,
        width: pt(612.0),
        height: pt(792.0),
        lines: vec![
            item(200.0, 500.0, "THE GREAT SCRIPT"),
            item(200.0, 480.0, "Written by"),
            item(200.0, 460.0, "John Doe"),
        ],
    };
    assert!(is_likely_title_page(&page));
}

#[test]
fn test_is_likely_title_page_false_if_has_scene_heading() {
    let page = PageData {
        page_number: 1,
        width: pt(612.0),
        height: pt(792.0),
        lines: vec![
            item(100.0, 700.0, "INT. LIVING ROOM - DAY"),
            item(100.0, 680.0, "John sits on the couch."),
        ],
    };
    assert!(!is_likely_title_page(&page));
}

#[test]
fn test_is_likely_title_page_false_if_page_gt_1() {
    let page = PageData {
        page_number: 2,
        width: pt(612.0),
        height: pt(792.0),
        lines: vec![item(200.0, 500.0, "Written by")],
    };
    assert!(!is_likely_title_page(&page));
}

#[test]
fn test_calibrate_layout_default() {
    let profile = calibrate_layout(&[]);
    assert_eq!(profile.action_x as f32 / 100.0, 0.18);
    assert_eq!(profile.dialogue_x as f32 / 100.0, 0.30);
    assert_eq!(profile.parenthetical_x as f32 / 100.0, 0.37);
    assert_eq!(profile.character_x as f32 / 100.0, 0.44);
    assert_eq!(profile.transition_x as f32 / 100.0, 0.80);
}

#[test]
fn calibration_ignores_number_lines_and_scale() {
    let lines = vec![
        item(126.0, 700.0, "Some action here."),
        item(126.0, 680.0, "More action."),
        item(252.0, 660.0, "JOHN"),
        item(252.0, 600.0, "MARY"),
        item(180.0, 640.0, "Hello there."),
        item(180.0, 620.0, "Hi."),
        item(460.0, 580.0, "CUT TO:"),
        item(460.0, 500.0, "FADE OUT."),
    ];
    let page = PageData { page_number: 2, width: pt(612.0), height: pt(792.0), lines: lines.clone() };
    let base = calibrate_layout(&[page.clone()]);
    let mut numbered = page.clone();
    numbered.lines.push(item(300.0, 650.0, "42."));
    numbered.lines.push(item(300.0, 450.0, "42."));
    let with_numbers = calibrate_layout(&[numbered]);
    assert_eq!(base, with_numbers);
    // the same page stretched to twice its width
    let wide = PageData {
        page_number: 2,
        width: 2 * pt(612.0),
        height: pt(792.0),
        lines: lines.iter().map(|l| RawTextItem { x: 2 * l.x, y: l.y, text: l.text.clone() }).collect(),
    };
    assert_eq!(base, calibrate_layout(&[wide]));
    assert_eq!(base.transition_x, 75);
}
