use pdf2fountain::calibrate::{calibrate_layout, LayoutProfile};
use pdf2fountain::convert::{pages_to_fountain, parse_page_range};
use pdf2fountain::fountain::format_fountain;
use pdf2fountain::fsm::{ElementType, ScriptBlock, TitlePageInfo};
use pdf2fountain::geom::{PageData, RawTextItem};

fn pt(v: f32) -> i32 {
    (v * 100.0).round() as i32
}

fn item(x: f32, y: f32, text: &str) -> RawTextItem {
    RawTextItem { x: pt(x), y: pt(y), text: text.to_string() }
}

#[test]
fn page_ranges() {
    assert_eq!(parse_page_range("1-5"), Some((1, 5)));
    assert_eq!(parse_page_range("2-"), Some((2, usize::MAX)));
    assert_eq!(parse_page_range("3"), Some((3, 3)));
    assert_eq!(parse_page_range("-4"), Some((1, 4)));
    assert_eq!(parse_page_range(" 7 "), Some((7, 7)));
    assert_eq!(parse_page_range("a"), None);
    assert_eq!(parse_page_range("1-2-3"), None);
    assert_eq!(parse_page_range("1-x"), None);
}

#[test]
fn margins_learned() {
    let w = pt(595.0);
    let page = PageData {
        page_number: 2,
        width: w,
        height: pt(842.0),
        lines: vec![
            RawTextItem { x: 11300, y: 70000, text: "Action one".to_string() },
            RawTextItem { x: 11300, y: 68000, text: "Action two".to_string() },
            RawTextItem { x: 11300, y: 66000, text: "Action three".to_string() },
            RawTextItem { x: 17850, y: 64000, text: "Some dialogue".to_string() },
            RawTextItem { x: 17850, y: 62000, text: "More dialogue".to_string() },
            RawTextItem { x: 26180, y: 60000, text: "NAME".to_string() },
            RawTextItem { x: 26180, y: 58000, text: "OTHER".to_string() },
            RawTextItem { x: 26180, y: 83000, text: "7." .to_string() },
        ],
    };
    let p = calibrate_layout(&[page]);
    assert_eq!(
        p,
        LayoutProfile { action_x: 19, dialogue_x: 30, parenthetical_x: 37, character_x: 44, transition_x: 80 }
    );
}

#[test]
fn empty_document() {
    assert_eq!(format_fountain(None, &[]), "");
    let empty_title = TitlePageInfo { title: None, author: None, credit: None };
    assert_eq!(format_fountain(Some(&empty_title), &[]), "");
}

#[test]
fn document_rendered() {
    let blocks = vec![
        ScriptBlock { element_type: ElementType::SceneHeading, text: "int. kitchen - day".to_string(), scene_number: Some("3".to_string()) },
        ScriptBlock { element_type: ElementType::Character, text: "bob".to_string(), scene_number: None },
        ScriptBlock { element_type: ElementType::Dialogue, text: "Hi.".to_string(), scene_number: None },
        ScriptBlock { element_type: ElementType::Action, text: "He leaves.".to_string(), scene_number: None },
        ScriptBlock { element_type: ElementType::Transition, text: "CUT TO:".to_string(), scene_number: None },
    ];
    let tp = TitlePageInfo { title: Some(" A FILM ".to_string()), author: None, credit: None };
    assert_eq!(
        format_fountain(Some(&tp), &blocks),
        "Title: A FILM\n\n.INT. KITCHEN - DAY #3#\n\n@BOB\nHi.\n\n!He leaves.\n\n> CUT TO:\n\n"
    );
}

fn script_page(number: usize, heading: &str) -> PageData {
    PageData {
        page_number: number,
        width: pt(612.0),
        height: pt(792.0),
        lines: vec![
            item(108.0, 700.0, heading),
            item(108.0, 680.0, "Sarah sips her coffee."),
            item(266.0, 640.0, "SARAH"),
            item(180.0, 628.0, "Is anyone here?"),
            item(500.0, 580.0, "CUT TO:"),
        ],
    }
}

#[test]
fn whole_conversion() {
    let pages = vec![script_page(1, "INT. COFFEE SHOP - DAY"), script_page(2, "EXT. STREET - NIGHT")];
    let all = pages_to_fountain(pages.clone(), None);
    assert!(all.contains(".INT. COFFEE SHOP - DAY\n\n"));
    assert!(all.contains(".EXT. STREET - NIGHT\n\n"));
    assert!(all.contains("@SARAH\nIs anyone here?\n\n> CUT TO:\n\n"));
    let second = pages_to_fountain(pages, Some((2, 2)));
    assert!(!second.contains("COFFEE SHOP"));
    assert!(second.starts_with(".EXT. STREET - NIGHT\n\n!Sarah sips her coffee.\n\n"));
}
