use pdf2fountain::calibrate::LayoutProfile;
use pdf2fountain::fsm::{
    append_continuation_line, classify_by_margin, clean_character_name, ensure_parentheses,
    extract_scene_number, extract_title_page, find_last_character_name, is_character_name,
    is_more_marker, is_running_page_number, is_scene_heading, is_scene_number_token,
    parse_screenplay, ElementType, ScriptBlock,
};
use pdf2fountain::geom::{PageData, RawTextItem};

fn pt(v: f32) -> i32 {
    (v * 100.0).round() as i32
}

fn item(x: f32, y: f32, text: &str) -> RawTextItem {
    RawTextItem { x: pt(x), y: pt(y), text: text.to_string() }
}

fn block(kind: ElementType, text: &str) -> ScriptBlock {
    ScriptBlock { element_type: kind, text: text.to_string(), scene_number: None }
}

fn standard_profile() -> LayoutProfile {
    LayoutProfile::default()
}

#[test]
fn scene_heading_forms() {
    assert!(is_scene_heading("INT. HOUSE - DAY"));
    assert!(is_scene_heading("12 INT. HOUSE - DAY"));
    assert!(is_scene_heading("ext. park"));
    assert!(is_scene_heading("I/E CAR - MOVING"));
    assert!(is_scene_heading("BACK TO THE ROOM - LATER"));
    assert!(!is_scene_heading("THE END"));
    assert!(!is_scene_heading("She walks in."));
}

#[test]
fn scene_number_tokens() {
    assert!(is_scene_number_token("57A"));
    assert!(is_scene_number_token("#12#"));
    assert!(is_scene_number_token(" 10. "));
    assert!(is_scene_number_token("A-1"));
    assert!(!is_scene_number_token("ABC"));
    assert!(!is_scene_number_token("123456789"));
    assert!(!is_scene_number_token(""));
    assert!(!is_scene_number_token("12!"));
}

#[test]
fn scene_numbers_extracted() {
    assert_eq!(
        extract_scene_number("10 INT. HOUSE - DAY"),
        ("INT. HOUSE - DAY".to_string(), Some("10".to_string()))
    );
    assert_eq!(
        extract_scene_number("INT. HOUSE  -  DAY #202#"),
        ("INT. HOUSE - DAY".to_string(), Some("202".to_string()))
    );
    assert_eq!(extract_scene_number("INT. HOUSE"), ("INT. HOUSE".to_string(), None));
    assert_eq!(extract_scene_number("   "), ("   ".to_string(), None));
}

#[test]
fn character_names() {
    assert!(is_character_name("SARAH"));
    assert!(is_character_name("SARAH (V.O.)"));
    assert!(is_character_name("\"BOB\""));
    assert!(!is_character_name("Sarah"));
    assert!(!is_character_name(""));
    assert!(!is_character_name("(V.O.)"));
    assert!(!is_character_name("ABCDEFGHIJKLMNOPQRSTUVWXYZABCDEFGHIJKLMNOPQRSTU"));
}

#[test]
fn parentheses_ensured() {
    assert_eq!(ensure_parentheses("whispering"), "(whispering)");
    assert_eq!(ensure_parentheses("  (softly) "), "(softly)");
    assert_eq!(ensure_parentheses("(softly"), "(softly)");
}

#[test]
fn continuation_lines() {
    let mut t = "student-".to_string();
    append_continuation_line(&mut t, "ah thirumba paakka koodadhu.");
    assert_eq!(t, "student-ah thirumba paakka koodadhu.");
    let mut t = "Hello".to_string();
    append_continuation_line(&mut t, "  world ");
    assert_eq!(t, "Hello world");
    let mut t = "wait -".to_string();
    append_continuation_line(&mut t, "now");
    assert_eq!(t, "wait - now");
    let mut t = "well--".to_string();
    append_continuation_line(&mut t, "maybe");
    assert_eq!(t, "well-- maybe");
    let mut t = "x ".to_string();
    append_continuation_line(&mut t, "y");
    assert_eq!(t, "x y");
}

#[test]
fn more_markers_and_page_numbers() {
    assert!(is_more_marker("(MORE)"));
    assert!(is_more_marker(" (more) "));
    assert!(!is_more_marker("MORE THAN"));
    assert!(is_running_page_number("2."));
    assert!(is_running_page_number(" 10. "));
    assert!(!is_running_page_number("2A."));
}

#[test]
fn character_names_cleaned() {
    assert_eq!(clean_character_name("JOHN (CONT'D)"), "JOHN");
    assert_eq!(clean_character_name(" MARY (cont\u{2019}d) "), "MARY");
    assert_eq!(clean_character_name("PAUL"), "PAUL");
}

#[test]
fn last_character_name() {
    let blocks = vec![block(ElementType::Character, "ANNA"), block(ElementType::Dialogue, "Hi.")];
    assert_eq!(find_last_character_name(&blocks), Some("ANNA"));
    let blocks = vec![
        block(ElementType::Character, "ANNA"),
        block(ElementType::SceneHeading, "INT. HALL - DAY"),
        block(ElementType::Action, "Quiet."),
    ];
    assert_eq!(find_last_character_name(&blocks), None);
}

#[test]
fn classification_by_margin() {
    let p = standard_profile();
    let w = pt(612.0);
    assert_eq!(classify_by_margin(pt(266.0), w, &p, "SARAH", ElementType::Action), ElementType::Character);
    assert_eq!(classify_by_margin(pt(110.0), w, &p, "She runs.", ElementType::Action), ElementType::Action);
    assert_eq!(
        classify_by_margin(pt(180.0), w, &p, "Hello there.", ElementType::Character),
        ElementType::Dialogue
    );
    assert_eq!(
        classify_by_margin(pt(223.0), w, &p, "(beat)", ElementType::Dialogue),
        ElementType::Parenthetical
    );
    assert_eq!(classify_by_margin(pt(500.0), w, &p, "CUT TO:", ElementType::Action), ElementType::Transition);
    assert_eq!(
        classify_by_margin(pt(2.0 * 266.0), 2 * w, &p, "SARAH", ElementType::Action),
        ElementType::Character
    );
}

#[test]
fn title_page_fields() {
    let page = PageData {
        page_number: 1,
        width: pt(612.0),
        height: pt(792.0),
        lines: vec![
            item(200.0, 500.0, "THE GREAT SCRIPT"),
            item(200.0, 480.0, "Written by"),
            item(200.0, 460.0, "John Doe"),
        ],
    };
    let info = extract_title_page(&page);
    assert_eq!(info.title.as_deref(), Some("THE GREAT SCRIPT"));
    assert_eq!(info.credit.as_deref(), Some("Written by"));
    assert_eq!(info.author.as_deref(), Some("John Doe"));

    let page = PageData {
        page_number: 1,
        width: pt(612.0),
        height: pt(792.0),
        lines: vec![item(200.0, 500.0, "NIGHT SHIFT"), item(200.0, 480.0, "By: Jane Roe")],
    };
    let info = extract_title_page(&page);
    assert_eq!(info.title.as_deref(), Some("NIGHT SHIFT"));
    assert_eq!(info.author.as_deref(), Some("Jane Roe"));
    assert_eq!(info.credit, None);
}

fn sample_page() -> PageData {
    PageData {
        page_number: 2,
        width: pt(612.0),
        height: pt(792.0),
        lines: vec![
            item(540.0, 770.0, "2."),
            item(108.0, 700.0, "INT. COFFEE SHOP - DAY"),
            item(108.0, 680.0, "Sarah sips her coffee."),
            item(108.0, 668.0, "She looks up."),
            item(266.0, 640.0, "SARAH (CONT'D)"),
            item(223.0, 628.0, "(quietly)"),
            item(180.0, 616.0, "Is anyone here?"),
            item(180.0, 604.0, "I need help."),
            item(266.0, 592.0, "(MORE)"),
            item(500.0, 580.0, "CUT TO:"),
            item(60.0, 560.0, "12"),
            item(108.0, 560.0, "INT. HOUSE - NIGHT"),
        ],
    }
}

#[test]
fn screenplay_parsed() {
    let (title, blocks) = parse_screenplay(&[sample_page()], &standard_profile());
    assert!(title.is_none());
    let got: Vec<(ElementType, String, Option<String>)> =
        blocks.iter().map(|b| (b.element_type, b.text.clone(), b.scene_number.clone())).collect();
    let want = vec![
        (ElementType::SceneHeading, "INT. COFFEE SHOP - DAY".to_string(), None),
        (ElementType::Action, "Sarah sips her coffee. She looks up.".to_string(), None),
        (ElementType::Character, "SARAH".to_string(), None),
        (ElementType::Parenthetical, "(quietly)".to_string(), None),
        (ElementType::Dialogue, "Is anyone here? I need help.".to_string(), None),
        (ElementType::Transition, "CUT TO:".to_string(), None),
        (ElementType::SceneHeading, "INT. HOUSE - NIGHT".to_string(), Some("12".to_string())),
    ];
    assert_eq!(got, want);
}

#[test]
fn dialogue_reconnected_across_pages() {
    let page1 = PageData {
        page_number: 2,
        width: pt(612.0),
        height: pt(792.0),
        lines: vec![
            item(266.0, 120.0, "ANNA"),
            item(180.0, 108.0, "I was going to say"),
            item(266.0, 96.0, "(MORE)"),
        ],
    };
    let page2 = PageData {
        page_number: 3,
        width: pt(612.0),
        height: pt(792.0),
        lines: vec![item(266.0, 700.0, "ANNA (CONT'D)"), item(180.0, 688.0, "something else.")],
    };
    let (_, blocks) = parse_screenplay(&[page1, page2], &standard_profile());
    assert_eq!(blocks.len(), 2);
    assert_eq!(blocks[0].text, "ANNA");
    assert_eq!(blocks[1].element_type, ElementType::Dialogue);
    assert_eq!(blocks[1].text, "I was going to say something else.");
}

#[test]
fn title_page_detected_in_screenplay() {
    let title = PageData {
        page_number: 1,
        width: pt(612.0),
        height: pt(792.0),
        lines: vec![item(200.0, 500.0, "TEST FILE"), item(200.0, 480.0, "Written by"), item(200.0, 460.0, "Nirmal")],
    };
    let (info, blocks) = parse_screenplay(&[title], &standard_profile());
    let info = info.expect("title page");
    assert_eq!(info.title.as_deref(), Some("TEST FILE"));
    assert_eq!(info.author.as_deref(), Some("Nirmal"));
    assert!(blocks.is_empty());
}

#[test]
fn page_break_lines_leave_no_trace() {
    let mut with_marks = vec![sample_page(), sample_page()];
    with_marks[1].page_number = 3;
    let without = with_marks.clone();
    with_marks[1].lines.insert(0, item(266.0, 760.0, "(MORE)"));
    let mut numbered = without.clone();
    numbered[1].lines.insert(0, item(540.0, 770.0, "3."));
    let a = parse_screenplay(&without, &standard_profile());
    let b = parse_screenplay(&with_marks, &standard_profile());
    let c = parse_screenplay(&numbered, &standard_profile());
    let texts = |r: &(Option<pdf2fountain::fsm::TitlePageInfo>, Vec<ScriptBlock>)| -> Vec<(ElementType, String, Option<String>)> {
        r.1.iter().map(|b| (b.element_type, b.text.clone(), b.scene_number.clone())).collect()
    };
    assert_eq!(texts(&a), texts(&b));
    assert_eq!(texts(&a), texts(&c));
    assert!(a.0.is_none() && b.0.is_none() && c.0.is_none());
}

#[test]
fn spaced_lowercase_more_marker_leaves_no_trace() {
    let pages = vec![sample_page(), sample_page()];
    let mut marked = pages.clone();
    marked[1].lines.insert(0, item(266.0, 760.0, "(\u{a0}more )"));
    let a = parse_screenplay(&pages, &standard_profile());
    let b = parse_screenplay(&marked, &standard_profile());
    assert_eq!(a.1.len(), b.1.len());
    for (x, y) in a.1.iter().zip(b.1.iter()) {
        assert_eq!((x.element_type, &x.text, &x.scene_number), (y.element_type, &y.text, &y.scene_number));
    }
}
