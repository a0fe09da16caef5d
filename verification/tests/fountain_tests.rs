use pdf2fountain::fountain::format_fountain;
use pdf2fountain::fsm::{ElementType, ScriptBlock, TitlePageInfo};

fn block(kind: ElementType, text: &str, num: Option<&str>) -> ScriptBlock {
    ScriptBlock { element_type: kind, text: text.to_string(), scene_number: num.map(|n| n.to_string()) }
}

#[test]
fn test_format_title_page() {
    let title_info = TitlePageInfo {
        title: Some("MY SCREENPLAY".to_string()),
        credit: Some("Written by".to_string()),
        author: Some("Jane Doe".to_string()),
    };
    let out = format_fountain(Some(&title_info), &[]);
    assert!(out.contains("Title: MY SCREENPLAY"));
    assert!(out.contains("Credit: Written by"));
    assert!(out.contains("Author: Jane Doe"));
}

#[test]
fn test_format_scene_heading_with_and_without_scene_number() {
    let blocks = vec![
        block(ElementType::SceneHeading, "INT. COFFEE SHOP - DAY", Some("1")),
        block(ElementType::SceneHeading, ".EXT. STREET - NIGHT", None),
    ];
    let out = format_fountain(None, &blocks);
    assert!(out.contains(".INT. COFFEE SHOP - DAY #1#"));
    assert!(out.contains(".EXT. STREET - NIGHT\n\n"));
}

#[test]
fn test_format_action_block() {
    let blocks = vec![
        block(ElementType::Action, "John enters the room.", None),
        block(ElementType::Action, "!Already exclamation prefixed.", None),
    ];
    let out = format_fountain(None, &blocks);
    assert!(out.contains("!John enters the room.\n\n"));
    assert!(out.contains("!Already exclamation prefixed.\n\n"));
}

#[test]
fn test_format_dialogue_block_and_character() {
    let blocks = vec![
        block(ElementType::Character, "JOHN", None),
        block(ElementType::Parenthetical, "(whispering)", None),
        block(ElementType::Dialogue, "Did you hear that?", None),
    ];
    let out = format_fountain(None, &blocks);
    assert!(out.contains("@JOHN\n(whispering)\nDid you hear that?\n"));
}

#[test]
fn test_format_transition() {
    let blocks = vec![
        block(ElementType::Transition, "CUT TO:", None),
        block(ElementType::Transition, "> FADE OUT.", None),
    ];
    let out = format_fountain(None, &blocks);
    assert!(out.contains("> CUT TO:\n\n"));
    assert!(out.contains("> FADE OUT.\n\n"));
}
