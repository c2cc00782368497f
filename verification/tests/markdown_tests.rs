use lattice::markdown::{markdown_lines, markdown_to_lines, Attr, MdColor, MdEvent, MdTag, StyledPiece};

fn text(line: &[StyledPiece]) -> String {
    line.iter().map(|p| p.text.as_str()).collect()
}

fn texts(lines: &[Vec<StyledPiece>]) -> Vec<String> {
    lines.iter().map(|l| text(l)).collect()
}

#[test]
fn empty_markdown_is_one_empty_line() {
    assert_eq!(texts(&markdown_to_lines("", 20)), vec![""]);
}

#[test]
fn heading_and_paragraph() {
    let lines = markdown_to_lines("# Title\n\nSome text here.", 40);
    assert_eq!(texts(&lines), vec!["█ Title", "", "Some text here.", ""]);
    assert_eq!(lines[0][0].style.fg, Some(MdColor::Cyan));
    assert_eq!(lines[0][1].style.underlined, Attr::On);
    assert_eq!(lines[2][0].style.fg, None);
}

#[test]
fn second_level_heading_is_blue() {
    let lines = markdown_to_lines("## Part", 40);
    assert_eq!(texts(&lines), vec!["▓ Part", ""]);
    assert_eq!(lines[0][1].style.fg, Some(MdColor::Blue));
}

#[test]
fn code_blocks_are_framed() {
    let lines = markdown_to_lines("```\nfn x\n```", 8);
    assert_eq!(texts(&lines), vec!["┌──────┐", "│ fn x", "└──────┘", ""]);
    assert_eq!(lines[1][1].style.fg, Some(MdColor::Green));
}

#[test]
fn list_items_get_bullets() {
    let lines = markdown_to_lines("- a\n- b", 20);
    assert_eq!(texts(&lines), vec!["• a", "• b", ""]);
    assert_eq!(lines[0][0].style.fg, Some(MdColor::Cyan));
}

#[test]
fn rules_span_the_width() {
    let lines = markdown_to_lines("***", 5);
    assert_eq!(texts(&lines), vec!["─────", ""]);
}

#[test]
fn long_paragraphs_wrap() {
    let lines = markdown_to_lines("one two three", 7);
    assert_eq!(texts(&lines), vec!["one two", "three", ""]);
}

#[test]
fn walk_over_hand_made_events() {
    let events = vec![
        MdEvent::Start(MdTag::Strong),
        MdEvent::Text("bold".to_string()),
        MdEvent::End(MdTag::Strong),
        MdEvent::HardBreak,
        MdEvent::Code("x".to_string()),
        MdEvent::SoftBreak,
        MdEvent::Other,
    ];
    let lines = markdown_lines(&events, 20);
    assert_eq!(texts(&lines), vec!["bold", "`x`"]);
    assert_eq!(lines[0][0].style.bold, Attr::On);
    assert_eq!(lines[0][0].style.fg, Some(MdColor::Yellow));
    assert_eq!(lines[1][0].style.bold, Attr::On);
}

#[test]
fn nothing_drawn_is_one_empty_line() {
    assert_eq!(texts(&markdown_lines(&vec![MdEvent::Other], 10)), vec![""]);
}

#[test]
fn strong_text_is_bold() {
    let lines = markdown_to_lines("**b**", 80);
    let piece = lines.iter().flatten().find(|p| p.text == "b").expect("the strong text is drawn");
    assert!(matches!(piece.style.bold, Attr::On));
    let lines = markdown_to_lines("a *c* d", 80);
    let piece = lines.iter().flatten().find(|p| p.text == "c").expect("the emphasized text is drawn");
    assert!(matches!(piece.style.italic, Attr::On));
    let plain = lines.iter().flatten().find(|p| p.text.trim() == "a").expect("the text before is drawn");
    assert!(!matches!(plain.style.italic, Attr::On));
}

#[test]
fn emphasis_stays_on_its_line() {
    let lines = markdown_to_lines("Hello *world* end", 80);
    assert_eq!(texts(&lines), vec!["Hello world end", ""]);
    assert_eq!(lines[0].len(), 3);
    assert_eq!(lines[0][1].text, "world");
    assert_eq!(lines[0][1].style.italic, Attr::On);
    assert_ne!(lines[0][0].style.italic, Attr::On);
    assert_ne!(lines[0][2].style.italic, Attr::On);
    let lines = markdown_to_lines("a **b** c", 80);
    assert_eq!(texts(&lines), vec!["a b c", ""]);
    assert_eq!(lines[0][1].style.bold, Attr::On);
    assert_eq!(lines[0][1].style.fg, Some(MdColor::Yellow));
}
