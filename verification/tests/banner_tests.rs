use lattice::banner::{get_banner, get_repl_artwork};
use lattice::markdown::{Attr, MdColor};

#[test]
fn the_banner_names_the_language_and_how_to_quit() {
    let lines = get_banner();
    assert_eq!(lines.len(), 23);
    let text: Vec<String> = lines.iter().map(|l| l.iter().map(|p| p.text.as_str()).collect()).collect();
    assert_eq!(text[6], "                      Agentic LLM Workflow DSL");
    assert_eq!(text[8], "Version:  0.3.0 (Phase 2 Complete)");
    assert!(lines[7].is_empty());
    let esc = &lines[20][1];
    assert_eq!(esc.text, "Esc");
    assert_eq!(esc.style.fg, Some(MdColor::Red));
    assert_eq!(esc.style.bold, Attr::On);
}

#[test]
fn the_workspace_title_is_short() {
    let lines = get_repl_artwork();
    assert_eq!(lines.len(), 5);
    assert_eq!(lines[1][0].text, "  capy");
    assert_eq!(lines[1][1].text, "FLOW");
    assert_eq!(lines[1][1].style.bold, Attr::On);
    assert!(lines[0].is_empty() && lines[4].is_empty());
}
