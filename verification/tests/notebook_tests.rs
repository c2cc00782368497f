use lattice::notebook::{export_source, import_source, NotebookCell};

fn cell(description: &str, code: &str) -> NotebookCell {
    NotebookCell {
        id: "c".to_string(),
        code: code.to_string(),
        description: description.to_string(),
        output: None,
        llm_debug: None,
        ui_state: None,
    }
}

#[test]
fn export_writes_descriptions_as_comments() {
    let cells = vec![cell("Setup", "let x = 1"), cell("", "x + 1")];
    assert_eq!(export_source(&cells), "/* Setup */\nlet x = 1\n\nx + 1");
    assert_eq!(export_source(&vec![]), "");
}

fn pairs(v: &[(&str, &str)]) -> Vec<(String, String)> {
    v.iter().map(|(d, c)| (d.to_string(), c.to_string())).collect()
}

#[test]
fn import_reads_comments_and_code() {
    assert_eq!(import_source("/* Setup */\nlet x = 1\n\nx + 1\n"), pairs(&[("Setup", "let x = 1\n\nx + 1")]));
}

#[test]
fn import_multi_line_comment() {
    assert_eq!(import_source("/* first\n  second\n  last */\ncode()"), pairs(&[("first\nsecond\nlast", "code()")]));
}

#[test]
fn import_empty_file_gives_an_empty_cell() {
    assert_eq!(import_source(""), pairs(&[("", "")]));
}

#[test]
fn a_new_cell_starts_at_each_comment() {
    assert_eq!(import_source("/* A */\nx\n\n/* B */\ny"), pairs(&[("A", "x"), ("B", "y")]));
    assert_eq!(import_source("x\n/* B */\ny\n/* C */"), pairs(&[("", "x"), ("B", "y"), ("C", "")]));
    assert_eq!(import_source("/* A */\n/* B */\ny"), pairs(&[("B", "y")]));
}

#[test]
fn cells_survive_export_and_import() {
    let cells = vec![cell("About", "let a = 2"), cell("Then", "a + 1\n\na * 2")];
    assert_eq!(import_source(&export_source(&cells)), pairs(&[("About", "let a = 2"), ("Then", "a + 1\n\na * 2")]));
}

#[test]
fn one_cell_survives_export_and_import() {
    let original = cell("Load the data", "let rows = load(\"a.csv\")\n\nrows[0]");
    let back = import_source(&export_source(&vec![original.clone()]));
    assert_eq!(back, vec![(original.description.clone(), original.code.clone())]);
    let plain = cell("", "x + 1");
    assert_eq!(import_source(&export_source(&vec![plain])), pairs(&[("", "x + 1")]));
}
