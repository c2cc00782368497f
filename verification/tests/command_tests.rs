use lattice::commands::{all_commands, commands_for_autocomplete, get_help_text, is_command, parse_command};

#[test]
fn command_table_lists_thirteen_commands() {
    let cmds = all_commands();
    assert_eq!(cmds.len(), 13);
    assert_eq!(cmds[0].command, ":help");
    assert_eq!(cmds[12].description, "Copy last result");
    let pairs = commands_for_autocomplete();
    assert_eq!(pairs[8], (":q", "Quit the REPL (short)"));
}

#[test]
fn commands_are_recognised_after_trimming() {
    assert!(is_command("  :help  "));
    assert!(!is_command("x + 1"));
    assert!(!is_command(""));
    assert_eq!(parse_command("  :vars \n"), Some("vars".to_string()));
    assert_eq!(parse_command(":"), Some(String::new()));
    assert_eq!(parse_command("help"), None);
}

#[test]
fn help_text_has_header() {
    let lines = get_help_text();
    assert_eq!(lines[0], "DSL REPL - Help");
    assert_eq!(lines.len(), 20);
}
