//! The commands of the interactive front end and the help text.

use vstd::prelude::*;
use crate::text::{trim, trim_chars, string_from_range};

verus! {

/// A command of the interactive front end and what it does.
#[derive(Debug, Clone)]
pub struct CommandDef {
    pub command: &'static str,
    pub description: &'static str,
}

/// The command table: each command with its description, in the order in
/// which the front end lists them.
pub open spec fn command_table() -> Seq<(Seq<char>, Seq<char>)> {
    seq![
        (":help"@, "Show help message"@),
        (":clear"@, "Clear the screen"@),
        (":vars"@, "Show all variables"@),
        (":scopes"@, "Show scope stack (debug)"@),
        (":globals"@, "Show global scope variables"@),
        (":types"@, "Show all types"@),
        (":funcs"@, "Show all functions"@),
        (":quit"@, "Quit the REPL"@),
        (":q"@, "Quit the REPL (short)"@),
        (":save"@, "Save session"@),
        (":load"@, "Load session"@),
        (":debug"@, "Toggle debug mode"@),
        (":copy"@, "Copy last result"@),
    ]
}

/// The command and description of a definition.
pub open spec fn def_view(c: CommandDef) -> (Seq<char>, Seq<char>) {
    (c.command@, c.description@)
}

fn entry(command: &'static str, description: &'static str) -> (c: CommandDef)
    ensures
        c.command == command,
        c.description == description,
{
    CommandDef { command, description }
}

/// All commands with their descriptions.
pub fn all_commands() -> (r: Vec<CommandDef>)
    ensures
        r@.map_values(|c: CommandDef| def_view(c)) == command_table(),
{
    let r = vec![
        entry(":help", "Show help message"),
        entry(":clear", "Clear the screen"),
        entry(":vars", "Show all variables"),
        entry(":scopes", "Show scope stack (debug)"),
        entry(":globals", "Show global scope variables"),
        entry(":types", "Show all types"),
        entry(":funcs", "Show all functions"),
        entry(":quit", "Quit the REPL"),
        entry(":q", "Quit the REPL (short)"),
        entry(":save", "Save session"),
        entry(":load", "Load session"),
        entry(":debug", "Toggle debug mode"),
        entry(":copy", "Copy last result"),
    ];
    assert(r@.map_values(|c: CommandDef| def_view(c)) =~= command_table());
    r
}

/// The commands as `(command, description)` pairs for completion.
pub fn commands_for_autocomplete() -> (r: Vec<(&'static str, &'static str)>)
    ensures
        r@.map_values(|p: (&'static str, &'static str)| (p.0@, p.1@)) == command_table(),
{
    let cmds = all_commands();
    let mut r: Vec<(&'static str, &'static str)> = Vec::new();
    let mut i: usize = 0;
    while i < cmds.len()
        invariant
            i <= cmds@.len(),
            cmds@.map_values(|c: CommandDef| def_view(c)) == command_table(),
            r@.len() == i,
            forall|k: int| 0 <= k < i ==> #[trigger] r@[k] == (cmds@[k].command, cmds@[k].description),
        decreases cmds@.len() - i,
    {
        r.push((cmds[i].command, cmds[i].description));
        i = i + 1;
    }
    proof {
        let a = r@.map_values(|p: (&'static str, &'static str)| (p.0@, p.1@));
        let b = cmds@.map_values(|c: CommandDef| def_view(c));
        assert forall|k: int| 0 <= k < a.len() implies a[k] == b[k] by {
            assert(r@[k] == (cmds@[k].command, cmds@[k].description));
        }
        assert(a =~= b);
    }
    r
}

/// Input is a command when, after trimming white space, it starts with `:`.
pub open spec fn is_command_text(input: Seq<char>) -> bool {
    trim(input).len() > 0 && trim(input)[0] == ':'
}

/// Tells whether the input is a command (starts with `:` once trimmed).
pub fn is_command(input: &str) -> (r: bool)
    ensures
        r == is_command_text(input@),
{
    let t = trim_chars(input);
    t.len() > 0 && t[0] == ':'
}

/// The name of the command in `input`: the trimmed input without its `:`.
pub fn parse_command(input: &str) -> (r: Option<String>)
    ensures
        r is Some <==> is_command_text(input@),
        r matches Some(name) ==> name@ == trim(input@).drop_first(),
{
    let t = trim_chars(input);
    if !(t.len() > 0 && t[0] == ':') {
        return None;
    }
    let s = string_from_range(t.as_slice(), 1, t.len());
    proof { assert(t@.subrange(1, t@.len() as int) =~= t@.drop_first()); }
    Some(s)
}

/// The lines of the help text.
pub open spec fn help_lines() -> Seq<Seq<char>> {
    seq![
        "DSL REPL - Help"@,
        ""@,
        "Available Commands:"@,
        "  :vars    - Show all variables"@,
        "  :help    - Show this help message"@,
        "  :clear   - Clear the screen"@,
        ""@,
        "Syntax:"@,
        "  Literals:    42, \"hello\", true, [1,2,3]"@,
        "  Arithmetic:  10 + 5, x * 2, y / 3"@,
        "  Binding:     expr as varname"@,
        "  Access:      list[0], obj.field"@,
        "  Special:     _  (last result)"@,
        ""@,
        "Examples:"@,
        "  5 as x           # Bind 5 to variable x"@,
        "  x + 10           # Use x in expression"@,
        "  [1,2,3] as nums  # Create a list"@,
        "  nums[0]          # Access first element"@,
        ""@,
    ]
}

fn owned(s: &str) -> (r: String)
    ensures
        r@ == s@,
{
    s.to_owned()
}

/// The help text of the interactive front end, one string per line.
pub fn get_help_text() -> (r: Vec<String>)
    ensures
        r@.map_values(|s: String| s@) == help_lines(),
{
    let r = vec![
        owned("DSL REPL - Help"),
        owned(""),
        owned("Available Commands:"),
        owned("  :vars    - Show all variables"),
        owned("  :help    - Show this help message"),
        owned("  :clear   - Clear the screen"),
        owned(""),
        owned("Syntax:"),
        owned("  Literals:    42, \"hello\", true, [1,2,3]"),
        owned("  Arithmetic:  10 + 5, x * 2, y / 3"),
        owned("  Binding:     expr as varname"),
        owned("  Access:      list[0], obj.field"),
        owned("  Special:     _  (last result)"),
        owned(""),
        owned("Examples:"),
        owned("  5 as x           # Bind 5 to variable x"),
        owned("  x + 10           # Use x in expression"),
        owned("  [1,2,3] as nums  # Create a list"),
        owned("  nums[0]          # Access first element"),
        owned(""),
    ];
    assert(r@.map_values(|s: String| s@) =~= help_lines());
    r
}

} // verus!
