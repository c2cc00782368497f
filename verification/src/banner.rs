//! The artwork the REPL shows above its output: the welcome banner and
//! the small title of the workspace.

use vstd::prelude::*;
use crate::markdown::{MdColor, MdStyle, Attr, StyledPiece, StyledView, styled_line, styled_lines, colored};

verus! {

/// A colour, bold.
pub open spec fn bold_colored(c: MdColor) -> MdStyle {
    MdStyle { bold: Attr::On, ..colored(c) }
}

fn color(c: MdColor) -> (r: MdStyle)
    ensures
        r == colored(c),
{
    MdStyle { fg: Some(c), bold: Attr::Unset, italic: Attr::Unset, underlined: Attr::Unset }
}

fn bold_color(c: MdColor) -> (r: MdStyle)
    ensures
        r == bold_colored(c),
{
    MdStyle { fg: Some(c), bold: Attr::On, italic: Attr::Unset, underlined: Attr::Unset }
}

fn piece(text: &str, style: MdStyle) -> (r: StyledPiece)
    ensures
        r.text@ == text@,
        r.style == style,
{
    StyledPiece { text: String::from_str(text), style }
}

/// The welcome banner: the logo, what the language is, its version and
/// features, a quick start and how to quit or get help.
pub open spec fn banner_view() -> Seq<Seq<StyledView>> {
    seq![
        seq![
            StyledView { text: "                         "@, style: colored(MdColor::Yellow) },
            StyledView { text: "    _____ _                "@, style: bold_colored(MdColor::Cyan) },
        ],
        seq![
            StyledView { text: "   ___ __ _ _ __  _   _  "@, style: colored(MdColor::Yellow) },
            StyledView { text: "   |  ___| | _____      __"@, style: bold_colored(MdColor::Cyan) },
        ],
        seq![
            StyledView { text: "  / __/ _` | '_ \\| | | | "@, style: colored(MdColor::Yellow) },
            StyledView { text: "   | |_  | |/ _ \\ \\ /\\ / /"@, style: bold_colored(MdColor::Cyan) },
        ],
        seq![
            StyledView { text: " | (_| (_| | |_) | |_| | "@, style: colored(MdColor::Yellow) },
            StyledView { text: "   |  _| | | (_) \\ V  V / "@, style: bold_colored(MdColor::Cyan) },
        ],
        seq![
            StyledView { text: "  \\___\\__,_| .__/ \\__, | "@, style: colored(MdColor::Yellow) },
            StyledView { text: "   |_|   |_|\\___/ \\_/\\_/  "@, style: bold_colored(MdColor::Cyan) },
        ],
        seq![
            StyledView { text: "           |_|    |___/  "@, style: colored(MdColor::Yellow) },
            StyledView { text: "                          "@, style: bold_colored(MdColor::Cyan) },
        ],
        seq![
            StyledView { text: "                      Agentic LLM Workflow DSL"@, style: colored(MdColor::White) },
        ],
        Seq::empty(),
        seq![
            StyledView { text: "Version:  "@, style: bold_colored(MdColor::Green) },
            StyledView { text: "0.3.0 (Phase 2 Complete)"@, style: colored(MdColor::White) },
        ],
        seq![
            StyledView { text: "Phase:    "@, style: bold_colored(MdColor::Green) },
            StyledView { text: "3/9 phases complete (33%)"@, style: colored(MdColor::White) },
        ],
        seq![
            StyledView { text: "Features: "@, style: bold_colored(MdColor::Green) },
            StyledView { text: "Literals, Arithmetic, Variables, Binding"@, style: colored(MdColor::White) },
        ],
        seq![
            StyledView { text: "Commands: "@, style: bold_colored(MdColor::Green) },
            StyledView { text: ":vars, :help, :clear"@, style: colored(MdColor::White) },
        ],
        Seq::empty(),
        seq![
            StyledView { text: "Quick Start:"@, style: bold_colored(MdColor::Yellow) },
        ],
        seq![
            StyledView { text: "  → "@, style: colored(MdColor::Blue) },
            StyledView { text: "5 as x"@, style: colored(MdColor::Magenta) },
            StyledView { text: "          # Bind variable"@, style: colored(MdColor::DarkGray) },
        ],
        seq![
            StyledView { text: "  → "@, style: colored(MdColor::Blue) },
            StyledView { text: "x + 10"@, style: colored(MdColor::Magenta) },
            StyledView { text: "         # Use in expression"@, style: colored(MdColor::DarkGray) },
        ],
        seq![
            StyledView { text: "  → "@, style: colored(MdColor::Blue) },
            StyledView { text: "[1,2,3] as nums"@, style: colored(MdColor::Magenta) },
            StyledView { text: " # Lists"@, style: colored(MdColor::DarkGray) },
        ],
        seq![
            StyledView { text: "  → "@, style: colored(MdColor::Blue) },
            StyledView { text: "nums[0]"@, style: colored(MdColor::Magenta) },
            StyledView { text: "        # Index access"@, style: colored(MdColor::DarkGray) },
        ],
        Seq::empty(),
        seq![
            StyledView { text: "━━━━━━━━━━━━━━━━━━━━━━━━━━━━━━━━━━━━━━━━━━━━━━━━━━━━━━━━━━━━━━━━━━"@, style: colored(MdColor::DarkGray) },
        ],
        seq![
            StyledView { text: "Press "@, style: colored(MdColor::White) },
            StyledView { text: "Esc"@, style: bold_colored(MdColor::Red) },
            StyledView { text: " to quit  |  Type "@, style: colored(MdColor::White) },
            StyledView { text: ":help"@, style: bold_colored(MdColor::Cyan) },
            StyledView { text: " for help"@, style: colored(MdColor::White) },
        ],
        seq![
            StyledView { text: "━━━━━━━━━━━━━━━━━━━━━━━━━━━━━━━━━━━━━━━━━━━━━━━━━━━━━━━━━━━━━━━━━━"@, style: colored(MdColor::DarkGray) },
        ],
        Seq::empty(),
    ]
}

/// Draws the welcome banner.
pub fn get_banner() -> (r: Vec<Vec<StyledPiece>>)
    ensures
        styled_lines(r@) == banner_view(),
{
    let mut r: Vec<Vec<StyledPiece>> = Vec::new();
    r.push(vec![
        piece("                         ", color(MdColor::Yellow)),
        piece("    _____ _                ", bold_color(MdColor::Cyan)),
    ]);
    proof { assert(styled_line(r@[0]@) =~= banner_view()[0]); }
    r.push(vec![
        piece("   ___ __ _ _ __  _   _  ", color(MdColor::Yellow)),
        piece("   |  ___| | _____      __", bold_color(MdColor::Cyan)),
    ]);
    proof { assert(styled_line(r@[1]@) =~= banner_view()[1]); }
    r.push(vec![
        piece("  / __/ _` | '_ \\| | | | ", color(MdColor::Yellow)),
        piece("   | |_  | |/ _ \\ \\ /\\ / /", bold_color(MdColor::Cyan)),
    ]);
    proof { assert(styled_line(r@[2]@) =~= banner_view()[2]); }
    r.push(vec![
        piece(" | (_| (_| | |_) | |_| | ", color(MdColor::Yellow)),
        piece("   |  _| | | (_) \\ V  V / ", bold_color(MdColor::Cyan)),
    ]);
    proof { assert(styled_line(r@[3]@) =~= banner_view()[3]); }
    r.push(vec![
        piece("  \\___\\__,_| .__/ \\__, | ", color(MdColor::Yellow)),
        piece("   |_|   |_|\\___/ \\_/\\_/  ", bold_color(MdColor::Cyan)),
    ]);
    proof { assert(styled_line(r@[4]@) =~= banner_view()[4]); }
    r.push(vec![
        piece("           |_|    |___/  ", color(MdColor::Yellow)),
        piece("                          ", bold_color(MdColor::Cyan)),
    ]);
    proof { assert(styled_line(r@[5]@) =~= banner_view()[5]); }
    r.push(vec![
        piece("                      Agentic LLM Workflow DSL", color(MdColor::White)),
    ]);
    proof { assert(styled_line(r@[6]@) =~= banner_view()[6]); }
    r.push(Vec::new());
    proof { assert(styled_line(r@[7]@) =~= banner_view()[7]); }
    r.push(vec![
        piece("Version:  ", bold_color(MdColor::Green)),
        piece("0.3.0 (Phase 2 Complete)", color(MdColor::White)),
    ]);
    proof { assert(styled_line(r@[8]@) =~= banner_view()[8]); }
    r.push(vec![
        piece("Phase:    ", bold_color(MdColor::Green)),
        piece("3/9 phases complete (33%)", color(MdColor::White)),
    ]);
    proof { assert(styled_line(r@[9]@) =~= banner_view()[9]); }
    r.push(vec![
        piece("Features: ", bold_color(MdColor::Green)),
        piece("Literals, Arithmetic, Variables, Binding", color(MdColor::White)),
    ]);
    proof { assert(styled_line(r@[10]@) =~= banner_view()[10]); }
    r.push(vec![
        piece("Commands: ", bold_color(MdColor::Green)),
        piece(":vars, :help, :clear", color(MdColor::White)),
    ]);
    proof { assert(styled_line(r@[11]@) =~= banner_view()[11]); }
    r.push(Vec::new());
    proof { assert(styled_line(r@[12]@) =~= banner_view()[12]); }
    r.push(vec![
        piece("Quick Start:", bold_color(MdColor::Yellow)),
    ]);
    proof { assert(styled_line(r@[13]@) =~= banner_view()[13]); }
    r.push(vec![
        piece("  → ", color(MdColor::Blue)),
        piece("5 as x", color(MdColor::Magenta)),
        piece("          # Bind variable", color(MdColor::DarkGray)),
    ]);
    proof { assert(styled_line(r@[14]@) =~= banner_view()[14]); }
    r.push(vec![
        piece("  → ", color(MdColor::Blue)),
        piece("x + 10", color(MdColor::Magenta)),
        piece("         # Use in expression", color(MdColor::DarkGray)),
    ]);
    proof { assert(styled_line(r@[15]@) =~= banner_view()[15]); }
    r.push(vec![
        piece("  → ", color(MdColor::Blue)),
        piece("[1,2,3] as nums", color(MdColor::Magenta)),
        piece(" # Lists", color(MdColor::DarkGray)),
    ]);
    proof { assert(styled_line(r@[16]@) =~= banner_view()[16]); }
    r.push(vec![
        piece("  → ", color(MdColor::Blue)),
        piece("nums[0]", color(MdColor::Magenta)),
        piece("        # Index access", color(MdColor::DarkGray)),
    ]);
    proof { assert(styled_line(r@[17]@) =~= banner_view()[17]); }
    r.push(Vec::new());
    proof { assert(styled_line(r@[18]@) =~= banner_view()[18]); }
    r.push(vec![
        piece("━━━━━━━━━━━━━━━━━━━━━━━━━━━━━━━━━━━━━━━━━━━━━━━━━━━━━━━━━━━━━━━━━━", color(MdColor::DarkGray)),
    ]);
    proof { assert(styled_line(r@[19]@) =~= banner_view()[19]); }
    r.push(vec![
        piece("Press ", color(MdColor::White)),
        piece("Esc", bold_color(MdColor::Red)),
        piece(" to quit  |  Type ", color(MdColor::White)),
        piece(":help", bold_color(MdColor::Cyan)),
        piece(" for help", color(MdColor::White)),
    ]);
    proof { assert(styled_line(r@[20]@) =~= banner_view()[20]); }
    r.push(vec![
        piece("━━━━━━━━━━━━━━━━━━━━━━━━━━━━━━━━━━━━━━━━━━━━━━━━━━━━━━━━━━━━━━━━━━", color(MdColor::DarkGray)),
    ]);
    proof { assert(styled_line(r@[21]@) =~= banner_view()[21]); }
    r.push(Vec::new());
    proof { assert(styled_line(r@[22]@) =~= banner_view()[22]); }
    proof { assert(styled_lines(r@) =~= banner_view()); }
    r
}

/// The small title shown above the output in the workspace.
pub open spec fn repl_artwork_view() -> Seq<Seq<StyledView>> {
    seq![
        Seq::empty(),
        seq![
            StyledView { text: "  capy"@, style: colored(MdColor::Yellow) },
            StyledView { text: "FLOW"@, style: bold_colored(MdColor::Cyan) },
        ],
        seq![
            StyledView { text: "  ════════════"@, style: colored(MdColor::DarkGray) },
        ],
        seq![
            StyledView { text: "  Agentic LLM Workflow DSL"@, style: colored(MdColor::DarkGray) },
        ],
        Seq::empty(),
    ]
}

/// Draws the workspace title.
pub fn get_repl_artwork() -> (r: Vec<Vec<StyledPiece>>)
    ensures
        styled_lines(r@) == repl_artwork_view(),
{
    let mut r: Vec<Vec<StyledPiece>> = Vec::new();
    r.push(Vec::new());
    proof { assert(styled_line(r@[0]@) =~= repl_artwork_view()[0]); }
    r.push(vec![
        piece("  capy", color(MdColor::Yellow)),
        piece("FLOW", bold_color(MdColor::Cyan)),
    ]);
    proof { assert(styled_line(r@[1]@) =~= repl_artwork_view()[1]); }
    r.push(vec![
        piece("  ════════════", color(MdColor::DarkGray)),
    ]);
    proof { assert(styled_line(r@[2]@) =~= repl_artwork_view()[2]); }
    r.push(vec![
        piece("  Agentic LLM Workflow DSL", color(MdColor::DarkGray)),
    ]);
    proof { assert(styled_line(r@[3]@) =~= repl_artwork_view()[3]); }
    r.push(Vec::new());
    proof { assert(styled_line(r@[4]@) =~= repl_artwork_view()[4]); }
    proof { assert(styled_lines(r@) =~= repl_artwork_view()); }
    r
}

} // verus!
