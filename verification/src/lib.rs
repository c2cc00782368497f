//! Lattice: the verified core of a small workflow language and its tools.
//!
//! The crate holds the language's text utilities, its command tables, the
//! type registry, the source-level import resolution, the lexer and parser,
//! and the editing state of the interactive front end.

pub mod banner;
pub mod blocks;
pub mod builtins;
pub mod cells;
pub mod cli;
pub mod commands;
pub mod completion;
pub mod delimiters;
pub mod editor;
pub mod ir;
pub mod keys;
pub mod markdown;
pub mod notebook;
pub mod output;
pub mod prompt;
pub mod repl;
pub mod repl_pane;
pub mod selection;
pub mod submit;
pub mod syntax;
pub mod table_render;
pub mod template;
pub mod text;
pub mod tree;
pub mod tree_render;
pub mod version;
pub mod wrapping;
