//! The command grammar of an interactive RCON shell.
//!
//! A server lists its commands as text, one entry for each command, with the
//! arguments written in a loose notation. This crate turns such a listing
//! into a registry of commands and answers from the registry, while the
//! operator types a line, what completes it, what hints at its end, and how
//! it is shown.
//!
//! - `normalize` repairs a listing whose entries run together on one line.
//! - `grammar` reads the lines of a listing; `pattern` holds the regular
//!   expressions that it matches them with.
//! - `registry` collects the commands and resolves the aliases.
//! - `completion` and `highlight` answer the line editor.
//! - `response` sets an error report of the server on two lines.
//! - `command` and `text` hold the data types and the text functions that
//!   the others share.

pub mod command;
pub mod completion;
pub mod grammar;
pub mod highlight;
pub mod normalize;
pub mod pattern;
pub mod registry;
pub mod response;
pub mod text;
