//! Plain text output of a REPL, kept in a simulated terminal.
//!
//! * `geometry`: sizes of the grid and of what is painted.
//! * `cell`: the cells of the grid, and how many of them a row takes.
//! * `text`: what is read out of the rows of the grid.
//! * `command`: the commands in the bytes of a terminal that set a color.
//! * `emulator`: the terminal emulator that the output runs on.
//! * `plain`: what becomes of text without escape sequences.
//! * `output`: the output itself, [`output::TerminalOutput`].
//! * `laws`: what the operations do, in terms of their inputs and results.

pub mod cell;
pub mod command;
pub mod emulator;
pub mod geometry;
pub mod laws;
pub mod output;
pub mod plain;
pub mod text;
