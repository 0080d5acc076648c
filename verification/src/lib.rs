//! Runs the shell commands written in a Markdown file and writes the results back into that same
//! file.
//!
//! This library holds what the command line, the terminal interface and the desktop app decide
//! and compute: which parts of a document are commands ([`parse`]), what becomes of a run
//! ([`exec`], [`cancel`], [`capture`]), how its result is formatted ([`render`]) and written back ([`edit`],
//! [`session`], [`apply`]), and what the front ends show ([`cli`], [`tui`], [`gui`]). Files,
//! processes and windows are left to the program around it.
//!
//! That a fence is run as it is written is proved in [`cells`].
//!
//! That a result which was written is found again, that running a cell twice leaves one result,
//! and that the other cells stay as they are is proved in [`writeback`], [`neighbours`] and
//! [`roundtrip`].

pub mod apply;
pub mod atomic;
pub mod cancel;
pub mod capture;
pub mod cells;
pub mod cli;
pub mod destination;
pub mod edit;
pub mod exec;
pub mod fence;
pub mod gui;
pub mod info;
pub mod layout;
pub mod lines;
pub mod link;
pub mod live;
pub mod neighbours;
pub mod number;
pub mod parse;
pub mod paths;
pub mod render;
pub mod roundtrip;
pub mod session;
pub mod text;
pub mod time;
pub mod tui;
pub mod writeback;

pub use edit::{splice, Edit};
pub use exec::{Canceller, ExecOptions, ExecOutcome};
pub use parse::{Cell, Document};
pub use render::{render_result, RenderContext, ResultRender, Sidecar};
