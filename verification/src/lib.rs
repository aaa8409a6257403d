//! Text-model core of a modal terminal editor.
//!
//! The document lives in a [`piece_table::PieceTable`]: two append-only
//! byte buffers and a table of slices of them, with a history of edits that
//! can be undone and redone. An [`editor::Editor`] is a window on it: it
//! keeps the line index in step with the document, holds the cursor, and
//! reads the file line by line as the cursor needs it. [`modes::Via`] puts
//! the key bindings of the three modes on top, and [`screen`] says what is
//! to be written to the terminal, in the control sequences of the
//! `termion` crate.
//!
//! Every type comes with a mathematical model of its state, in
//! [`table_model`], [`editor_model`] and [`modes`]; the operations are
//! functions on the models, and the contracts of the executable functions
//! say which function each of them computes. What holds of those
//! functions is proved in [`history_laws`], [`edit_laws`], [`delete_laws`]
//! and [`editor_laws`].

pub mod options;
pub mod error;
pub mod lines;
pub mod sequences;
pub mod pieces;
pub mod table_model;
pub mod history_laws;
pub mod edit_laws;
pub mod delete_laws;
pub mod piece_table;
pub mod editor_model;
pub mod editor_laws;
pub mod editor;
pub mod modes;
pub mod args;
pub mod screen;
