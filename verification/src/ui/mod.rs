//! The game session behind the window: who plays which side, selection and
//! clicks, undo, resignation, engine turns and the status line.
pub mod app;
