//! What the terminal interface decides before it draws: which screen, which
//! pane and which lines, as plain values for the drawing code.

pub mod app;
pub mod laws;
pub mod layout;
pub mod text;
pub mod ui;
pub mod views;
