//! The views of the terminal interface.

pub mod search;
