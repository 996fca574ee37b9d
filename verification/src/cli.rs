//! The command line as the library sees it.

pub mod args;
