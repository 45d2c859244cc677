//! Readers of calculation schemes.
pub mod lira;

pub use crate::parsers::lira::LiraParser;
