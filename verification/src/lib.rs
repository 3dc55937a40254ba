//! A small system monitor: fixed-size sample histories, parsers for the
//! kernel's `/proc` statistics files, and the state that drives the display.

pub mod ring_buffer;
pub mod text;
pub mod collectors;
pub mod clock;
pub mod app;
