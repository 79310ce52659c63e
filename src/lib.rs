//! Screen model and escape-sequence interpreter for a terminal emulator.
//!
//! The byte stream of a child process is reassembled into characters
//! (`decoder`, fed by the loop policy in `flow`), interpreted as text and control sequences (`interpret`,
//! with the colour codes in `sgr`), kept as a list of styled runs with a
//! cursor (`buffer`, over the text model of `text`), and turned into
//! renderer operations (`render`) carrying escaped, styled markup
//! (`markup`).

pub mod buffer;
pub mod decoder;
pub mod flow;
pub mod interpret;
pub mod markup;
pub mod render;
pub mod sgr;
pub mod style;
pub mod text;
