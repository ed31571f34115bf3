//! Byte sizes tagged with the binary unit they are best shown in, with exact
//! arithmetic, rendering and reading of text such as `10.42MB`.
pub mod human;
pub mod parse;
pub mod render;

pub use human::{ByteSize, Unit, GB, KB, MB, TB};
pub use parse::{read_size, ParseError, SizeText};
