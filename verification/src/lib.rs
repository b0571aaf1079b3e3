//! Greedy string-art engine: chooses, chord by chord, the straight line between
//! two pins that most reduces the squared error against a target image. Beside
//! it stand two small text tools: a codec that escapes non-ASCII characters as
//! decimal references, and a parser of wiki links.

pub mod obsidian_link;
pub mod raster;
pub mod string_art;
pub mod unicode_codecs;
