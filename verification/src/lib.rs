//! Cheapest paths across a map of hexagonal tiles, and the tools around it.
//!
//! The map side: `hex` holds axial cell addresses with their distance and
//! neighbours, `grid` the weighted tile map in its offset layout, `search`
//! the search for a cheapest path from the first tile to the goal tile,
//! `map_text` the text format of map files and `generate` maps of random
//! weights.
//!
//! The file side: `offset` reads byte offsets in decimal or hexadecimal,
//! `patch` turns hexadecimal text into bytes, and `dump` shows bytes as text
//! or as a hexadecimal dump. `text` holds the scanning of lines, words and
//! numbers that the formats share.

pub mod dump;
pub mod generate;
pub mod grid;
pub mod hex;
pub mod map_text;
pub mod offset;
pub mod patch;
pub mod search;
pub mod text;
