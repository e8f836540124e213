//! Reading Doom WAD archives: the header and lump directory, lump
//! lookups, the binary map records, flats, column-based pictures, composed
//! wall textures, and the integer geometry that a renderer builds from a map.
pub mod wad;
pub mod map;
pub mod palette;
