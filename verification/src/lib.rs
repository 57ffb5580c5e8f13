//! Zen type tooling: the byte-level parts, verified.
//!
//! `name` relabels a built face (renames the family, names us as its maker,
//! sets the OS/2 vendor tag) and reassembles the sfnt around the new `name`
//! table; `laws` proves what holds of that as a whole. `text` holds the byte
//! forms of name strings and the family renaming, `sfnt` big-endian fields and
//! the table checksum, `svg` the attribute and number scanning a drawn mark is
//! read with, `gsub` the single substitutions a static cut bakes in, and
//! `instance` the tables and names a static cut writes.
pub mod sfnt;
pub mod text;
pub mod name;
pub mod laws;
pub mod svg;
pub mod gsub;
pub mod instance;
