//! Spell checking for source code. The library decides which entries of a
//! directory walk are checked, splits the words of each file at identifier
//! casing boundaries, and looks every part up in a dictionary.

pub mod config;
pub mod dictionary;
pub mod errors;
pub mod find_files;
pub mod spellcheck;
pub mod text;

pub use config::Configuration;
pub use errors::AntisepticError;
