//! A small notes store kept in a plain-text file, one `<id>|<text>` record per line.
//!
//! The library holds the whole logic: the file format, the in-memory store and
//! the status lines of each command. Reading and writing the file is left to
//! the caller, which hands file contents in and takes them back out as strings.
pub mod codec;
pub mod db;
pub mod errors;
pub mod note;
pub mod notesapp;
