//! A verified flat-file record store for a small todo-list manager.
//!
//! Records (users and tasks) live one per line in comma-delimited text.
//! The codec, the in-memory stores and their CRUD rules are verified;
//! calendar-date validation is delegated to the `chrono` crate behind a
//! trusted wrapper. Reading and writing the store files themselves is
//! left to the caller, who hands lines in and takes lines back out.

pub mod dates;
pub mod digits;
pub mod lines;
pub mod record;
pub mod tasks;
pub mod users;
