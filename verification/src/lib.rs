//! An in-memory registry of book records keyed by id, with the text
//! fragments that a front end shows for each operation on it.

pub mod book;
pub mod laws;
pub mod pages;
pub mod registry;
pub mod text;
