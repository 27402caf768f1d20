//! Finds the documentation files of a directory tree, extracts the
//! hyperlinks written in their markup and reports the dead ones.
//!
//! The library decides and computes; it reads no file and sends no request.
//! Its owner lists directories, reads files and asks for links, and hands
//! what came back to the functions here.

pub mod cli;
pub mod doc;
pub mod links;
pub mod report;
pub mod text;
pub mod tree;
pub mod walk;
