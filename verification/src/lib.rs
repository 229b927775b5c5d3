//! Batch utilities behind a source-package indexing pipeline: a token
//! scanner that collects candidate type names out of a declaration-style
//! source file, and a root locator that decides which directories of a
//! package tree are package roots.
//!
//! All file and directory I/O stays outside this crate; the functions here
//! work on plain strings handed in by the caller and are verified.

pub mod order;
pub mod scanner;
pub mod locator;
