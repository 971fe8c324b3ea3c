//! A directory tree, drawn with box characters, in which every file carries the
//! one-line responsibility comment found at its head.
//!
//! The library works on plain values. A caller walks the directory and hands over
//! the entries it met; the library decides which entries are shown, groups them by
//! directory, orders each directory's children and lays the tree out line by line.
//! The lines of a file are handed over in the same way, and the library finds the
//! responsibility comment among them.

pub mod collect;
pub mod entry;
pub mod filter;
pub mod order;
pub mod render;
pub mod responsibility;
pub mod text;
