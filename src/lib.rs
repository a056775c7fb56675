//! Directory scanning, extension classification, and the Analyze and Rename
//! decisions of a small file-sorting tool. The filesystem itself is read and
//! written by the caller, which hands the library a tree of directory entries
//! and carries out the copies that a rename plan lists.
pub mod analyze;
pub mod classify;
pub mod rename;
pub mod report;
pub mod tree;
