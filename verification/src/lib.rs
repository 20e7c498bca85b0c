//! Support for drawing a directory tree as nested circles: the tree of files
//! and folders, the rules that classify a file and read its references, the
//! grid on which the children of a folder start out, the order in which a
//! relaxation step visits them, and the search that resolves a reference.

pub mod entity;
pub mod grid;
pub mod order;
pub mod references;
pub mod structure;
mod text;
