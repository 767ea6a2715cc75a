//! Renders an in-memory directory tree as a text diagram in the style of the
//! classic `tree` utility: entries are listed depth-first with connector
//! glyphs that reflect each entry's depth and whether it is the last sibling,
//! hidden entries and entries below a depth limit are skipped, and an optional
//! glob pattern prunes files that do not match together with directories whose
//! subtree holds no match.
//!
//! The crate works on a [`tree::Node`] value that a caller (the binary around
//! this library) fills from the filesystem; the library itself performs no
//! I/O. Buffering the whole tree costs more memory than streaming one subtree
//! at a time, and is accepted here so that every stage of the pipeline is a
//! pure, verified function of the tree.

pub mod tree;

pub mod prefix;

pub mod pattern;

pub mod walker;

pub mod printer;

pub mod laws;
