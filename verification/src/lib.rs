//! Scans a source tree for URLs that reference tracker issues, keeps the
//! occurrences whose surrounding text looks like a temporary workaround,
//! and groups them by issue so that a caller can drop every group whose
//! issue is still open.

pub mod extract;
pub mod filter;
pub mod groups;
pub mod lines;
pub mod pattern;
pub mod occurrence;
pub mod parse;
pub mod text;
pub mod walk;
