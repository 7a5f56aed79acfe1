//! Diagnostics for imports that fail to resolve.
//!
//! A `use` declaration is a tree of paths ([`syntax::UseTree`]). The engine
//! expands each tree into the full paths it imports, takes the resolver's
//! verdict on each of them, picks the smallest source range to report for
//! every failure, and drops the failures that only repeat an unresolved
//! `extern crate` that was already reported in the same pass.
pub mod dedup;
pub mod diagnostic;
pub mod pass;
pub mod ranges;
pub mod syntax;
pub mod theorems;
