//! Core of a source-code rewriting formatter.
//!
//! The crate tracks rewritten text per source file in a change set keyed by
//! byte-offset spans into one flat address space, and walks a syntax tree in
//! source order, flushing the original text between visited nodes so that no
//! byte is dropped or written twice.

pub mod ast;
pub mod changes;
pub mod codemap;
pub mod config;
pub mod render;
pub mod rewrite;
pub mod strbuf;
pub mod visitor;

use vstd::prelude::*;

verus! {

/// Errors of the change-tracking layer. An unknown file name signals that the
/// position index and the tree being visited are out of sync.
#[derive(Debug, PartialEq, Eq, Structural)]
pub enum FmtError {
    UnknownFile,
}

} // verus!
