//! What extraction reads of one file.

use crate::facts::Language;
use crate::ids::FileId;
use crate::syntax::SyntaxTree;
use vstd::prelude::*;

verus! {

/// One file under extraction: its syntax tree, with its text, and its identity.
#[derive(Debug)]
pub struct ExtractionCtx {
    pub tree: SyntaxTree,
    pub file_id: FileId,
    pub language: Language,
}

} // verus!
