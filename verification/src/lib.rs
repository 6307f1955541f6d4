//! TF-IDF statistics over a text corpus that is partitioned into
//! fixed-size documents (contiguous blocks of source lines).
//!
//! The pipeline is: tokenize each document into normalized terms,
//! accumulate per-document term frequencies and the corpus-wide
//! document frequency, derive per-term score inputs (term count and
//! document frequency) once the corpus is closed, and rank a
//! document's terms by a caller-supplied score key.

use vstd::prelude::*;

pub mod corpus;
pub mod ranking;
pub mod tokenizer;

verus! {

/// How many source lines make up one document.
pub const LINES_PER_DOCUMENT: usize = 1000;

} // verus!
