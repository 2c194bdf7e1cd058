//! One scientific-article record, as the input collaborators hand it in.
use vstd::prelude::*;

verus! {

/// An article record: the abstract is the sole text source for keyword
/// extraction, and `pmc` is the external identifier that makes an
/// article eligible for scoring.
#[derive(Debug)]
pub struct Article {
    pub title: String,
    pub pmid: String,
    pub doi: String,
    pub pmc: String,
    pub pii: String,
    pub paper_abstract: String,
}

} // verus!
