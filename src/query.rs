//! The parsed form of a search query.
use vstd::prelude::*;

verus! {

/// How a tag is matched.
#[derive(Debug, Clone, Copy, PartialEq, Eq, Structural)]
pub enum SearchKind {
    Exact,
    Fuzzy,
}

/// A boolean expression over tags.
#[derive(Debug)]
pub enum Query {
    Tag { value: String, search_kind: SearchKind },
    Not(Box<Query>),
    And(Box<Query>, Box<Query>),
    Or(Box<Query>, Box<Query>),
}

} // verus!
