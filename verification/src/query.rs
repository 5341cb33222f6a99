use vstd::prelude::*;

verus! {

/// A selector that fetches a side of a relation as-is, requiring it to be present.
#[derive(Clone, Copy, Debug, PartialEq, Eq, Structural)]
pub struct Required;

/// A selector that fetches a side of a relation as an `Option`.
#[derive(Clone, Copy, Debug, PartialEq, Eq, Structural)]
pub struct Optional;

/// A selector that fetches no side at all.
#[derive(Clone, Copy, Debug, PartialEq, Eq, Structural)]
pub struct Nothing;

} // verus!
