use vstd::prelude::*;

verus! {

/// A message that is emitted when a relation is added or removed between two
/// entities: the entity whose relation changed, then the entity on the other side.
#[derive(Clone, Copy, Debug, PartialEq, Eq, Structural)]
pub enum RelationMessage {
    Added(u64, u64),
    Removed(u64, u64),
}

} // verus!
