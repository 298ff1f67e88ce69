//! Node positions in the tree, and log/record references.
use vstd::prelude::*;

verus! {

/// Height of a level in the tree; level 0 holds the leaves.
pub type LogHeight = usize;

/// Number of records in a log, or the index of a record or node.
pub type LogSize = u64;

/// Position of a node in the tree: its level and its index within the level.
#[derive(Hash, PartialEq, Eq, Structural, PartialOrd, Ord, Clone, Copy, Debug)]
pub struct LogTreePosition {
    pub level: LogHeight,
    pub index: LogSize,
}

impl View for LogTreePosition {
    type V = (nat, nat);

    open spec fn view(&self) -> (nat, nat) {
        (self.level as nat, self.index as nat)
    }
}

impl From<(LogHeight, LogSize)> for LogTreePosition {
    fn from(p: (LogHeight, LogSize)) -> (r: Self)
        ensures
            r.level == p.0,
            r.index == p.1,
    {
        LogTreePosition { level: p.0, index: p.1 }
    }
}

impl vstd::std_specs::convert::FromSpecImpl<(LogHeight, LogSize)> for LogTreePosition {
    open spec fn obeys_from_spec() -> bool {
        true
    }

    open spec fn from_spec(p: (LogHeight, LogSize)) -> Self {
        LogTreePosition { level: p.0, index: p.1 }
    }
}

/// Reference to a record: its id and its leaf hash.
#[derive(Hash, PartialEq, Eq, PartialOrd, Ord, Clone, Debug)]
pub struct Record {
    pub id: LogSize,
    pub hash: String,
}

/// Reference to a whole log: its size and its root hash.
pub struct LogTree {
    pub size: LogSize,
    pub hash: String,
}

} // verus!
