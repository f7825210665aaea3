//! The purity gate used by loop-invariant code motion.

use vstd::prelude::*;

verus! {

/// Kinds of operations in the internal IR.
#[derive(Debug, Clone, Copy, PartialEq, Eq)]
pub enum OpKind {
    Arithmetic,
    SubgroupReduce,
    SubgroupBallot,
    SubgroupShuffle,
    SubgroupBroadcast,
    SubgroupLocalId,
    Store,
}

/// A convergent subgroup collective: its result depends on which lanes are
/// active at its program point, so moving it out of a loop changes it.
pub open spec fn is_convergent(kind: OpKind) -> bool {
    match kind {
        OpKind::SubgroupReduce
        | OpKind::SubgroupBallot
        | OpKind::SubgroupShuffle
        | OpKind::SubgroupBroadcast => true,
        _ => false,
    }
}

/// An operation with an effect on memory.
pub open spec fn has_side_effect(kind: OpKind) -> bool {
    kind is Store
}

/// Return `true` if an op kind is "pure" (safe to hoist out of a loop):
/// neither convergent nor side-effecting.
pub fn is_pure(kind: &OpKind) -> (r: bool)
    ensures
        r == (!is_convergent(*kind) && !has_side_effect(*kind)),
        r == (*kind is Arithmetic || *kind is SubgroupLocalId),
{
    match kind {
        // Arithmetic ops and per-lane constants: always safe to hoist.
        OpKind::Arithmetic | OpKind::SubgroupLocalId => true,
        // Convergent subgroup collectives: hoisting changes the set of
        // participating lanes.
        OpKind::SubgroupReduce
        | OpKind::SubgroupBallot
        | OpKind::SubgroupShuffle
        | OpKind::SubgroupBroadcast => false,
        // Side-effecting: never hoist.
        OpKind::Store => false,
    }
}

} // verus!
