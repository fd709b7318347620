//! The engine's stated laws, proved once and for all positions.
use vstd::prelude::*;

use crate::board::Game;
use crate::board::in_bounds;
use crate::legal::legal_move;
use crate::moves::basic_move;
use crate::sim::lemma_with_move_facts;

verus! {

/// Applying any move to a well-formed position yields a well-formed position:
/// on every square the two color occupancy sets stay disjoint and the grid
/// entry is present iff some color bit is set. Committed moves therefore keep
/// the occupancy-index invariant.
pub proof fn lemma_move_preserves_occupancy_invariant(g: Game, fx: int, fy: int, tx: int, ty: int)
    requires
        in_bounds(fx, fy),
        in_bounds(tx, ty),
        g.piece_at(fx, fy) is Some,
        g.occ(fx, fy) is Some,
        g.wf(),
    ensures
        g.with_move(fx, fy, tx, ty).wf(),
{
    lemma_with_move_facts(g, fx, fy, tx, ty);
}

/// Every legal move is also a pseudo-legal move: for any square and position,
/// the legal destination set is a subset of the pseudo-legal destination set
/// of the piece standing there.
pub proof fn lemma_legal_subset_of_basic(g: Game, fx: int, fy: int, tx: int, ty: int)
    requires
        legal_move(g, fx, fy, tx, ty),
    ensures
        basic_move(g, g.piece_at(fx, fy).unwrap(), fx, fy, tx, ty),
{
}

/// A legal move never leaves the mover's own king attacked afterward: in the
/// position reached by applying it, the mover's color is not in check. In
/// particular, when the mover is already in check, every legal move resolves
/// the check.
pub proof fn lemma_legal_resolves_check(g: Game, fx: int, fy: int, tx: int, ty: int)
    requires
        legal_move(g, fx, fy, tx, ty),
    ensures
        !g.with_move(fx, fy, tx, ty).in_check(g.occ(fx, fy).unwrap()),
{
}

} // verus!
