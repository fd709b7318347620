//! Applying a move to a position: relocation, capture-by-overwrite and pawn
//! promotion, as one spec-level function on positions and the executable
//! mutation that realizes it.
use vstd::prelude::*;

use crate::board::Game;
use crate::board::black_bits_after;
use crate::board::disjoint_at;
use crate::board::in_bounds;
use crate::board::lemma_occ_after_set;
use crate::board::occ_bits;
use crate::board::sq_index;
use crate::board::white_bits_after;
use crate::types::Color;
use crate::types::Piece;

verus! {

broadcast use vstd::array::group_array_axioms;

/// The rank on which a pawn of color `c` promotes: row 7 for Black, row 0 for
/// White (each the rank farthest from that color's starting side).
pub open spec fn promo_rank(c: Color) -> int {
    if c is Black {
        7
    } else {
        0
    }
}

/// The grid with square (x, y) assigned `v`.
pub open spec fn board_update(
    b: [[Option<Piece>; 8]; 8],
    x: int,
    y: int,
    v: Option<Piece>,
) -> [[Option<Piece>; 8]; 8] {
    vstd::array::spec_array_update(b, y, vstd::array::spec_array_update(b[y], x, v))
}

impl Game {
    /// The piece placed on the destination when the piece `p` of color `c`
    /// arrives on row `ty`: the configured promotion piece if `p` is a pawn
    /// reaching its promotion rank, else `p` itself.
    pub open spec fn placed_piece(self, p: Piece, c: Color, ty: int) -> Piece {
        if p is Pawn && ty == promo_rank(c) {
            self.promotion_piece
        } else {
            p
        }
    }

    /// The position after relocating the piece at (fx, fy) to (tx, ty): the
    /// source square cleared, the destination overwritten with the moved
    /// piece (promoted if a pawn reaches its back rank) and the mover's
    /// color, and everything else unchanged.
    pub open spec fn with_move(self, fx: int, fy: int, tx: int, ty: int) -> Game
        recommends
            in_bounds(fx, fy),
            in_bounds(tx, ty),
            self.piece_at(fx, fy) is Some,
            self.occ(fx, fy) is Some,
    {
        let p = self.piece_at(fx, fy).unwrap();
        let c = self.occ(fx, fy).unwrap();
        Game {
            board: board_update(
                board_update(self.board, fx, fy, None),
                tx,
                ty,
                Some(self.placed_piece(p, c, ty)),
            ),
            black: black_bits_after(
                black_bits_after(self.black, sq_index(fx, fy), None),
                sq_index(tx, ty),
                Some(c),
            ),
            white: white_bits_after(
                white_bits_after(self.white, sq_index(fx, fy), None),
                sq_index(tx, ty),
                Some(c),
            ),
            ..self
        }
    }

    /// Moves the piece at the start square to the end square without rule
    /// checks: the destination is overwritten (captures happen automatically)
    /// and a pawn reaching the end of the board is promoted. Off-board
    /// squares or an empty start square are caller errors.
    pub fn move_piece(&mut self, start_x: usize, start_y: usize, end_x: usize, end_y: usize)
        requires
            start_x < 8,
            start_y < 8,
            end_x < 8,
            end_y < 8,
            old(self).piece_at(start_x as int, start_y as int) is Some,
            old(self).occ(start_x as int, start_y as int) is Some,
        ensures
            *final(self) == old(self).with_move(
                start_x as int,
                start_y as int,
                end_x as int,
                end_y as int,
            ),
    {
        let ghost w = old(self).with_move(start_x as int, start_y as int, end_x as int, end_y as int);
        let piece: Piece = match self.board[start_y][start_x] {
            Some(p) => p,
            None => vstd::pervasive::unreached(),
        };
        let color: Color = match self.get_color_at(start_x, start_y) {
            Some(c) => c,
            None => vstd::pervasive::unreached(),
        };
        let mut from_row: [Option<Piece>; 8] = self.board[start_y];
        from_row[start_x] = None;
        self.board[start_y] = from_row;
        self.set_color_at(start_x, start_y, None);
        let mut to_row: [Option<Piece>; 8] = self.board[end_y];
        to_row[end_x] = Some(piece);
        self.board[end_y] = to_row;
        self.set_color_at(end_x, end_y, Some(color));
        let promotes: bool = match (piece, color) {
            (Piece::Pawn, Color::Black) => end_y == 7,
            (Piece::Pawn, Color::White) => end_y == 0,
            _ => false,
        };
        if promotes {
            let mut promo_row: [Option<Piece>; 8] = self.board[end_y];
            promo_row[end_x] = Some(self.promotion_piece);
            self.board[end_y] = promo_row;
        }
        proof {
            assert(self.black == w.black);
            assert(self.white == w.white);
            assert forall|i: int| 0 <= i < 8 implies self.board[i] == w.board[i] by {
                assert(self.board[i] =~= w.board[i]);
            }
            assert(self.board =~= w.board);
            assert(*self =~= w);
        }
    }
}

/// How a position reads after a move is applied: the destination square holds
/// the moved (possibly promoted) piece and the mover's color, the source
/// square is empty, every other square is unchanged, the bookkeeping fields
/// are kept, and the occupancy-index invariant is preserved.
pub proof fn lemma_with_move_facts(g: Game, fx: int, fy: int, tx: int, ty: int)
    requires
        in_bounds(fx, fy),
        in_bounds(tx, ty),
        g.piece_at(fx, fy) is Some,
        g.occ(fx, fy) is Some,
    ensures
        ({
            let w = g.with_move(fx, fy, tx, ty);
            let c = g.occ(fx, fy).unwrap();
            let p = g.piece_at(fx, fy).unwrap();
            &&& w.state == g.state
            &&& w.player == g.player
            &&& w.promotion_piece == g.promotion_piece
            &&& w.occ(tx, ty) == Some(c)
            &&& w.piece_at(tx, ty) == Some(g.placed_piece(p, c, ty))
            &&& ((fx != tx || fy != ty) ==> w.occ(fx, fy) is None && w.piece_at(fx, fy) is None)
            &&& (forall|a: int, b: int|
                in_bounds(a, b) && !(a == tx && b == ty) && !(a == fx && b == fy) ==> (
                #[trigger] w.occ(a, b)) == g.occ(a, b) && (#[trigger] w.piece_at(a, b))
                    == g.piece_at(a, b))
            &&& (g.wf() ==> w.wf())
        }),
{
    let w = g.with_move(fx, fy, tx, ty);
    let c = g.occ(fx, fy).unwrap();
    let p = g.piece_at(fx, fy).unwrap();
    let b1 = black_bits_after(g.black, sq_index(fx, fy), None);
    let w1 = white_bits_after(g.white, sq_index(fx, fy), None);
    lemma_occ_after_set(g.black, g.white, fx, fy, None);
    lemma_occ_after_set(b1, w1, tx, ty, Some(c));
    let bd1 = board_update(g.board, fx, fy, None);
    assert(bd1[fy][fx] is None);
    assert(w.board[ty][tx] == Some(g.placed_piece(p, c, ty)));
    assert forall|a: int, b: int|
        in_bounds(a, b) && !(a == tx && b == ty) && !(a == fx && b == fy) implies (#[trigger] w.occ(
        a,
        b,
    )) == g.occ(a, b) && (#[trigger] w.piece_at(a, b)) == g.piece_at(a, b) by {
        assert(occ_bits(b1, w1, a, b) == g.occ(a, b));
        assert(bd1[b][a] == g.board[b][a]);
        assert(w.board[b][a] == bd1[b][a]);
    }
    if g.wf() {
        assert forall|a: int, b: int| in_bounds(a, b) implies disjoint_at(w.black, w.white, a, b)
            && ((#[trigger] w.piece_at(a, b)) is Some <==> (#[trigger] w.occ(a, b)) is Some) by {
            if a == tx && b == ty {
                assert(w.occ(a, b) == Some(c));
                assert(w.piece_at(a, b) is Some);
            } else if a == fx && b == fy {
                assert(w.occ(a, b) is None);
                assert(w.piece_at(a, b) == bd1[b][a]);
                assert(w.piece_at(a, b) is None);
                assert(disjoint_at(b1, w1, a, b));
            } else {
                assert(w.occ(a, b) == g.occ(a, b));
                assert(w.piece_at(a, b) == g.piece_at(a, b));
                assert(disjoint_at(g.black, g.white, a, b));
                assert(disjoint_at(b1, w1, a, b) == disjoint_at(g.black, g.white, a, b));
            }
        }
    }
}

} // verus!
