//! The legality filter: pseudo-legal moves retained only if simulating them
//! does not leave the mover's own king attacked. This is the single source of
//! truth for "can this piece move here".
use vstd::prelude::*;

use crate::board::Game;
use crate::board::in_bounds;
use crate::coords::coord_str;
use crate::coords::coord_x;
use crate::coords::coord_y;
use crate::coords::valid_coord;
use crate::coords::coordinates_to_string;
use crate::coords::string_to_coordinates;
use crate::moves::basic_move;
use crate::moves::lemma_push_contains;
use crate::moves::lemma_push_no_duplicates;
use crate::sim::lemma_with_move_facts;
use crate::types::Color;
use crate::types::Piece;

verus! {

/// The legal-move relation: the piece standing on (fx, fy) may move to
/// (tx, ty) pseudo-legally, and doing so does not leave its own color's king
/// attacked in the resulting position.
pub open spec fn legal_move(g: Game, fx: int, fy: int, tx: int, ty: int) -> bool {
    &&& in_bounds(fx, fy)
    &&& g.piece_at(fx, fy) is Some
    &&& g.occ(fx, fy) is Some
    &&& basic_move(g, g.piece_at(fx, fy).unwrap(), fx, fy, tx, ty)
    &&& !g.with_move(fx, fy, tx, ty).in_check(g.occ(fx, fy).unwrap())
}

/// `s` reads as the coordinate string of some square to which the piece at
/// (fx, fy) may legally move.
pub open spec fn is_legal_coord_of(g: Game, fx: int, fy: int, s: Seq<char>) -> bool {
    exists|tx: int, ty: int|
        #![trigger legal_move(g, fx, fy, tx, ty)]
        legal_move(g, fx, fy, tx, ty) && s == coord_str(tx, ty)
}

/// Some member of `v` reads as the coordinate string of square (tx, ty).
pub open spec fn contains_coord(v: Seq<String>, tx: int, ty: int) -> bool {
    exists|i: int| 0 <= i < v.len() && (#[trigger] v[i])@ == coord_str(tx, ty)
}

impl Game {
    /// No piece of color `c` has any legal move.
    pub open spec fn no_legal_moves(self, c: Color) -> bool {
        forall|fx: int, fy: int, tx: int, ty: int|
            in_bounds(fx, fy) && self.occ(fx, fy) == Some(c) ==> !#[trigger] legal_move(
                self,
                fx,
                fy,
                tx,
                ty,
            )
    }
}

/// Applying a move keeps the occupancy-index invariant and keeps the moving
/// color's king unique: the king either moves itself or stands untouched, and
/// a promotion never places a king as long as the configured promotion piece
/// is not one.
pub proof fn lemma_with_move_king_ok(g: Game, fx: int, fy: int, tx: int, ty: int, c: Color)
    requires
        in_bounds(fx, fy),
        in_bounds(tx, ty),
        g.piece_at(fx, fy) is Some,
        g.occ(fx, fy) == Some(c),
        g.wf(),
        g.king_ok(c),
        g.promotion_piece != Piece::King,
        g.occ(tx, ty) != Some(c),
    ensures
        g.with_move(fx, fy, tx, ty).wf(),
        g.with_move(fx, fy, tx, ty).king_ok(c),
{
    lemma_with_move_facts(g, fx, fy, tx, ty);
    let w = g.with_move(fx, fy, tx, ty);
    let p = g.piece_at(fx, fy).unwrap();
    let placed = g.placed_piece(p, c, ty);
    if p is King {
        assert(w.is_king_sq(c, tx, ty));
        assert forall|a: int, b: int| #[trigger] w.is_king_sq(c, a, b) implies a == tx && b == ty by {
            if !(a == tx && b == ty) && !(a == fx && b == fy) {
                assert(g.is_king_sq(c, a, b));
                assert(g.is_king_sq(c, fx, fy));
            }
        }
    } else {
        let (kx, ky) = g.king_sq(c);
        assert(g.is_king_sq(c, kx, ky));
        assert(!(kx == fx && ky == fy));
        assert(!(kx == tx && ky == ty));
        assert(w.is_king_sq(c, kx, ky));
        assert forall|a: int, b: int| #[trigger] w.is_king_sq(c, a, b) implies a == kx && b == ky by {
            if a == tx && b == ty {
                assert(w.piece_at(a, b) == Some(placed));
                assert(placed != Piece::King);
            } else if !(a == fx && b == fy) {
                assert(g.is_king_sq(c, a, b));
            }
        }
    }
}

/// Applying a move by the other color keeps this color's king unique, as long
/// as the move does not capture that king.
pub proof fn lemma_with_move_other_king_ok(g: Game, fx: int, fy: int, tx: int, ty: int, c: Color, co: Color)
    requires
        in_bounds(fx, fy),
        in_bounds(tx, ty),
        g.piece_at(fx, fy) is Some,
        g.occ(fx, fy) == Some(c),
        g.wf(),
        g.king_ok(co),
        co != c,
        !(g.piece_at(tx, ty) == Some(Piece::King) && g.occ(tx, ty) == Some(co)),
    ensures
        g.with_move(fx, fy, tx, ty).king_ok(co),
{
    lemma_with_move_facts(g, fx, fy, tx, ty);
    let w = g.with_move(fx, fy, tx, ty);
    let (kx, ky) = g.king_sq(co);
    assert(g.is_king_sq(co, kx, ky));
    assert(!(kx == fx && ky == fy));
    assert(!(kx == tx && ky == ty));
    assert(w.is_king_sq(co, kx, ky));
    assert forall|a: int, b: int| #[trigger] w.is_king_sq(co, a, b) implies a == kx && b == ky by {
        if a == tx && b == ty {
            assert(w.occ(a, b) == Some(c));
        } else if !(a == fx && b == fy) {
            assert(g.is_king_sq(co, a, b));
        }
    }
}

impl Game {
    /// Returns the legal destination squares for the piece at (x, y): exactly
    /// the squares `m` with `legal_move(game, (x, y), m)`. The position is
    /// restored bit for bit after the internal simulations.
    pub fn legal_moves(&mut self, x: usize, y: usize) -> (r: Vec<(usize, usize)>)
        requires
            x < 8,
            y < 8,
            old(self).wf(),
            old(self).piece_at(x as int, y as int) is Some,
            old(self).king_ok(old(self).occ(x as int, y as int).unwrap()),
            old(self).promotion_piece != Piece::King,
        ensures
            *final(self) == *old(self),
            r@.no_duplicates(),
            forall|m: (usize, usize)| #[trigger]
                r@.contains(m) <==> legal_move(*old(self), x as int, y as int, m.0 as int, m.1 as int),
    {
        broadcast use lemma_push_contains;

        let ghost g = *old(self);
        let ghost fx = x as int;
        let ghost fy = y as int;
        let piece: Piece = match self.board[y][x] {
            Some(p) => p,
            None => vstd::pervasive::unreached(),
        };
        let color: Color = match self.get_color_at(x, y) {
            Some(c) => c,
            None => vstd::pervasive::unreached(),
        };
        let basic = piece.get_basic_moves(x, y, self);
        let mut result: Vec<(usize, usize)> = Vec::new();
        let mut i: usize = 0;
        while i < basic.len()
            invariant
                x < 8,
                y < 8,
                g == *self,
                g == *old(self),
                g.wf(),
                fx == x as int,
                fy == y as int,
                g.piece_at(fx, fy) == Some(piece),
                g.occ(fx, fy) == Some(color),
                g.king_ok(color),
                g.promotion_piece != Piece::King,
                i <= basic@.len(),
                basic@.no_duplicates(),
                result@.no_duplicates(),
                forall|m: (usize, usize)| #[trigger]
                    basic@.contains(m) <==> basic_move(g, piece, fx, fy, m.0 as int, m.1 as int),
                forall|m: (usize, usize)| #[trigger]
                    result@.contains(m) <==> (basic@.subrange(0, i as int).contains(m)
                        && legal_move(g, fx, fy, m.0 as int, m.1 as int)),
            decreases basic@.len() - i,
        {
            let ghost before = result@;
            let dest = basic[i];
            let tx = dest.0;
            let ty = dest.1;
            proof {
                assert(basic@.contains(dest));
                assert(basic_move(g, piece, fx, fy, tx as int, ty as int));
                lemma_with_move_king_ok(g, fx, fy, tx as int, ty as int, color);
            }
            let bad = self.in_check_after_move(x, y, tx, ty, color);
            if !bad {
                proof {
                    if result@.contains(dest) {
                        assert(basic@.subrange(0, i as int).contains(dest));
                        let j = choose|j: int|
                            0 <= j < i && basic@.subrange(0, i as int)[j] == dest;
                        assert(basic@[j] == dest);
                        assert(basic@[i as int] == dest);
                        assert(false);
                    }
                    lemma_push_no_duplicates(result@, dest);
                }
                result.push(dest);
            }
            proof {
                assert(basic@.subrange(0, (i + 1) as int) =~= basic@.subrange(0, i as int).push(
                    dest,
                ));
                if !bad {
                    assert(legal_move(g, fx, fy, tx as int, ty as int));
                }
                assert forall|m: (usize, usize)| #[trigger]
                    result@.contains(m) <==> (basic@.subrange(0, (i + 1) as int).contains(m)
                        && legal_move(g, fx, fy, m.0 as int, m.1 as int)) by {
                    lemma_push_contains(before, dest, m);
                    lemma_push_contains(basic@.subrange(0, i as int), dest, m);
                }
            }
            i = i + 1;
        }
        proof {
            assert(basic@.subrange(0, i as int) =~= basic@);
        }
        result
    }

    /// Takes a position in standard chess coordinates. If a piece stands
    /// there, returns all its legal moves as standard chess coordinates, else
    /// returns `None`. A malformed coordinate string is a caller error.
    pub fn get_possible_moves(&mut self, position: &str) -> (r: Option<Vec<String>>)
        requires
            valid_coord(position@),
            old(self).wf(),
            old(self).piece_at(coord_x(position@), coord_y(position@)) is Some ==> old(self).king_ok(
                old(self).occ(coord_x(position@), coord_y(position@)).unwrap(),
            ) && old(self).promotion_piece != Piece::King,
        ensures
            *final(self) == *old(self),
            (r is Some) == (old(self).piece_at(coord_x(position@), coord_y(position@)) is Some),
            (r matches Some(v) ==> {
                &&& (forall|i: int|
                    0 <= i < v@.len() ==> #[trigger] is_legal_coord_of(
                        *old(self),
                        coord_x(position@),
                        coord_y(position@),
                        v@[i]@,
                    ))
                &&& (forall|tx: int, ty: int|
                    #[trigger] legal_move(*old(self), coord_x(position@), coord_y(position@), tx, ty)
                        ==> contains_coord(v@, tx, ty))
                &&& (forall|i1: int, i2: int|
                    0 <= i1 < i2 < v@.len() ==> (#[trigger] v@[i1])@ != (#[trigger] v@[i2])@)
            }),
    {
        let ghost g = *old(self);
        let numerical = string_to_coordinates(position);
        let x = numerical.0;
        let y = numerical.1;
        let ghost fx = x as int;
        let ghost fy = y as int;
        let occupied: bool = match self.board[y][x] {
            Some(_) => true,
            None => false,
        };
        if !occupied {
            return None;
        }
        let dests = self.legal_moves(x, y);
        let mut strings: Vec<String> = Vec::new();
        let mut i: usize = 0;
        while i < dests.len()
            invariant
                g == *self,
                g == *old(self),
                x < 8,
                y < 8,
                fx == x as int,
                fy == y as int,
                i <= dests@.len(),
                dests@.no_duplicates(),
                strings@.len() == i as int,
                forall|m: (usize, usize)| #[trigger]
                    dests@.contains(m) <==> legal_move(g, fx, fy, m.0 as int, m.1 as int),
                forall|j: int|
                    0 <= j < i ==> (#[trigger] strings@[j])@ == coord_str(
                        dests@[j].0 as int,
                        dests@[j].1 as int,
                    ),
            decreases dests@.len() - i,
        {
            let dest = dests[i];
            proof {
                assert(dests@.contains(dest));
            }
            let s = coordinates_to_string(dest.0, dest.1);
            strings.push(s);
            i = i + 1;
        }
        proof {
            assert forall|i2: int| 0 <= i2 < strings@.len() implies is_legal_coord_of(
                g,
                fx,
                fy,
                strings@[i2]@,
            ) by {
                let m = dests@[i2];
                assert(dests@.contains(m));
                assert(legal_move(g, fx, fy, m.0 as int, m.1 as int));
                assert(strings@[i2]@ == coord_str(m.0 as int, m.1 as int));
            }
            assert forall|i1: int, i2: int| 0 <= i1 < i2 < strings@.len() implies strings@[i1]@
                != strings@[i2]@ by {
                let m1 = dests@[i1];
                let m2 = dests@[i2];
                assert(dests@.contains(m1));
                assert(dests@.contains(m2));
                if strings@[i1]@ == strings@[i2]@ {
                    assert(coord_str(m1.0 as int, m1.1 as int) == coord_str(m2.0 as int, m2.1 as int));
                    assert(coord_str(m1.0 as int, m1.1 as int)[0] == coord_str(
                        m2.0 as int,
                        m2.1 as int,
                    )[0]);
                    assert(coord_str(m1.0 as int, m1.1 as int)[1] == coord_str(
                        m2.0 as int,
                        m2.1 as int,
                    )[1]);
                    assert(m1.0 == m2.0 && m1.1 == m2.1);
                }
            }
            assert forall|tx: int, ty: int| #[trigger]
                legal_move(g, fx, fy, tx, ty) implies contains_coord(strings@, tx, ty) by {
                assert(in_bounds(tx, ty));
                let m = ((tx as usize), (ty as usize));
                assert(dests@.contains(m));
                let j = choose|j: int| 0 <= j < dests@.len() && dests@[j] == m;
                assert(strings@[j]@ == coord_str(tx, ty));
            }
        }
        Some(strings)
    }

    /// Returns true iff no piece of the given color has any legal move. The
    /// position is restored bit for bit after the internal simulations.
    pub fn has_no_moves(&mut self, color: Color) -> (r: bool)
        requires
            old(self).wf(),
            old(self).king_ok(color),
            old(self).promotion_piece != Piece::King,
        ensures
            *final(self) == *old(self),
            r == old(self).no_legal_moves(color),
    {
        let ghost g = *old(self);
        let mut y: usize = 0;
        while y < 8
            invariant
                y <= 8,
                g == *self,
                g == *old(self),
                g.wf(),
                g.king_ok(color),
                g.promotion_piece != Piece::King,
                forall|a: int, b: int, tx: int, ty: int|
                    in_bounds(a, b) && b < y && g.occ(a, b) == Some(color) ==> !#[trigger] legal_move(
                        g,
                        a,
                        b,
                        tx,
                        ty,
                    ),
            decreases 8 - y,
        {
            let mut x: usize = 0;
            while x < 8
                invariant
                    x <= 8,
                    y < 8,
                    g == *self,
                    g == *old(self),
                    g.wf(),
                    g.king_ok(color),
                    g.promotion_piece != Piece::King,
                    forall|a: int, b: int, tx: int, ty: int|
                        in_bounds(a, b) && b < y && g.occ(a, b) == Some(color)
                            ==> !#[trigger] legal_move(g, a, b, tx, ty),
                    forall|a: int, tx: int, ty: int|
                        0 <= a < x && g.occ(a, y as int) == Some(color) ==> !#[trigger] legal_move(
                            g,
                            a,
                            y as int,
                            tx,
                            ty,
                        ),
                decreases 8 - x,
            {
                let here: Option<Color> = self.get_color_at(x, y);
                let is_own: bool = match here {
                    Some(c) => c == color,
                    None => false,
                };
                if is_own {
                    let moves = self.legal_moves(x, y);
                    if moves.len() > 0 {
                        proof {
                            let m = moves@[0];
                            assert(moves@.contains(m));
                            assert(legal_move(g, x as int, y as int, m.0 as int, m.1 as int));
                        }
                        return false;
                    }
                    proof {
                        assert forall|tx: int, ty: int| !legal_move(g, x as int, y as int, tx, ty) by {
                            if legal_move(g, x as int, y as int, tx, ty) {
                                assert(in_bounds(tx, ty));
                                let m = ((tx as usize), (ty as usize));
                                assert(moves@.contains(m));
                                assert(moves@.len() > 0);
                            }
                        }
                    }
                }
                x = x + 1;
            }
            y = y + 1;
        }
        true
    }
}

} // verus!
