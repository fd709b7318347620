//! Check detection: locating a color's king and deciding whether the
//! opposing side pseudo-legally attacks it, both on the live position and on
//! a hypothetical position with one move applied.
use vstd::prelude::*;

use crate::board::Game;
use crate::board::in_bounds;
use crate::moves::basic_move;
use crate::types::Color;
use crate::types::Piece;
use crate::types::get_opposite_color;
use crate::types::opposite;

verus! {

impl Game {
    /// Square (x, y) holds the king of color `c`.
    pub open spec fn is_king_sq(self, c: Color, x: int, y: int) -> bool {
        &&& in_bounds(x, y)
        &&& self.piece_at(x, y) == Some(Piece::King)
        &&& self.occ(x, y) == Some(c)
    }

    /// A king of color `c` stands somewhere on the board.
    pub open spec fn has_king(self, c: Color) -> bool {
        exists|x: int, y: int| #[trigger] self.is_king_sq(c, x, y)
    }

    /// Exactly one king of color `c` stands on the board. A position that
    /// violates this was never produced by the sanctioned entry points.
    pub open spec fn king_ok(self, c: Color) -> bool {
        &&& self.has_king(c)
        &&& forall|x1: int, y1: int, x2: int, y2: int|
            #[trigger] self.is_king_sq(c, x1, y1) && #[trigger] self.is_king_sq(c, x2, y2) ==> x1
                == x2 && y1 == y2
    }

    /// The square of color `c`'s king (well-defined when `king_ok(c)` holds).
    pub open spec fn king_sq(self, c: Color) -> (int, int) {
        choose|x: int, y: int| self.is_king_sq(c, x, y)
    }

    /// Some piece of color `c` has a pseudo-legal move onto square (tx, ty).
    pub open spec fn attacks_square(self, c: Color, tx: int, ty: int) -> bool {
        exists|x: int, y: int|
            #![trigger self.occ(x, y)]
            in_bounds(x, y) && self.occ(x, y) == Some(c) && basic_move(
                self,
                self.piece_at(x, y).unwrap(),
                x,
                y,
                tx,
                ty,
            )
    }

    /// Color `c`'s king is attacked by at least one opposing pseudo-legal move.
    pub open spec fn in_check(self, c: Color) -> bool {
        self.attacks_square(opposite(c), self.king_sq(c).0, self.king_sq(c).1)
    }

    /// Returns the numerical coordinates of the king of the given color, by a
    /// full-board scan. A position without that king is a caller error.
    pub fn find_king(&self, color: Color) -> (r: (usize, usize))
        requires
            self.has_king(color),
        ensures
            self.is_king_sq(color, r.0 as int, r.1 as int),
    {
        let mut y: usize = 0;
        while y < 8
            invariant
                y <= 8,
                self.has_king(color),
                forall|a: int, b: int|
                    in_bounds(a, b) && b < y ==> !#[trigger] self.is_king_sq(color, a, b),
            decreases 8 - y,
        {
            let mut x: usize = 0;
            while x < 8
                invariant
                    x <= 8,
                    y < 8,
                    self.has_king(color),
                    forall|a: int, b: int|
                        in_bounds(a, b) && b < y ==> !#[trigger] self.is_king_sq(color, a, b),
                    forall|a: int|
                        0 <= a < x ==> !#[trigger] self.is_king_sq(color, a, y as int),
                decreases 8 - x,
            {
                let is_king: bool = match self.board[y][x] {
                    Some(Piece::King) => true,
                    _ => false,
                };
                if is_king {
                    match self.get_color_at(x, y) {
                        Some(c) => {
                            if c == color {
                                return (x, y);
                            }
                        },
                        None => {},
                    }
                }
                x = x + 1;
            }
            y = y + 1;
        }
        proof {
            let (kx, ky): (int, int) = choose|a: int, b: int| self.is_king_sq(color, a, b);
            assert(false);
        }
        vstd::pervasive::unreached()
    }

    /// Returns whether the given color's king is in check: whether the union
    /// of the pseudo-legal destinations of every opposing piece contains that
    /// king's square.
    pub fn is_in_check(&self, color: Color) -> (r: bool)
        requires
            self.wf(),
            self.king_ok(color),
        ensures
            r == self.in_check(color),
    {
        let king = self.find_king(color);
        proof {
            assert(self.is_king_sq(
                color,
                self.king_sq(color).0,
                self.king_sq(color).1,
            ));
            assert(self.king_sq(color) == (king.0 as int, king.1 as int));
        }
        let opposite_color = get_opposite_color(color);
        let ghost kx = king.0 as int;
        let ghost ky = king.1 as int;
        let mut y: usize = 0;
        while y < 8
            invariant
                y <= 8,
                self.wf(),
                kx == king.0 as int,
                ky == king.1 as int,
                king.0 < 8,
                king.1 < 8,
                self.king_sq(color) == (kx, ky),
                forall|a: int, b: int|
                    in_bounds(a, b) && b < y ==> !((#[trigger] self.occ(a, b)) == Some(
                        opposite(color),
                    ) && basic_move(*self, self.piece_at(a, b).unwrap(), a, b, kx, ky)),
                opposite_color == opposite(color),
            decreases 8 - y,
        {
            let mut x: usize = 0;
            while x < 8
                invariant
                    x <= 8,
                    y < 8,
                    self.wf(),
                    kx == king.0 as int,
                    ky == king.1 as int,
                    king.0 < 8,
                    king.1 < 8,
                    self.king_sq(color) == (kx, ky),
                    forall|a: int, b: int|
                        in_bounds(a, b) && b < y ==> !((#[trigger] self.occ(a, b)) == Some(
                            opposite(color),
                        ) && basic_move(*self, self.piece_at(a, b).unwrap(), a, b, kx, ky)),
                    forall|a: int|
                        0 <= a < x ==> !((#[trigger] self.occ(a, y as int)) == Some(opposite(color))
                            && basic_move(
                            *self,
                            self.piece_at(a, y as int).unwrap(),
                            a,
                            y as int,
                            kx,
                            ky,
                        )),
                    opposite_color == opposite(color),
                decreases 8 - x,
            {
                match self.board[y][x] {
                    Some(piece) => {
                        let piece_color = self.get_color_at(x, y);
                        let is_opponent: bool = match piece_color {
                            Some(c) => c == opposite_color,
                            None => false,
                        };
                        if is_opponent {
                            let piece_moves = piece.get_basic_moves(x, y, self);
                            if squares_contain(&piece_moves, king) {
                                proof {
                                    assert(self.occ(x as int, y as int) == Some(opposite(color)));
                                    assert(basic_move(
                                        *self,
                                        self.piece_at(x as int, y as int).unwrap(),
                                        x as int,
                                        y as int,
                                        kx,
                                        ky,
                                    ));
                                    assert(self.attacks_square(opposite(color), kx, ky));
                                }
                                return true;
                            }
                        }
                    },
                    None => {},
                }
                x = x + 1;
            }
            y = y + 1;
        }
        proof {
            if self.in_check(color) {
                let (ax, ay): (int, int) = choose|a: int, b: int|
                    #![trigger self.occ(a, b)]
                    in_bounds(a, b) && self.occ(a, b) == Some(opposite(color)) && basic_move(
                        *self,
                        self.piece_at(a, b).unwrap(),
                        a,
                        b,
                        kx,
                        ky,
                    );
                assert(false);
            }
        }
        false
    }

    /// Simulates the move on a scratch copy of the position, restores the
    /// position bit for bit, and returns whether the move would leave `color`
    /// in check.
    pub fn in_check_after_move(
        &mut self,
        start_x: usize,
        start_y: usize,
        end_x: usize,
        end_y: usize,
        color: Color,
    ) -> (r: bool)
        requires
            start_x < 8,
            start_y < 8,
            end_x < 8,
            end_y < 8,
            old(self).piece_at(start_x as int, start_y as int) is Some,
            old(self).occ(start_x as int, start_y as int) is Some,
            old(self).with_move(start_x as int, start_y as int, end_x as int, end_y as int).wf(),
            old(self).with_move(start_x as int, start_y as int, end_x as int, end_y as int).king_ok(
                color,
            ),
        ensures
            *final(self) == *old(self),
            r == old(self).with_move(
                start_x as int,
                start_y as int,
                end_x as int,
                end_y as int,
            ).in_check(color),
    {
        let original_board: [[Option<Piece>; 8]; 8] = self.board;
        let original_black: u64 = self.black;
        let original_white: u64 = self.white;
        self.move_piece(start_x, start_y, end_x, end_y);
        let in_check = self.is_in_check(color);
        self.board = original_board;
        self.black = original_black;
        self.white = original_white;
        proof {
            assert(*self =~= *old(self));
        }
        in_check
    }
}

/// Whether the square list contains the given square.
pub(crate) fn squares_contain(v: &Vec<(usize, usize)>, sq: (usize, usize)) -> (r: bool)
    ensures
        r == v@.contains(sq),
{
    let mut i: usize = 0;
    while i < v.len()
        invariant
            i <= v@.len(),
            forall|j: int| 0 <= j < i ==> v@[j] != sq,
        decreases v@.len() - i,
    {
        let entry = v[i];
        if entry.0 == sq.0 && entry.1 == sq.1 {
            proof {
                assert(v@[i as int] == sq);
            }
            return true;
        }
        i = i + 1;
    }
    proof {
        if v@.contains(sq) {
            let j = choose|j: int| 0 <= j < v@.len() && v@[j] == sq;
            assert(false);
        }
    }
    false
}

} // verus!
