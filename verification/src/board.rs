//! The game value and its occupancy index: an 8x8 grid of optional pieces
//! mirrored by two per-color 64-bit occupancy sets, with the invariant that
//! for every square the grid entry is present iff exactly one color's bit is
//! set, and never both.
use vstd::prelude::*;

use crate::types::Color;
use crate::types::GameState;
use crate::types::Piece;

verus! {

/// True iff (x, y) is one of the 64 board squares.
pub open spec fn in_bounds(x: int, y: int) -> bool {
    0 <= x < 8 && 0 <= y < 8
}

/// The occupancy-set bit index of square (x, y), addressed by `8*rank+file`
/// from the top-left corner.
pub open spec fn sq_index(x: int, y: int) -> u64 {
    (8 * y + x) as u64
}

/// The single-bit mask of bit index `i`, counted from the most significant bit.
pub open spec fn sq_mask(i: u64) -> u64
    recommends
        i < 64,
{
    0x8000000000000000u64 >> i
}

/// True iff bit `i` of `bits` is set.
pub open spec fn bit_at(bits: u64, i: u64) -> bool
    recommends
        i < 64,
{
    bits & sq_mask(i) != 0
}

/// The black occupancy word after square-bit `i` is assigned `value`.
pub open spec fn black_bits_after(black: u64, i: u64, value: Option<Color>) -> u64 {
    match value {
        Some(Color::Black) => black | sq_mask(i),
        _ => black & !sq_mask(i),
    }
}

/// The white occupancy word after square-bit `i` is assigned `value`.
pub open spec fn white_bits_after(white: u64, i: u64, value: Option<Color>) -> u64 {
    match value {
        Some(Color::White) => white | sq_mask(i),
        _ => white & !sq_mask(i),
    }
}

/// A chess game: the board position, whose turn it is, the game state and
/// the piece type pawns promote to.
#[verifier::ext_equal]
pub struct Game {
    /// The board as a 2D matrix; a square is read as `board[y][x]`, with the
    /// origin at the top-left corner. Empty squares hold `None`.
    pub board: [[Option<Piece>; 8]; 8],
    /// Positions of black pieces as a bitboard.
    pub black: u64,
    /// Positions of white pieces as a bitboard.
    pub white: u64,
    /// The current game state.
    pub state: GameState,
    /// The player to move.
    pub player: Color,
    /// The piece type that pawns will promote to.
    pub promotion_piece: Piece,
}

/// The color square (x, y) holds under the given occupancy words, if any.
pub open spec fn occ_bits(black: u64, white: u64, x: int, y: int) -> Option<Color> {
    if bit_at(black, sq_index(x, y)) {
        Some(Color::Black)
    } else if bit_at(white, sq_index(x, y)) {
        Some(Color::White)
    } else {
        None
    }
}

/// The two occupancy words do not both claim square (x, y).
pub open spec fn disjoint_at(black: u64, white: u64, x: int, y: int) -> bool {
    !(bit_at(black, sq_index(x, y)) && bit_at(white, sq_index(x, y)))
}

impl Game {
    /// The color occupying square (x, y), if any, as the occupancy sets record it.
    pub open spec fn occ(self, x: int, y: int) -> Option<Color> {
        occ_bits(self.black, self.white, x, y)
    }

    /// The piece on square (x, y), if any, as the grid records it.
    pub open spec fn piece_at(self, x: int, y: int) -> Option<Piece> {
        self.board[y][x]
    }

    /// The occupancy-index invariant: on every square the two color bits are
    /// disjoint, and a piece is on the grid iff some color bit is set there.
    pub open spec fn wf(self) -> bool {
        forall|x: int, y: int|
            in_bounds(x, y) ==> {
                &&& disjoint_at(self.black, self.white, x, y)
                &&& ((#[trigger] self.piece_at(x, y)) is Some <==> (#[trigger] self.occ(x, y))
                    is Some)
            }
    }

    /// Returns the color, if there is one, at the specified x, y coordinates.
    /// Empty squares return `None`; off-board coordinates are a caller error.
    pub fn get_color_at(&self, x: usize, y: usize) -> (r: Option<Color>)
        requires
            x < 8,
            y < 8,
        ensures
            r == self.occ(x as int, y as int),
    {
        let index: usize = 8 * y + x;
        let position: u64 = 0x8000000000000000u64 >> (index as u64);

        if self.black & position != 0 {
            Some(Color::Black)
        } else if self.white & position != 0 {
            Some(Color::White)
        } else {
            None
        }
    }

    /// Sets the color at the given numerical coordinates, setting or clearing
    /// exactly one side's bit and clearing the other's. A value of `None`
    /// marks the square as neither black nor white (i.e. empty).
    pub fn set_color_at(&mut self, x: usize, y: usize, value: Option<Color>)
        requires
            x < 8,
            y < 8,
        ensures
            final(self).board == old(self).board,
            final(self).state == old(self).state,
            final(self).player == old(self).player,
            final(self).promotion_piece == old(self).promotion_piece,
            final(self).black == black_bits_after(old(self).black, sq_index(x as int, y as int), value),
            final(self).white == white_bits_after(old(self).white, sq_index(x as int, y as int), value),
            final(self).occ(x as int, y as int) == value,
            forall|a: int, b: int|
                in_bounds(a, b) && !(a == x && b == y) ==> final(self).occ(a, b) == old(self).occ(
                    a,
                    b,
                ),
    {
        let index: usize = 8 * y + x;
        let position: u64 = 0x8000000000000000u64 >> (index as u64);
        match value {
            Some(color) => {
                match color {
                    Color::Black => {
                        self.black = self.black | position;
                        self.white = self.white & !position;
                    },
                    Color::White => {
                        self.black = self.black & !position;
                        self.white = self.white | position;
                    },
                }
            },
            None => {
                self.black = self.black & !position;
                self.white = self.white & !position;
            },
        }
        proof {
            lemma_occ_after_set(old(self).black, old(self).white, x as int, y as int, value);
        }
    }
}

/// Assigning square (x, y) in the occupancy words sets that square to the
/// assigned color, leaves every other square unchanged, makes the two words
/// disjoint there, and keeps them disjoint wherever they already were.
pub proof fn lemma_occ_after_set(black: u64, white: u64, x: int, y: int, value: Option<Color>)
    requires
        in_bounds(x, y),
    ensures
        occ_bits(
            black_bits_after(black, sq_index(x, y), value),
            white_bits_after(white, sq_index(x, y), value),
            x,
            y,
        ) == value,
        disjoint_at(
            black_bits_after(black, sq_index(x, y), value),
            white_bits_after(white, sq_index(x, y), value),
            x,
            y,
        ),
        forall|a: int, b: int|
            in_bounds(a, b) && !(a == x && b == y) ==> #[trigger] occ_bits(
                black_bits_after(black, sq_index(x, y), value),
                white_bits_after(white, sq_index(x, y), value),
                a,
                b,
            ) == occ_bits(black, white, a, b),
        forall|a: int, b: int|
            in_bounds(a, b) && !(a == x && b == y) ==> (#[trigger] disjoint_at(
                black_bits_after(black, sq_index(x, y), value),
                white_bits_after(white, sq_index(x, y), value),
                a,
                b,
            ) == disjoint_at(black, white, a, b)),
{
    let i = sq_index(x, y);
    lemma_mask_or(black, i, i);
    lemma_mask_or(white, i, i);
    lemma_mask_andnot(black, i, i);
    lemma_mask_andnot(white, i, i);
    assert forall|a: int, b: int| in_bounds(a, b) && !(a == x && b == y) implies #[trigger] occ_bits(
        black_bits_after(black, sq_index(x, y), value),
        white_bits_after(white, sq_index(x, y), value),
        a,
        b,
    ) == occ_bits(black, white, a, b) by {
        let j = sq_index(a, b);
        lemma_sq_index_injective(x, y, a, b);
        lemma_mask_or(black, i, j);
        lemma_mask_or(white, i, j);
        lemma_mask_andnot(black, i, j);
        lemma_mask_andnot(white, i, j);
    }
    assert forall|a: int, b: int|
        in_bounds(a, b) && !(a == x && b == y) implies (#[trigger] disjoint_at(
        black_bits_after(black, sq_index(x, y), value),
        white_bits_after(white, sq_index(x, y), value),
        a,
        b,
    ) == disjoint_at(black, white, a, b)) by {
        let j = sq_index(a, b);
        lemma_sq_index_injective(x, y, a, b);
        lemma_mask_or(black, i, j);
        lemma_mask_or(white, i, j);
        lemma_mask_andnot(black, i, j);
        lemma_mask_andnot(white, i, j);
    }
}

/// Setting bit `i` by `or` makes it set and leaves every other bit unchanged.
proof fn lemma_mask_or(b: u64, i: u64, j: u64)
    by (bit_vector)
    requires
        i < 64,
        j < 64,
    ensures
        bit_at(b | sq_mask(i), i),
        i != j ==> bit_at(b | sq_mask(i), j) == bit_at(b, j),
{
}

/// Clearing bit `i` by `and`-with-complement makes it clear and leaves every
/// other bit unchanged.
proof fn lemma_mask_andnot(b: u64, i: u64, j: u64)
    by (bit_vector)
    requires
        i < 64,
        j < 64,
    ensures
        !bit_at(b & !sq_mask(i), i),
        i != j ==> bit_at(b & !sq_mask(i), j) == bit_at(b, j),
{
}

/// Distinct on-board squares have distinct occupancy-set bit indexes.
pub proof fn lemma_sq_index_injective(x1: int, y1: int, x2: int, y2: int)
    requires
        in_bounds(x1, y1),
        in_bounds(x2, y2),
        !(x1 == x2 && y1 == y2),
    ensures
        sq_index(x1, y1) != sq_index(x2, y2),
        sq_index(x1, y1) < 64,
        sq_index(x2, y2) < 64,
{
}

} // verus!
