//! The closed tag types of the engine: pieces, colors and game states.
use vstd::prelude::*;

verus! {

/// A chess piece kind. A piece has no identity beyond its type.
#[derive(Clone, Copy, Debug, PartialEq, Eq, Structural, Hash)]
pub enum Piece {
    King,
    Queen,
    Rook,
    Bishop,
    Knight,
    Pawn,
}

/// The state a game is in. `InProgress` is initial; `GameOver` is reserved
/// for termination by an external actor (e.g. resignation) and is never
/// produced by the engine's own transitions.
#[derive(Clone, Copy, PartialEq, Eq, Structural, Debug)]
pub enum GameState {
    InProgress,
    Check,
    GameOver,
    Checkmate,
}

/// The two sides. Black's pieces start on ranks 0 and 1 of the internal
/// grid (the top), White's on ranks 6 and 7 (the bottom).
#[derive(PartialEq, Eq, Structural, Debug, Clone, Copy, Hash)]
pub enum Color {
    Black,
    White,
}

/// The side opposing `c`.
pub open spec fn opposite(c: Color) -> Color {
    match c {
        Color::Black => Color::White,
        Color::White => Color::Black,
    }
}

/// Returns the opposite of the given color.
pub fn get_opposite_color(color: Color) -> (r: Color)
    ensures
        r == opposite(color),
{
    match color {
        Color::Black => Color::White,
        Color::White => Color::Black,
    }
}

} // verus!
