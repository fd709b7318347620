//! The game state machine: constructing the starting position and the single
//! move-attempt entry point that validates, commits and classifies a move.
use vstd::prelude::*;

use crate::board::Game;
use crate::board::bit_at;
use crate::board::in_bounds;
use crate::board::sq_index;
use crate::check::squares_contain;
use crate::coords::coord_x;
use crate::coords::coord_y;
use crate::coords::valid_coord;
use crate::coords::string_to_coordinates;
use crate::legal::legal_move;
use crate::legal::lemma_with_move_king_ok;
use crate::legal::lemma_with_move_other_king_ok;
use crate::types::Color;
use crate::types::GameState;
use crate::types::Piece;
use crate::types::get_opposite_color;
use crate::types::opposite;

verus! {

/// The piece standing on square (x, y) in the standard starting layout.
pub open spec fn initial_piece_at(x: int, y: int) -> Option<Piece> {
    if y == 0 || y == 7 {
        Some(
            if x == 0 || x == 7 {
                Piece::Rook
            } else if x == 1 || x == 6 {
                Piece::Knight
            } else if x == 2 || x == 5 {
                Piece::Bishop
            } else if x == 3 {
                Piece::Queen
            } else {
                Piece::King
            },
        )
    } else if y == 1 || y == 6 {
        Some(Piece::Pawn)
    } else {
        None
    }
}

/// The color holding square (x, y) in the standard starting layout: Black on
/// the top two rows, White on the bottom two.
pub open spec fn initial_occ(x: int, y: int) -> Option<Color> {
    if y <= 1 {
        Some(Color::Black)
    } else if y >= 6 {
        Some(Color::White)
    } else {
        None
    }
}

/// In the starting occupancy words, Black holds exactly bits 0..16 (the top
/// two rows) and White exactly bits 48..64 (the bottom two).
proof fn lemma_initial_bits(i: u64)
    by (bit_vector)
    requires
        i < 64,
    ensures
        bit_at(0xFF_FF_00_00_00_00_00_00u64, i) == (i < 16),
        bit_at(0x00_00_00_00_00_00_FF_FFu64, i) == (i >= 48),
{
}

/// The state a committed move leaves the game in, judged on the resulting
/// position `w` against the non-moving color: checkmate if that color is in
/// check with no legal move, check if merely attacked, else in progress.
pub open spec fn outcome_state(w: Game, opp: Color) -> GameState {
    if w.in_check(opp) {
        if w.no_legal_moves(opp) {
            GameState::Checkmate
        } else {
            GameState::Check
        }
    } else {
        GameState::InProgress
    }
}

impl Game {
    /// The move-attempt guard: the state admits moves, the origin square
    /// holds the side to move, and the move is legal.
    pub open spec fn move_allowed(self, fx: int, fy: int, tx: int, ty: int) -> bool {
        &&& (self.state == GameState::InProgress || self.state == GameState::Check)
        &&& self.occ(fx, fy) == Some(self.player)
        &&& legal_move(self, fx, fy, tx, ty)
    }

    /// Constructs a game in the standard starting position: White to move,
    /// queen promotion, and the occupancy index in sync with the grid.
    pub fn new() -> (r: Game)
        ensures
            r.state == GameState::InProgress,
            r.player == Color::White,
            r.promotion_piece == Piece::Queen,
            r.black == 0xFF_FF_00_00_00_00_00_00u64,
            r.white == 0x00_00_00_00_00_00_FF_FFu64,
            forall|x: int, y: int|
                in_bounds(x, y) ==> (#[trigger] r.piece_at(x, y)) == initial_piece_at(x, y),
            forall|x: int, y: int|
                in_bounds(x, y) ==> (#[trigger] r.occ(x, y)) == initial_occ(x, y),
            r.wf(),
            r.king_ok(Color::White),
            r.king_ok(Color::Black),
    {
        let game = Game {
            board: [
                [
                    Some(Piece::Rook),
                    Some(Piece::Knight),
                    Some(Piece::Bishop),
                    Some(Piece::Queen),
                    Some(Piece::King),
                    Some(Piece::Bishop),
                    Some(Piece::Knight),
                    Some(Piece::Rook),
                ],
                [
                    Some(Piece::Pawn),
                    Some(Piece::Pawn),
                    Some(Piece::Pawn),
                    Some(Piece::Pawn),
                    Some(Piece::Pawn),
                    Some(Piece::Pawn),
                    Some(Piece::Pawn),
                    Some(Piece::Pawn),
                ],
                [None, None, None, None, None, None, None, None],
                [None, None, None, None, None, None, None, None],
                [None, None, None, None, None, None, None, None],
                [None, None, None, None, None, None, None, None],
                [
                    Some(Piece::Pawn),
                    Some(Piece::Pawn),
                    Some(Piece::Pawn),
                    Some(Piece::Pawn),
                    Some(Piece::Pawn),
                    Some(Piece::Pawn),
                    Some(Piece::Pawn),
                    Some(Piece::Pawn),
                ],
                [
                    Some(Piece::Rook),
                    Some(Piece::Knight),
                    Some(Piece::Bishop),
                    Some(Piece::Queen),
                    Some(Piece::King),
                    Some(Piece::Bishop),
                    Some(Piece::Knight),
                    Some(Piece::Rook),
                ],
            ],
            black: 0xFF_FF_00_00_00_00_00_00,
            white: 0x00_00_00_00_00_00_FF_FF,
            state: GameState::InProgress,
            player: Color::White,
            promotion_piece: Piece::Queen,
        };
        proof {
            assert forall|x: int, y: int| in_bounds(x, y) implies (#[trigger] game.piece_at(x, y))
                == initial_piece_at(x, y) by {}
            assert forall|x: int, y: int| in_bounds(x, y) implies (#[trigger] game.occ(x, y))
                == initial_occ(x, y) by {
                lemma_initial_bits(sq_index(x, y));
            }
            assert forall|x: int, y: int| in_bounds(x, y) implies crate::board::disjoint_at(
                game.black,
                game.white,
                x,
                y,
            ) && ((#[trigger] game.piece_at(x, y)) is Some <==> (#[trigger] game.occ(x, y))
                is Some) by {
                lemma_initial_bits(sq_index(x, y));
            }
            assert(game.is_king_sq(Color::White, 4, 7));
            assert(game.is_king_sq(Color::Black, 4, 0));
            assert forall|a: int, b: int| #[trigger] game.is_king_sq(Color::White, a, b) implies a
                == 4 && b == 7 by {
                assert(game.piece_at(a, b) == initial_piece_at(a, b));
            }
            assert forall|a: int, b: int| #[trigger] game.is_king_sq(Color::Black, a, b) implies a
                == 4 && b == 0 by {
                assert(game.piece_at(a, b) == initial_piece_at(a, b));
            }
        }
        game
    }

    /// Attempts a move given in standard chess coordinates. If the state
    /// admits moves, the origin piece belongs to the side to move and the
    /// destination is legal, the move is committed, the opponent's new status
    /// is classified, the turn passes to the opponent, and the new state is
    /// returned. Any rejected move returns `None` and mutates nothing.
    pub fn make_move(&mut self, _from: &str, _to: &str) -> (r: Option<GameState>)
        requires
            valid_coord(_from@),
            valid_coord(_to@),
            old(self).wf(),
            old(self).king_ok(Color::White),
            old(self).king_ok(Color::Black),
            old(self).promotion_piece != Piece::King,
            old(self).move_allowed(
                coord_x(_from@),
                coord_y(_from@),
                coord_x(_to@),
                coord_y(_to@),
            ) ==> old(self).piece_at(coord_x(_to@), coord_y(_to@)) != Some(Piece::King),
        ensures
            (r is Some) == old(self).move_allowed(
                coord_x(_from@),
                coord_y(_from@),
                coord_x(_to@),
                coord_y(_to@),
            ),
            !old(self).move_allowed(coord_x(_from@), coord_y(_from@), coord_x(_to@), coord_y(_to@))
                ==> *final(self) == *old(self),
            old(self).move_allowed(coord_x(_from@), coord_y(_from@), coord_x(_to@), coord_y(_to@))
                ==> ({
                let w = old(self).with_move(
                    coord_x(_from@),
                    coord_y(_from@),
                    coord_x(_to@),
                    coord_y(_to@),
                );
                let opp = opposite(old(self).player);
                &&& final(self).board == w.board
                &&& final(self).black == w.black
                &&& final(self).white == w.white
                &&& final(self).promotion_piece == old(self).promotion_piece
                &&& final(self).player == opp
                &&& final(self).state == outcome_state(w, opp)
                &&& r == Some(final(self).state)
                &&& final(self).wf()
            }),
    {
        let ghost g = *old(self);
        let numerical_from = string_to_coordinates(_from);
        let numerical_to = string_to_coordinates(_to);
        let fx = numerical_from.0;
        let fy = numerical_from.1;
        let tx = numerical_to.0;
        let ty = numerical_to.1;
        // Exit if game state prohibits moving.
        let state_ok: bool = match self.state {
            GameState::InProgress => true,
            GameState::Check => true,
            _ => false,
        };
        if !state_ok {
            return None;
        }
        // Exit if attempting to move out of turn (or from an empty square).
        let turn_ok: bool = match self.get_color_at(fx, fy) {
            Some(c) => c == self.player,
            None => false,
        };
        if !turn_ok {
            return None;
        }
        // Exit if the destination is not a legal move of the origin piece.
        let moves = self.legal_moves(fx, fy);
        if !squares_contain(&moves, (tx, ty)) {
            return None;
        }
        // The move is legal: commit it, then classify the opponent's status.
        proof {
            assert(legal_move(g, fx as int, fy as int, tx as int, ty as int));
            lemma_with_move_king_ok(g, fx as int, fy as int, tx as int, ty as int, g.player);
            lemma_with_move_other_king_ok(
                g,
                fx as int,
                fy as int,
                tx as int,
                ty as int,
                g.player,
                opposite(g.player),
            );
        }
        self.move_piece(fx, fy, tx, ty);
        let opponent = get_opposite_color(self.player);
        if self.is_in_check(opponent) {
            if self.has_no_moves(opponent) {
                self.state = GameState::Checkmate;
            } else {
                self.state = GameState::Check;
            }
        } else {
            self.state = GameState::InProgress;
        }
        self.player = opponent;
        proof {
            let w = g.with_move(fx as int, fy as int, tx as int, ty as int);
            assert forall|a: int, b: int| in_bounds(a, b) implies crate::board::disjoint_at(
                self.black,
                self.white,
                a,
                b,
            ) && ((#[trigger] self.piece_at(a, b)) is Some <==> (#[trigger] self.occ(a, b))
                is Some) by {
                assert(w.piece_at(a, b) == self.piece_at(a, b));
                assert(w.occ(a, b) == self.occ(a, b));
            }
        }
        Some(self.state)
    }

    /// Sets the piece type for promotion. Promoting to a king is a caller
    /// error, excluded here.
    pub fn set_promotion(&mut self, _piece: Piece)
        requires
            _piece != Piece::King,
        ensures
            final(self).promotion_piece == _piece,
            final(self).board == old(self).board,
            final(self).black == old(self).black,
            final(self).white == old(self).white,
            final(self).state == old(self).state,
            final(self).player == old(self).player,
    {
        match _piece {
            Piece::King => vstd::pervasive::unreached(),
            _ => {
                self.promotion_piece = _piece;
            },
        }
    }

    /// The current game state.
    pub fn get_game_state(&self) -> (r: GameState)
        ensures
            r == self.state,
    {
        self.state
    }

    /// A read-only snapshot of the 8x8 grid, for rendering by external
    /// collaborators.
    pub fn get_board(&self) -> (r: [[Option<Piece>; 8]; 8])
        ensures
            r == self.board,
    {
        self.board
    }
}

} // verus!
