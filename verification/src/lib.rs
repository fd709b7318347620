//! A verified chess rules engine: move generation, legality filtering via
//! check simulation, and the turn/check/checkmate state machine.
//!
//! The engine models the board as an 8x8 grid of optional pieces together
//! with two per-color 64-bit occupancy sets, kept in sync by an invariant.
//! `Game::make_move` is the single entry point that mutates a game; all
//! rule checks are derived from pseudo-legal move generation plus a
//! "does this leave my own king attacked" simulation.
pub mod types;
pub mod board;
pub mod coords;
pub mod moves;
pub mod sim;
pub mod check;
pub mod legal;
pub mod game;
pub mod laws;

pub use types::Color;
pub use types::GameState;
pub use types::Piece;
pub use types::get_opposite_color;
pub use board::Game;
pub use coords::coordinates_to_string;
pub use coords::string_to_coordinates;
