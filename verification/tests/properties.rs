use chess_core::Color;
use chess_core::Game;
use chess_core::GameState;
use chess_core::Piece;
use chess_core::coordinates_to_string;
use chess_core::string_to_coordinates;

// Checks the occupancy-index invariant on a game value: no square is claimed
// by both color sets, and a grid entry is present iff some color bit is set.
fn occupancy_invariant_holds(game: &Game) -> bool {
    if game.black & game.white != 0 {
        return false;
    }
    let board = game.get_board();
    for y in 0..8usize {
        for x in 0..8usize {
            let has_piece = board[y][x].is_some();
            let has_color = game.get_color_at(x, y).is_some();
            if has_piece != has_color {
                return false;
            }
        }
    }
    true
}

#[test]
fn opening_move_count_is_twenty() {
    let mut game = Game::new();
    let mut total = 0usize;
    for y in 0..8usize {
        for x in 0..8usize {
            if game.get_color_at(x, y) == Some(Color::White) {
                let square = coordinates_to_string(x, y);
                let moves = game.get_possible_moves(&square).unwrap();
                total += moves.len();
            }
        }
    }
    assert_eq!(total, 20);
}

#[test]
fn legal_moves_subset_of_basic_moves() {
    // In the opening position and in a mid-game check position, every legal
    // move of a piece appears among its pseudo-legal moves.
    let mut game = Game::new();
    game.move_piece(2, 6, 2, 2);
    assert!(game.make_move("C6", "D7") != None);
    assert_eq!(game.get_game_state(), GameState::Check);
    let board = game.get_board();
    for y in 0..8usize {
        for x in 0..8usize {
            if let Some(piece) = board[y][x] {
                let basic = piece.get_basic_moves(x, y, &game);
                let legal = game.legal_moves(x, y);
                for m in &legal {
                    assert!(basic.contains(m));
                }
            }
        }
    }
}

#[test]
fn occupancy_invariant_after_committed_moves() {
    let mut game = Game::new();
    assert!(occupancy_invariant_holds(&game));
    for (from, to) in [
        ("E2", "E4"),
        ("E7", "E5"),
        ("G1", "F3"),
        ("B8", "C6"),
        ("F1", "B5"),
        ("G8", "F6"),
    ] {
        assert!(game.make_move(from, to) != None);
        assert!(occupancy_invariant_holds(&game));
    }
}

#[test]
fn rejected_moves_leave_the_game_unchanged() {
    let mut game = Game::new();
    // Moving out of turn is rejected.
    assert_eq!(game.make_move("E7", "E5"), None);
    // Moving from an empty square is rejected.
    assert_eq!(game.make_move("E4", "E5"), None);
    // An illegal destination is rejected.
    assert_eq!(game.make_move("E2", "E5"), None);
    assert_eq!(game.make_move("A1", "A2"), None);
    assert_eq!(game.get_game_state(), GameState::InProgress);
    assert!(occupancy_invariant_holds(&game));
    // After the rejections, a legal opening move still works.
    assert!(game.make_move("E2", "E4") != None);
}

#[test]
fn no_moves_accepted_after_checkmate() {
    let mut game = Game::new();
    assert!(game.make_move("E2", "E4") != None);
    assert!(game.make_move("E7", "E5") != None);
    assert!(game.make_move("D1", "H5") != None);
    assert!(game.make_move("B8", "C6") != None);
    assert!(game.make_move("F1", "C4") != None);
    assert!(game.make_move("G8", "F6") != None);
    assert_eq!(game.make_move("H5", "F7"), Some(GameState::Checkmate));
    // The checkmated side (and anyone else) can no longer move.
    assert_eq!(game.make_move("E8", "F7"), None);
    assert_eq!(game.make_move("A7", "A6"), None);
    assert_eq!(game.get_game_state(), GameState::Checkmate);
}

#[test]
fn coordinates_are_case_insensitive() {
    assert_eq!(string_to_coordinates("A8"), (0, 0));
    assert_eq!(string_to_coordinates("a8"), (0, 0));
    assert_eq!(string_to_coordinates("H1"), (7, 7));
    assert_eq!(string_to_coordinates("h1"), (7, 7));
    assert_eq!(string_to_coordinates("E2"), (4, 6));
    assert_eq!(string_to_coordinates("e2"), (4, 6));
    assert_eq!(coordinates_to_string(0, 0), String::from("A8"));
    assert_eq!(coordinates_to_string(7, 7), String::from("H1"));
    let mut game = Game::new();
    assert!(game.make_move("e2", "e4") != None);
}

#[test]
fn pawn_cannot_jump_over_a_piece() {
    // The two-square advance needs the intervening square empty too: a white
    // pawn with a piece directly ahead has no move at all.
    let mut game = Game::new();
    game.board = [
        [Some(Piece::King), None, None, None, None, None, None, None],
        [None, None, None, None, None, None, None, None],
        [None, None, None, None, None, None, None, None],
        [None, None, None, None, None, None, None, None],
        [None, None, None, None, None, None, None, None],
        [None, None, None, None, Some(Piece::Knight), None, None, None],
        [None, None, None, None, Some(Piece::Pawn), None, None, None],
        [None, None, None, None, None, None, None, Some(Piece::King)],
    ];
    game.black = 0x80_00_00_00_00_08_00_00;
    game.white = 0x00_00_00_00_00_00_08_01;
    assert!(occupancy_invariant_holds(&game));
    assert_eq!(game.get_possible_moves("E2"), Some(vec![]));
}

#[test]
fn double_step_clears_both_squares() {
    // From the opening, a pawn may advance one or two squares; after a single
    // step, the double step is no longer offered.
    let mut game = Game::new();
    assert_eq!(
        game.get_possible_moves("D2"),
        Some(vec![String::from("D3"), String::from("D4")])
    );
    assert!(game.make_move("D2", "D3") != None);
    assert!(game.make_move("D7", "D5") != None);
    assert_eq!(game.get_possible_moves("D3"), Some(vec![String::from("D4")]));
}

#[test]
fn empty_square_has_no_move_list() {
    let mut game = Game::new();
    assert_eq!(game.get_possible_moves("E4"), None);
    assert_eq!(game.get_possible_moves("a5"), None);
}

#[test]
fn capture_overwrites_the_destination() {
    let mut game = Game::new();
    assert!(game.make_move("E2", "E4") != None);
    assert!(game.make_move("D7", "D5") != None);
    // White pawn captures the black pawn on D5.
    assert!(game.make_move("E4", "D5") != None);
    let board = game.get_board();
    assert_eq!(board[3][3], Some(Piece::Pawn));
    assert_eq!(game.get_color_at(3, 3), Some(Color::White));
    assert_eq!(board[4][4], None);
    assert_eq!(game.get_color_at(4, 4), None);
    assert!(occupancy_invariant_holds(&game));
}

#[test]
fn game_over_state_blocks_moves() {
    // GameOver is set only by an external actor; once set, the state guard
    // rejects every move attempt.
    let mut game = Game::new();
    game.state = GameState::GameOver;
    assert_eq!(game.make_move("E2", "E4"), None);
    assert_eq!(game.get_game_state(), GameState::GameOver);
}
