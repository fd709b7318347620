use chess_core::Color;
use chess_core::Game;
use chess_core::GameState;
use chess_core::Piece;
use chess_core::coordinates_to_string;
use chess_core::string_to_coordinates;

#[test]
fn print() {
    let game = Game::new();
    println!("{:?}", game.get_board());
}

#[test]
fn set_color() {
    let mut game = Game::new();
    for y in 0..8usize {
        for x in 0..8usize {
            game.set_color_at(x, y, None);
            if x % 2 == 0 {
                game.set_color_at(x, y, Some(Color::Black));
            } else {
                game.set_color_at(x, y, Some(Color::White));
            }
        }
    }
    println!("{:?}", game.get_board());
}

#[test]
fn in_check() {
    let mut game = Game::new();
    game.board = [
        [None, None, None, None, None, None, None, None],
        [None, None, None, None, None, None, None, None],
        [None, None, None, Some(Piece::King), None, None, None, None],
        [None, None, None, None, None, None, None, None],
        [None, None, Some(Piece::Pawn), None, None, None, None, None],
        [None, None, None, None, None, None, None, None],
        [None, None, None, None, None, None, None, None],
        [None, None, None, None, None, None, None, None],
    ];
    game.black = 0x00_00_10_00_00_00_00_00;
    game.white = 0x00_00_00_00_20_00_00_00;
    println!("{:?}", game.get_board());
    assert!(!game.is_in_check(Color::Black));
    game.move_piece(2, 4, 2, 3);
    println!("{:?}", game.get_board());
    assert!(game.is_in_check(Color::Black));
}

#[test]
fn checkmated() {
    let mut game = Game::new();
    game.board = [
        [Some(Piece::Rook), None, None, Some(Piece::King), None, None, None, None],
        [Some(Piece::Rook), None, None, None, None, None, None, None],
        [None, None, None, None, None, None, None, None],
        [None, None, None, None, None, None, None, None],
        [None, None, None, None, None, None, None, None],
        [None, None, None, None, None, None, None, None],
        [None, None, None, None, None, None, None, None],
        [None, None, None, None, None, None, None, None],
    ];
    game.black = 0x10_00_00_00_00_00_00_00;
    game.white = 0x80_80_00_00_00_00_00_00;
    println!("{:?}", game.get_board());
    assert!(game.is_in_check(Color::Black));
    assert!(game.has_no_moves(Color::Black));
    game.move_piece(0, 1, 0, 4);
    println!("{:?}", game.get_board());
    assert!(!game.has_no_moves(Color::Black));
}

#[test]
fn check_after_move() {
    let mut game = Game::new();
    game.board = [
        [None, None, None, None, None, None, None, None],
        [None, None, None, None, None, None, None, None],
        [None, None, None, Some(Piece::King), None, None, None, None],
        [None, None, None, None, None, None, None, None],
        [None, None, Some(Piece::Pawn), None, None, None, None, None],
        [None, None, None, None, None, None, None, None],
        [None, None, None, None, None, None, None, None],
        [None, None, None, None, None, None, None, None],
    ];
    game.black = 0x00_00_10_00_00_00_00_00;
    game.white = 0x00_00_00_00_20_00_00_00;
    println!("{:?}", game.get_board());
    assert!(!game.is_in_check(Color::Black));
    assert!(game.in_check_after_move(2, 4, 2, 3, Color::Black));
    let moves = game.get_possible_moves("D6").unwrap();
    println!("{:?}", moves)
}

#[test]
fn string_conversion() {
    let mut counter_x = 0;
    for letter in ["A", "B", "C", "D", "E", "F", "G", "H"] {
        let mut counter_y = 8;
        for digit in ["1", "2", "3", "4", "5", "6", "7", "8"] {
            counter_y -= 1;
            let coordinates = String::from(letter) + digit;
            println!("Before conversion: {}", coordinates);
            let coordinates = string_to_coordinates(&coordinates);
            println!("After conversion to number: {:?}", coordinates);
            assert!(coordinates == (counter_x, counter_y));
            let coordinates = coordinates_to_string(coordinates.0, coordinates.1);
            println!("After conversion back to string: {}", coordinates);
            assert!(coordinates == String::from(letter) + digit);
        }
        counter_x += 1;
    }
}

// Play a scholar's mate to demonstrate chessy behavior
#[test]
fn scholars_mate() {
    let mut game = Game::new();
    assert!(game.make_move("E2", "E4") != None);
    assert!(game.make_move("E7", "E5") != None);
    assert!(game.make_move("D1", "H5") != None);
    assert!(game.make_move("B8", "C6") != None);
    assert!(game.make_move("F1", "C4") != None);
    assert!(game.make_move("G8", "F6") != None);
    assert!(game.make_move("H5", "F7") != None);
    println!("{:?}", game.get_board());
    assert!(game.get_game_state() == GameState::Checkmate)
}

// Control that multiple pieces move as expected, and that the only valid moves are the ones that end a check
#[test]
fn possible_moves() {
    // Move a white pawn to check the black king and control that capturing works as expected
    let mut game = Game::new();
    game.move_piece(2, 6, 2, 2);
    println!("{:?}", game.get_board());
    assert!(game.get_possible_moves("C6") == Some(vec![String::from("D7"), String::from("B7")]));
    assert!(game.make_move("C6", "D7") != None);
    println!("{:?}", game.get_board());
    assert!(game.state == GameState::Check);
    // Control that the expected pieces can capture the pawn
    assert!(game.get_possible_moves("B8") == Some(vec![String::from("D7")]));
    assert!(game.get_possible_moves("C8") == Some(vec![String::from("D7")]));
    assert!(game.get_possible_moves("D8") == Some(vec![String::from("D7")]));
    assert!(game.get_possible_moves("D8") == Some(vec![String::from("D7")]));
    // Control that the _only_ valid moves are the ones that end the check
    let mut all_black_moves: Vec<String>;
    all_black_moves = game.get_possible_moves("E8").unwrap();
    for letter in ["A", "B", "C", "D", "E", "F", "G", "H"] {
        for digit in ["7", "8"] {
            let coordinates = String::from(letter) + digit;
            if coordinates != String::from("D7") && coordinates != String::from("E8") {
                all_black_moves.append(&mut game.get_possible_moves(&coordinates).unwrap());
            }
        }
    }
    println!("Possible moves: {:?}", all_black_moves);
    assert!(
        all_black_moves
            == vec![
                String::from("D7"),
                String::from("D7"),
                String::from("D7"),
                String::from("D7"),
            ]
    )
}

#[test]
fn promotion() {
    let mut game = Game::new();
    game.board = [
        [None, None, None, None, None, None, None, Some(Piece::King)],
        [None, None, None, None, None, None, None, None],
        [None, None, None, None, None, None, None, None],
        [None, None, None, None, None, None, None, None],
        [None, None, None, None, None, None, None, None],
        [None, None, None, None, None, None, None, None],
        [
            Some(Piece::Pawn),
            Some(Piece::Pawn),
            Some(Piece::Pawn),
            Some(Piece::Pawn),
            Some(Piece::Pawn),
            Some(Piece::Pawn),
            Some(Piece::Pawn),
            Some(Piece::Pawn),
        ],
        [
            Some(Piece::Rook),
            Some(Piece::Knight),
            Some(Piece::Bishop),
            Some(Piece::Queen),
            Some(Piece::King),
            Some(Piece::Bishop),
            Some(Piece::Knight),
            Some(Piece::Rook),
        ],
    ];
    game.black = 0x01_00_00_00_00_00_00_00;
    assert!(game.make_move("A2", "A3") != None);
    game.player = Color::White;
    assert!(game.make_move("A3", "A4") != None);
    game.player = Color::White;
    assert!(game.make_move("A4", "A5") != None);
    game.player = Color::White;
    assert!(game.make_move("A5", "A6") != None);
    game.player = Color::White;
    assert!(game.make_move("A6", "A7") != None);
    game.player = Color::White;
    assert!(game.make_move("A7", "A8") != None);
    assert!(game.board[0][0] == Some(Piece::Queen));

    game.set_promotion(Piece::Knight);
    game.player = Color::White;
    assert!(game.make_move("B2", "B3") != None);
    game.player = Color::White;
    assert!(game.make_move("B3", "B4") != None);
    game.player = Color::White;
    assert!(game.make_move("B4", "B5") != None);
    game.player = Color::White;
    assert!(game.make_move("B5", "B6") != None);
    game.player = Color::White;
    assert!(game.make_move("B6", "B7") != None);
    game.player = Color::White;
    assert!(game.make_move("B7", "B8") != None);
    assert!(game.board[0][1] == Some(Piece::Knight))
}
