//! The boundary coordinate notation: a file letter `A`-`H` (case-insensitive)
//! followed by a rank digit `1`-`8`, mapped reversibly to internal (x, y)
//! coordinates with the origin at the top-left corner.
use vstd::prelude::*;

use crate::board::in_bounds;

verus! {

/// True iff `c` denotes a board file.
pub open spec fn is_file_char(c: char) -> bool {
    ||| c == 'A' || c == 'B' || c == 'C' || c == 'D' || c == 'E' || c == 'F' || c == 'G' || c == 'H'
    ||| c == 'a' || c == 'b' || c == 'c' || c == 'd' || c == 'e' || c == 'f' || c == 'g' || c == 'h'
}

/// True iff `c` denotes a board rank.
pub open spec fn is_rank_char(c: char) -> bool {
    c == '1' || c == '2' || c == '3' || c == '4' || c == '5' || c == '6' || c == '7' || c == '8'
}

/// The file index a letter denotes: `A` (either case) is 0, `H` is 7.
pub open spec fn file_index(c: char) -> int {
    if c == 'A' || c == 'a' {
        0
    } else if c == 'B' || c == 'b' {
        1
    } else if c == 'C' || c == 'c' {
        2
    } else if c == 'D' || c == 'd' {
        3
    } else if c == 'E' || c == 'e' {
        4
    } else if c == 'F' || c == 'f' {
        5
    } else if c == 'G' || c == 'g' {
        6
    } else {
        7
    }
}

/// The rank index a digit denotes: digit `8` is row 0 (the top), digit `1` is row 7.
pub open spec fn rank_index(c: char) -> int {
    if c == '8' {
        0
    } else if c == '7' {
        1
    } else if c == '6' {
        2
    } else if c == '5' {
        3
    } else if c == '4' {
        4
    } else if c == '3' {
        5
    } else if c == '2' {
        6
    } else {
        7
    }
}

/// The upper-case form of a file letter.
pub open spec fn file_upper(c: char) -> char {
    if c == 'a' {
        'A'
    } else if c == 'b' {
        'B'
    } else if c == 'c' {
        'C'
    } else if c == 'd' {
        'D'
    } else if c == 'e' {
        'E'
    } else if c == 'f' {
        'F'
    } else if c == 'g' {
        'G'
    } else if c == 'h' {
        'H'
    } else {
        c
    }
}

/// True iff `s` is one of the valid coordinate strings (a file letter in
/// either case followed by a rank digit).
pub open spec fn valid_coord(s: Seq<char>) -> bool {
    s.len() == 2 && is_file_char(s[0]) && is_rank_char(s[1])
}

/// The file index a valid coordinate string denotes.
pub open spec fn coord_x(s: Seq<char>) -> int {
    file_index(s[0])
}

/// The rank index a valid coordinate string denotes.
pub open spec fn coord_y(s: Seq<char>) -> int {
    rank_index(s[1])
}

/// The letter of file `x`: 0 is `A`, 7 is `H`.
pub open spec fn file_char(x: int) -> char {
    if x == 0 {
        'A'
    } else if x == 1 {
        'B'
    } else if x == 2 {
        'C'
    } else if x == 3 {
        'D'
    } else if x == 4 {
        'E'
    } else if x == 5 {
        'F'
    } else if x == 6 {
        'G'
    } else {
        'H'
    }
}

/// The digit of row `y`: row 0 is `8`, row 7 is `1`.
pub open spec fn rank_char(y: int) -> char {
    if y == 0 {
        '8'
    } else if y == 1 {
        '7'
    } else if y == 2 {
        '6'
    } else if y == 3 {
        '5'
    } else if y == 4 {
        '4'
    } else if y == 5 {
        '3'
    } else if y == 6 {
        '2'
    } else {
        '1'
    }
}

/// The canonical (upper-case) coordinate string of square (x, y).
pub open spec fn coord_str(x: int, y: int) -> Seq<char> {
    seq![file_char(x), rank_char(y)]
}

/// The case-normalized form of a valid coordinate string.
pub open spec fn upper_coord(s: Seq<char>) -> Seq<char> {
    seq![file_upper(s[0]), s[1]]
}

/// Converting a valid coordinate string to internal coordinates and back
/// yields the original string, case-normalized; and rendering any square and
/// parsing the result round-trips exactly.
pub proof fn lemma_coord_round_trip(s: Seq<char>, x: int, y: int)
    requires
        valid_coord(s),
        in_bounds(x, y),
    ensures
        coord_str(coord_x(s), coord_y(s)) == upper_coord(s),
        in_bounds(coord_x(s), coord_y(s)),
        coord_x(coord_str(x, y)) == x,
        coord_y(coord_str(x, y)) == y,
        valid_coord(coord_str(x, y)),
{
    assert(coord_str(coord_x(s), coord_y(s)) =~= upper_coord(s));
}

/// Converts alphanumeric chess coordinates to numeric board coordinates.
/// A malformed string reaching the core is a caller error, excluded here.
pub fn string_to_coordinates(position: &str) -> (r: (usize, usize))
    requires
        valid_coord(position@),
    ensures
        r.0 == coord_x(position@),
        r.1 == coord_y(position@),
        in_bounds(r.0 as int, r.1 as int),
{
    let c0: char = position.get_char(0);
    let c1: char = position.get_char(1);
    let x: usize = match c0 {
        'A' | 'a' => 0,
        'B' | 'b' => 1,
        'C' | 'c' => 2,
        'D' | 'd' => 3,
        'E' | 'e' => 4,
        'F' | 'f' => 5,
        'G' | 'g' => 6,
        'H' | 'h' => 7,
        _ => vstd::pervasive::unreached(),
    };
    let y: usize = match c1 {
        '8' => 0,
        '7' => 1,
        '6' => 2,
        '5' => 3,
        '4' => 4,
        '3' => 5,
        '2' => 6,
        '1' => 7,
        _ => vstd::pervasive::unreached(),
    };
    (x, y)
}

/// Returns the canonical string representation of numeric board coordinates.
pub fn coordinates_to_string(x: usize, y: usize) -> (r: String)
    requires
        x < 8,
        y < 8,
    ensures
        r@ == coord_str(x as int, y as int),
{
    let file: &str = match x {
        0 => "A",
        1 => "B",
        2 => "C",
        3 => "D",
        4 => "E",
        5 => "F",
        6 => "G",
        _ => "H",
    };
    let rank: &str = match y {
        0 => "8",
        1 => "7",
        2 => "6",
        3 => "5",
        4 => "4",
        5 => "3",
        6 => "2",
        _ => "1",
    };
    proof {
        reveal_strlit("A");
        reveal_strlit("B");
        reveal_strlit("C");
        reveal_strlit("D");
        reveal_strlit("E");
        reveal_strlit("F");
        reveal_strlit("G");
        reveal_strlit("H");
        reveal_strlit("8");
        reveal_strlit("7");
        reveal_strlit("6");
        reveal_strlit("5");
        reveal_strlit("4");
        reveal_strlit("3");
        reveal_strlit("2");
        reveal_strlit("1");
    }
    let r = String::from_str(file).concat(rank);
    proof {
        assert(r@ =~= coord_str(x as int, y as int));
    }
    r
}

} // verus!
