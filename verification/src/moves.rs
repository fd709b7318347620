//! Pseudo-legal move generation: per piece type, the candidate destination
//! squares from a square given only occupancy, ignoring whether the mover's
//! own king ends up attacked.
use vstd::prelude::*;

use crate::board::Game;
use crate::board::in_bounds;
use crate::types::Color;
use crate::types::Piece;
use crate::types::opposite;

verus! {

/// One king step: to an adjacent square (including diagonals).
pub open spec fn king_step(fx: int, fy: int, tx: int, ty: int) -> bool {
    &&& -1 <= tx - fx <= 1
    &&& -1 <= ty - fy <= 1
    &&& !(tx == fx && ty == fy)
}

/// One knight jump: two squares along one axis and one along the other.
pub open spec fn knight_step(fx: int, fy: int, tx: int, ty: int) -> bool {
    ||| ((tx - fx == 1 || tx - fx == -1) && (ty - fy == 2 || ty - fy == -2))
    ||| ((tx - fx == 2 || tx - fx == -2) && (ty - fy == 1 || ty - fy == -1))
}

/// A unit direction a rook may slide along.
pub open spec fn rook_dir(dx: int, dy: int) -> bool {
    (dx == 0 && (dy == 1 || dy == -1)) || (dy == 0 && (dx == 1 || dx == -1))
}

/// A unit direction a bishop may slide along.
pub open spec fn bishop_dir(dx: int, dy: int) -> bool {
    (dx == 1 || dx == -1) && (dy == 1 || dy == -1)
}

/// The unit directions piece `p` may slide along (sliding pieces only).
pub open spec fn piece_dir(p: Piece, dx: int, dy: int) -> bool {
    match p {
        Piece::Queen => rook_dir(dx, dy) || bishop_dir(dx, dy),
        Piece::Rook => rook_dir(dx, dy),
        Piece::Bishop => bishop_dir(dx, dy),
        _ => false,
    }
}

/// `k * d` for a unit direction component `d`, kept linear for the solver.
pub open spec fn mul_dir(k: int, d: int) -> int
    recommends
        -1 <= d <= 1,
{
    if d == 1 {
        k
    } else if d == -1 {
        -k
    } else {
        0
    }
}

/// The x coordinate `k` steps from `fx` along direction component `dx`.
pub open spec fn tgt_x(fx: int, dx: int, k: int) -> int {
    fx + mul_dir(k, dx)
}

/// The y coordinate `k` steps from `fy` along direction component `dy`.
pub open spec fn tgt_y(fy: int, dy: int, k: int) -> int {
    fy + mul_dir(k, dy)
}

/// The squares strictly between the origin and step `k` along the ray are all empty.
pub open spec fn ray_clear(g: Game, fx: int, fy: int, dx: int, dy: int, k: int) -> bool {
    forall|i: int|
        1 <= i < k ==> (#[trigger] g.occ(tgt_x(fx, dx, i), tgt_y(fy, dy, i))) is None
}

/// (tx, ty) is reachable by sliding from (fx, fy) along (dx, dy): it is some
/// number of steps out and every square strictly before it is empty.
pub open spec fn slide_to(g: Game, fx: int, fy: int, dx: int, dy: int, tx: int, ty: int) -> bool {
    exists|k: int|
        1 <= k <= 7 && tx == tgt_x(fx, dx, k) && ty == tgt_y(fy, dy, k) && #[trigger] ray_clear(
            g,
            fx,
            fy,
            dx,
            dy,
            k,
        )
}

/// Step `k` along a ray is a square the ray walk records: on the board,
/// reached across empty squares, and not held by the origin's own color.
pub open spec fn ray_ok(g: Game, fx: int, fy: int, dx: int, dy: int, k: int) -> bool {
    &&& in_bounds(tgt_x(fx, dx, k), tgt_y(fy, dy, k))
    &&& ray_clear(g, fx, fy, dx, dy, k)
    &&& g.occ(tgt_x(fx, dx, k), tgt_y(fy, dy, k)) != g.occ(fx, fy)
}

/// `m` is the square recorded at step `k` of the ray walk.
pub open spec fn ray_hit(g: Game, fx: int, fy: int, dx: int, dy: int, k: int, m: (usize, usize)) -> bool {
    &&& ray_ok(g, fx, fy, dx, dy, k)
    &&& m.0 == tgt_x(fx, dx, k)
    &&& m.1 == tgt_y(fy, dy, k)
}

/// `m` is a square the ray walk from (fx, fy) along (dx, dy) records: a
/// sliding destination not held by the origin's own color.
pub open spec fn slide_record(g: Game, fx: int, fy: int, dx: int, dy: int, m: (usize, usize)) -> bool {
    &&& in_bounds(m.0 as int, m.1 as int)
    &&& g.occ(m.0 as int, m.1 as int) != g.occ(fx, fy)
    &&& slide_to(g, fx, fy, dx, dy, m.0 as int, m.1 as int)
}

/// One pawn move for a pawn of color `c`: a one-square advance onto an empty
/// square, a two-square advance from the starting rank across and onto empty
/// squares, or a diagonal capture of an opposing piece. Black advances toward
/// increasing rank index, White toward decreasing.
pub open spec fn pawn_step(g: Game, c: Color, fx: int, fy: int, tx: int, ty: int) -> bool {
    let dy: int = if c is Black {
        1
    } else {
        -1
    };
    let start: int = if c is Black {
        1
    } else {
        6
    };
    ||| (tx == fx && ty == fy + dy && g.occ(tx, ty) is None)
    ||| (tx == fx && ty == fy + 2 * dy && fy == start && g.occ(fx, fy + dy) is None && g.occ(tx, ty)
        is None)
    ||| ((tx == fx + 1 || tx == fx - 1) && ty == fy + dy && g.occ(tx, ty) == Some(opposite(c)))
}

/// The pseudo-legal move relation: piece `p` standing on (fx, fy) may move to
/// (tx, ty) by its movement pattern and immediate blocking/capture rules,
/// without regard to check. The destination is on the board and is not held
/// by the mover's own color.
pub open spec fn basic_move(g: Game, p: Piece, fx: int, fy: int, tx: int, ty: int) -> bool
    recommends
        g.occ(fx, fy) is Some,
{
    &&& in_bounds(tx, ty)
    &&& g.occ(tx, ty) != g.occ(fx, fy)
    &&& match p {
        Piece::King => king_step(fx, fy, tx, ty),
        Piece::Knight => knight_step(fx, fy, tx, ty),
        Piece::Queen | Piece::Rook | Piece::Bishop => exists|dx: int, dy: int|
            #[trigger] piece_dir(p, dx, dy) && slide_to(g, fx, fy, dx, dy, tx, ty),
        Piece::Pawn => pawn_step(g, g.occ(fx, fy).unwrap(), fx, fy, tx, ty),
    }
}

/// The x offset of the n-th entry of the fixed candidate table of a king or
/// knight, in generation order.
pub open spec fn off_x(p: Piece, n: int) -> int {
    if p is King {
        if n == 0 || n == 3 || n == 5 {
            -1
        } else if n == 1 || n == 6 {
            0
        } else {
            1
        }
    } else {
        if n == 0 || n == 6 {
            -1
        } else if n == 1 || n == 7 {
            1
        } else if n == 2 || n == 4 {
            -2
        } else {
            2
        }
    }
}

/// The y offset of the n-th entry of the fixed candidate table of a king or
/// knight, in generation order.
pub open spec fn off_y(p: Piece, n: int) -> int {
    if p is King {
        if n == 0 || n == 1 || n == 2 {
            -1
        } else if n == 3 || n == 4 {
            0
        } else {
            1
        }
    } else {
        if n == 0 || n == 1 {
            -2
        } else if n == 2 || n == 3 {
            -1
        } else if n == 4 || n == 5 {
            1
        } else {
            2
        }
    }
}

/// `m` is the recorded destination of candidate `n` of a king or knight on
/// (fx, fy): on the board and not held by the mover's own color.
pub open spec fn offset_hit(g: Game, p: Piece, fx: int, fy: int, n: int, m: (usize, usize)) -> bool {
    let tx = fx + off_x(p, n);
    let ty = fy + off_y(p, n);
    &&& in_bounds(tx, ty)
    &&& g.occ(tx, ty) != g.occ(fx, fy)
    &&& m.0 == tx
    &&& m.1 == ty
}

/// Membership in a pushed sequence: the pushed element, or a prior member.
pub broadcast proof fn lemma_push_contains<A>(s: Seq<A>, e: A, m: A)
    ensures
        #[trigger] s.push(e).contains(m) <==> (s.contains(m) || m == e),
{
    if s.push(e).contains(m) {
        let i = choose|i: int| 0 <= i < s.push(e).len() && s.push(e)[i] == m;
        if i < s.len() {
            assert(s[i] == m);
        }
    }
    if s.contains(m) {
        let i = choose|i: int| 0 <= i < s.len() && s[i] == m;
        assert(s.push(e)[i] == m);
    }
    if m == e {
        assert(s.push(e)[s.len() as int] == m);
    }
}

/// Pushing an element that is not yet a member keeps a sequence free of
/// duplicates.
pub proof fn lemma_push_no_duplicates<A>(s: Seq<A>, e: A)
    requires
        s.no_duplicates(),
        !s.contains(e),
    ensures
        s.push(e).no_duplicates(),
{
    assert forall|i: int, j: int|
        0 <= i < s.push(e).len() && 0 <= j < s.push(e).len() && i != j implies s.push(e)[i]
        != s.push(e)[j] by {
        if i < s.len() && j < s.len() {
            assert(s.push(e)[i] == s[i]);
            assert(s.push(e)[j] == s[j]);
        } else if i < s.len() {
            assert(s.push(e)[j] == e);
            if s[i] == e {
                assert(s.contains(e));
            }
        } else {
            assert(s.push(e)[i] == e);
            if 0 <= j < s.len() && s[j] == e {
                assert(s.contains(e));
            }
        }
    }
}

/// Two different step counts along one ray reach two different squares.
proof fn lemma_ray_targets_distinct(fx: int, fy: int, dx: int, dy: int, j: int, k: int)
    requires
        -1 <= dx <= 1,
        -1 <= dy <= 1,
        !(dx == 0 && dy == 0),
        1 <= j < k,
    ensures
        tgt_x(fx, dx, j) != tgt_x(fx, dx, k) || tgt_y(fy, dy, j) != tgt_y(fy, dy, k),
{
}

/// Two rays in different directions from one origin reach disjoint squares:
/// no square is a sliding destination along both.
proof fn lemma_slide_dirs_exclusive(
    g: Game,
    fx: int,
    fy: int,
    d1x: int,
    d1y: int,
    d2x: int,
    d2y: int,
    tx: int,
    ty: int,
)
    requires
        -1 <= d1x <= 1,
        -1 <= d1y <= 1,
        -1 <= d2x <= 1,
        -1 <= d2y <= 1,
        !(d1x == 0 && d1y == 0),
        !(d2x == 0 && d2y == 0),
        !(d1x == d2x && d1y == d2y),
    ensures
        !(slide_to(g, fx, fy, d1x, d1y, tx, ty) && slide_to(g, fx, fy, d2x, d2y, tx, ty)),
{
    if slide_to(g, fx, fy, d1x, d1y, tx, ty) && slide_to(g, fx, fy, d2x, d2y, tx, ty) {
        let k1 = choose|k: int|
            1 <= k <= 7 && tx == tgt_x(fx, d1x, k) && ty == tgt_y(fy, d1y, k) && #[trigger] ray_clear(
                g,
                fx,
                fy,
                d1x,
                d1y,
                k,
            );
        let k2 = choose|k: int|
            1 <= k <= 7 && tx == tgt_x(fx, d2x, k) && ty == tgt_y(fy, d2y, k) && #[trigger] ray_clear(
                g,
                fx,
                fy,
                d2x,
                d2y,
                k,
            );
        assert(mul_dir(k1, d1x) == mul_dir(k2, d2x));
        assert(mul_dir(k1, d1y) == mul_dir(k2, d2y));
        assert(d1x == d2x);
        assert(d1y == d2y);
    }
}

/// True iff the two optional colors are the same value.
fn same_color_opt(a: Option<Color>, b: Option<Color>) -> (r: bool)
    ensures
        r == (a == b),
{
    match (a, b) {
        (None, None) => true,
        (Some(Color::Black), Some(Color::Black)) => true,
        (Some(Color::White), Some(Color::White)) => true,
        _ => false,
    }
}

/// Appends (tx, ty) to `moves` iff it is on the board and not held by the
/// color that holds (x, y).
fn push_if_dest_ok(moves: &mut Vec<(usize, usize)>, game: &Game, x: usize, y: usize, tx: i32, ty: i32)
    requires
        x < 8,
        y < 8,
        -3 <= tx <= 10,
        -3 <= ty <= 10,
    ensures
        final(moves)@ == (if in_bounds(tx as int, ty as int) && game.occ(tx as int, ty as int)
            != game.occ(x as int, y as int) {
            old(moves)@.push((tx as usize, ty as usize))
        } else {
            old(moves)@
        }),
{
    if 0 <= tx && tx < 8 && 0 <= ty && ty < 8 {
        let a: usize = tx as usize;
        let b: usize = ty as usize;
        if !same_color_opt(game.get_color_at(a, b), game.get_color_at(x, y)) {
            moves.push((a, b));
        }
    }
}

/// The ray walk's step record agrees with the sliding-move relation: the
/// squares hit at some step are exactly the sliding destinations that do not
/// hold the mover's own color.
proof fn lemma_ray_dir_iff(g: Game, fx: int, fy: int, dx: int, dy: int)
    requires
        in_bounds(fx, fy),
        -1 <= dx <= 1,
        -1 <= dy <= 1,
    ensures
        forall|m: (usize, usize)|
            (exists|k: int| 1 <= k <= 7 && #[trigger] ray_hit(g, fx, fy, dx, dy, k, m)) <==> (
            #[trigger] in_bounds(m.0 as int, m.1 as int) && g.occ(m.0 as int, m.1 as int) != g.occ(
                fx,
                fy,
            ) && slide_to(g, fx, fy, dx, dy, m.0 as int, m.1 as int)),
{
    assert forall|m: (usize, usize)|
        (exists|k: int| 1 <= k <= 7 && #[trigger] ray_hit(g, fx, fy, dx, dy, k, m)) <==> (in_bounds(
            m.0 as int,
            m.1 as int,
        ) && g.occ(m.0 as int, m.1 as int) != g.occ(fx, fy) && slide_to(
            g,
            fx,
            fy,
            dx,
            dy,
            m.0 as int,
            m.1 as int,
        )) by {
        if exists|k: int| 1 <= k <= 7 && #[trigger] ray_hit(g, fx, fy, dx, dy, k, m) {
            let k = choose|k: int| 1 <= k <= 7 && #[trigger] ray_hit(g, fx, fy, dx, dy, k, m);
            assert(slide_to(g, fx, fy, dx, dy, m.0 as int, m.1 as int));
        }
        if in_bounds(m.0 as int, m.1 as int) && g.occ(m.0 as int, m.1 as int) != g.occ(fx, fy)
            && slide_to(g, fx, fy, dx, dy, m.0 as int, m.1 as int) {
            let k = choose|k: int|
                1 <= k <= 7 && m.0 as int == tgt_x(fx, dx, k) && m.1 as int == tgt_y(fy, dy, k)
                    && #[trigger] ray_clear(g, fx, fy, dx, dy, k);
            assert(ray_hit(g, fx, fy, dx, dy, k, m));
        }
    }
}

/// The two halves of the membership invariant of the ray walk, advanced by
/// one step: if step `k` is a recordable square, it was pushed; either way,
/// the members are the initial ones plus the squares hit by steps up to `k`.
proof fn lemma_ray_inv_step(
    g: Game,
    fx: int,
    fy: int,
    dx: int,
    dy: int,
    k: int,
    moves0: Seq<(usize, usize)>,
    before: Seq<(usize, usize)>,
    after: Seq<(usize, usize)>,
)
    requires
        1 <= k,
        in_bounds(fx, fy),
        forall|m: (usize, usize)| #[trigger]
            before.contains(m) <==> (moves0.contains(m) || (exists|j: int|
                1 <= j <= k - 1 && #[trigger] ray_hit(g, fx, fy, dx, dy, j, m))),
        (if ray_ok(g, fx, fy, dx, dy, k) {
            after == before.push(
                ((tgt_x(fx, dx, k) as usize), (tgt_y(fy, dy, k) as usize)),
            )
        } else {
            after == before
        }),
    ensures
        forall|m: (usize, usize)| #[trigger]
            after.contains(m) <==> (moves0.contains(m) || (exists|j: int|
                1 <= j <= k && #[trigger] ray_hit(g, fx, fy, dx, dy, j, m))),
{
    broadcast use lemma_push_contains;

    let t = ((tgt_x(fx, dx, k) as usize), (tgt_y(fy, dy, k) as usize));
    assert forall|m: (usize, usize)| #[trigger]
        after.contains(m) <==> (moves0.contains(m) || (exists|j: int|
            1 <= j <= k && #[trigger] ray_hit(g, fx, fy, dx, dy, j, m))) by {
        if ray_ok(g, fx, fy, dx, dy, k) {
            assert(ray_hit(g, fx, fy, dx, dy, k, t));
            if after.contains(m) {
                if m == t {
                    assert(ray_hit(g, fx, fy, dx, dy, k, m));
                } else {
                    assert(before.contains(m));
                }
            }
            if moves0.contains(m) {
                assert(before.contains(m));
            }
            if exists|j: int| 1 <= j <= k && #[trigger] ray_hit(g, fx, fy, dx, dy, j, m) {
                let j = choose|j: int| 1 <= j <= k && #[trigger] ray_hit(g, fx, fy, dx, dy, j, m);
                if j == k {
                    assert(m == t);
                } else {
                    assert(before.contains(m));
                }
            }
        } else {
            if exists|j: int| 1 <= j <= k && #[trigger] ray_hit(g, fx, fy, dx, dy, j, m) {
                let j = choose|j: int| 1 <= j <= k && #[trigger] ray_hit(g, fx, fy, dx, dy, j, m);
                assert(j <= k - 1);
            }
        }
    }
}

/// The square recorded at step `k` of the ray walk was not recorded before:
/// not by an earlier step (different squares) and not by the caller (whose
/// members are no sliding destinations of this ray).
proof fn lemma_ray_no_dup_step(
    g: Game,
    fx: int,
    fy: int,
    dx: int,
    dy: int,
    k: int,
    moves0: Seq<(usize, usize)>,
    before: Seq<(usize, usize)>,
    t: (usize, usize),
)
    requires
        -1 <= dx <= 1,
        -1 <= dy <= 1,
        !(dx == 0 && dy == 0),
        1 <= k <= 7,
        ray_ok(g, fx, fy, dx, dy, k),
        t.0 == tgt_x(fx, dx, k),
        t.1 == tgt_y(fy, dy, k),
        forall|m: (usize, usize)| #[trigger]
            moves0.contains(m) ==> !slide_record(g, fx, fy, dx, dy, m),
        forall|m: (usize, usize)| #[trigger]
            before.contains(m) <==> (moves0.contains(m) || (exists|j: int|
                1 <= j <= k - 1 && #[trigger] ray_hit(g, fx, fy, dx, dy, j, m))),
    ensures
        !before.contains(t),
{
    if before.contains(t) {
        if moves0.contains(t) {
            assert(slide_to(g, fx, fy, dx, dy, t.0 as int, t.1 as int));
            assert(slide_record(g, fx, fy, dx, dy, t));
        } else {
            let j = choose|j: int| 1 <= j <= k - 1 && #[trigger] ray_hit(g, fx, fy, dx, dy, j, t);
            lemma_ray_targets_distinct(fx, fy, dx, dy, j, k);
        }
    }
}

/// The ray walk may stop at the board edge: once a step leaves the board,
/// every later step along the same direction is off the board too.
proof fn lemma_off_board_stays_off(fx: int, fy: int, dx: int, dy: int, k: int, j: int)
    requires
        0 <= fx < 8,
        0 <= fy < 8,
        -1 <= dx <= 1,
        -1 <= dy <= 1,
        !in_bounds(tgt_x(fx, dx, k), tgt_y(fy, dy, k)),
        k <= j,
        1 <= k,
    ensures
        !in_bounds(tgt_x(fx, dx, j), tgt_y(fy, dy, j)),
{
}

impl Piece {
    /// Returns the pseudo-legal destinations for this piece from (x, y):
    /// exactly the squares `m` with `basic_move(game, piece, (x, y), m)`.
    /// Does not control for check.
    pub fn get_basic_moves(&self, x: usize, y: usize, game: &Game) -> (r: Vec<(usize, usize)>)
        requires
            x < 8,
            y < 8,
            game.occ(x as int, y as int) is Some,
        ensures
            r@.no_duplicates(),
            forall|m: (usize, usize)| #[trigger]
                r@.contains(m) <==> basic_move(*game, *self, x as int, y as int, m.0 as int, m.1 as int),
    {
        match self {
            Piece::King => offset_moves(self, x, y, game),
            Piece::Knight => offset_moves(self, x, y, game),
            Piece::Queen => queen_moves(x, y, game),
            Piece::Rook => rook_moves(x, y, game),
            Piece::Bishop => bishop_moves(x, y, game),
            Piece::Pawn => pawn_moves(x, y, game),
        }
    }

    /// Appends to `moves` the destinations reachable by sliding from (x, y)
    /// along the unit direction (dx, dy): each step onto an empty square, and
    /// a final capturing step onto the first opposing piece met, stopping at
    /// the board edge or before a friendly piece.
    pub fn get_moves_in_line(
        &self,
        x: usize,
        y: usize,
        dx: i32,
        dy: i32,
        game: &Game,
        moves: &mut Vec<(usize, usize)>,
    )
        requires
            x < 8,
            y < 8,
            -1 <= dx <= 1,
            -1 <= dy <= 1,
            !(dx == 0 && dy == 0),
            game.occ(x as int, y as int) is Some,
            old(moves)@.no_duplicates(),
            forall|m: (usize, usize)| #[trigger]
                old(moves)@.contains(m) ==> !slide_record(
                    *game,
                    x as int,
                    y as int,
                    dx as int,
                    dy as int,
                    m,
                ),
        ensures
            final(moves)@.no_duplicates(),
            forall|m: (usize, usize)| #[trigger]
                final(moves)@.contains(m) <==> (old(moves)@.contains(m) || slide_record(
                    *game,
                    x as int,
                    y as int,
                    dx as int,
                    dy as int,
                    m,
                )),
    {
        let ghost g = *game;
        let ghost fx = x as int;
        let ghost fy = y as int;
        let ghost dxi = dx as int;
        let ghost dyi = dy as int;
        let ghost moves0 = moves@;
        let mut cx: i32 = x as i32;
        let mut cy: i32 = y as i32;
        let mut k: usize = 0;
        let mut blocked: bool = false;
        while k < 7 && !blocked
            invariant
                x < 8,
                y < 8,
                -1 <= dx <= 1,
                -1 <= dy <= 1,
                !(dx == 0 && dy == 0),
                g == *game,
                g.occ(fx, fy) is Some,
                fx == x as int,
                fy == y as int,
                dxi == dx as int,
                dyi == dy as int,
                0 <= k <= 7,
                cx as int == tgt_x(fx, dxi, k as int),
                cy as int == tgt_y(fy, dyi, k as int),
                moves0.no_duplicates(),
                forall|m: (usize, usize)| #[trigger]
                    moves0.contains(m) ==> !slide_record(g, fx, fy, dxi, dyi, m),
                moves@.no_duplicates(),
                forall|m: (usize, usize)| #[trigger]
                    moves@.contains(m) <==> (moves0.contains(m) || (exists|j: int|
                        1 <= j <= k && #[trigger] ray_hit(g, fx, fy, dxi, dyi, j, m))),
                !blocked ==> forall|j: int|
                    1 <= j <= k ==> in_bounds(tgt_x(fx, dxi, j), tgt_y(fy, dyi, j)) && (
                    #[trigger] g.occ(tgt_x(fx, dxi, j), tgt_y(fy, dyi, j))) is None,
                blocked ==> forall|j: int|
                    k < j <= 7 ==> !#[trigger] ray_ok(g, fx, fy, dxi, dyi, j),
            decreases 8 - k,
        {
            let ghost before = moves@;
            cx = cx + dx;
            cy = cy + dy;
            k = k + 1;
            proof {
                assert(cx as int == tgt_x(fx, dxi, k as int));
                assert(cy as int == tgt_y(fy, dyi, k as int));
                assert(ray_clear(g, fx, fy, dxi, dyi, k as int));
            }
            if cx < 0 || cx > 7 || cy < 0 || cy > 7 {
                blocked = true;
                proof {
                    assert(!ray_ok(g, fx, fy, dxi, dyi, k as int));
                    lemma_ray_inv_step(g, fx, fy, dxi, dyi, k as int, moves0, before, moves@);
                    assert forall|j: int| k < j <= 7 implies !ray_ok(g, fx, fy, dxi, dyi, j) by {
                        lemma_off_board_stays_off(fx, fy, dxi, dyi, k as int, j);
                    }
                }
            } else {
                let a: usize = cx as usize;
                let b: usize = cy as usize;
                proof {
                    assert(a as int == tgt_x(fx, dxi, k as int));
                    assert(b as int == tgt_y(fy, dyi, k as int));
                }
                match game.get_color_at(a, b) {
                    Some(color) => {
                        let own = game.get_color_at(x, y);
                        if !same_color_opt(Some(color), own) {
                            moves.push((a, b));
                            proof {
                                assert(ray_ok(g, fx, fy, dxi, dyi, k as int));
                                lemma_ray_no_dup_step(g, fx, fy, dxi, dyi, k as int, moves0, before, (a, b));
                                lemma_push_no_duplicates(before, (a, b));
                                lemma_ray_inv_step(
                                    g,
                                    fx,
                                    fy,
                                    dxi,
                                    dyi,
                                    k as int,
                                    moves0,
                                    before,
                                    moves@,
                                );
                            }
                        } else {
                            proof {
                                assert(!ray_ok(g, fx, fy, dxi, dyi, k as int));
                                lemma_ray_inv_step(
                                    g,
                                    fx,
                                    fy,
                                    dxi,
                                    dyi,
                                    k as int,
                                    moves0,
                                    before,
                                    moves@,
                                );
                            }
                        }
                        blocked = true;
                        proof {
                            assert forall|j: int| k < j <= 7 implies !ray_ok(
                                g,
                                fx,
                                fy,
                                dxi,
                                dyi,
                                j,
                            ) by {
                                assert(g.occ(tgt_x(fx, dxi, k as int), tgt_y(fy, dyi, k as int))
                                    is Some);
                                assert(!ray_clear(g, fx, fy, dxi, dyi, j));
                            }
                        }
                    },
                    None => {
                        moves.push((a, b));
                        proof {
                            assert(ray_ok(g, fx, fy, dxi, dyi, k as int));
                            lemma_ray_no_dup_step(g, fx, fy, dxi, dyi, k as int, moves0, before, (a, b));
                            lemma_push_no_duplicates(before, (a, b));
                            lemma_ray_inv_step(
                                g,
                                fx,
                                fy,
                                dxi,
                                dyi,
                                k as int,
                                moves0,
                                before,
                                moves@,
                            );
                        }
                    },
                }
            }
        }
        proof {
            if blocked {
                assert forall|m: (usize, usize)| #[trigger]
                    moves@.contains(m) <==> (moves0.contains(m) || (exists|j: int|
                        1 <= j <= 7 && #[trigger] ray_hit(g, fx, fy, dxi, dyi, j, m))) by {
                    if exists|j: int| 1 <= j <= 7 && #[trigger] ray_hit(g, fx, fy, dxi, dyi, j, m) {
                        let j = choose|j: int|
                            1 <= j <= 7 && #[trigger] ray_hit(g, fx, fy, dxi, dyi, j, m);
                        assert(j <= k);
                    }
                }
            }
            lemma_ray_dir_iff(g, fx, fy, dxi, dyi);
        }
    }
}

/// The membership invariant of the offset walk, advanced by one candidate:
/// the members are the squares recorded for candidates before `n`, plus
/// candidate `n`'s square if it is recordable.
proof fn lemma_offset_inv_step(
    g: Game,
    p: Piece,
    fx: int,
    fy: int,
    n: int,
    before: Seq<(usize, usize)>,
    after: Seq<(usize, usize)>,
)
    requires
        0 <= n < 8,
        p is King || p is Knight,
        in_bounds(fx, fy),
        before.no_duplicates(),
        forall|m: (usize, usize)| #[trigger]
            before.contains(m) <==> (exists|j: int| 0 <= j < n && #[trigger] offset_hit(g, p, fx, fy, j, m)),
        (if in_bounds(fx + off_x(p, n), fy + off_y(p, n)) && g.occ(fx + off_x(p, n), fy + off_y(p, n))
            != g.occ(fx, fy) {
            after == before.push(
                (((fx + off_x(p, n)) as usize), ((fy + off_y(p, n)) as usize)),
            )
        } else {
            after == before
        }),
    ensures
        after.no_duplicates(),
        forall|m: (usize, usize)| #[trigger]
            after.contains(m) <==> (exists|j: int|
                0 <= j < n + 1 && #[trigger] offset_hit(g, p, fx, fy, j, m)),
{
    broadcast use lemma_push_contains;

    let tx = fx + off_x(p, n);
    let ty = fy + off_y(p, n);
    let t = ((tx as usize), (ty as usize));
    if in_bounds(tx, ty) && g.occ(tx, ty) != g.occ(fx, fy) {
        if before.contains(t) {
            let j = choose|j: int| 0 <= j < n && #[trigger] offset_hit(g, p, fx, fy, j, t);
            assert(fx + off_x(p, j) == tx && fy + off_y(p, j) == ty);
            assert(false);
        }
        lemma_push_no_duplicates(before, t);
    }
    assert forall|m: (usize, usize)| #[trigger]
        after.contains(m) <==> (exists|j: int|
            0 <= j < n + 1 && #[trigger] offset_hit(g, p, fx, fy, j, m)) by {
        if in_bounds(tx, ty) && g.occ(tx, ty) != g.occ(fx, fy) {
            assert(offset_hit(g, p, fx, fy, n, t));
            if after.contains(m) && m != t {
                assert(before.contains(m));
            }
            if exists|j: int| 0 <= j < n + 1 && #[trigger] offset_hit(g, p, fx, fy, j, m) {
                let j = choose|j: int| 0 <= j < n + 1 && #[trigger] offset_hit(g, p, fx, fy, j, m);
                if j == n {
                    assert(m == t);
                } else {
                    assert(before.contains(m));
                }
            }
        } else {
            if exists|j: int| 0 <= j < n + 1 && #[trigger] offset_hit(g, p, fx, fy, j, m) {
                let j = choose|j: int| 0 <= j < n + 1 && #[trigger] offset_hit(g, p, fx, fy, j, m);
                assert(j < n);
            }
        }
    }
}

/// The pseudo-legal moves of a king or knight from (x, y): the fixed offset
/// table filtered to on-board squares not held by the mover's own color.
fn offset_moves(piece: &Piece, x: usize, y: usize, game: &Game) -> (r: Vec<(usize, usize)>)
    requires
        x < 8,
        y < 8,
        game.occ(x as int, y as int) is Some,
        *piece is King || *piece is Knight,
    ensures
        r@.no_duplicates(),
        forall|m: (usize, usize)| #[trigger]
            r@.contains(m) <==> basic_move(*game, *piece, x as int, y as int, m.0 as int, m.1 as int),
{
    let ghost g = *game;
    let ghost fx = x as int;
    let ghost fy = y as int;
    let xi: i32 = x as i32;
    let yi: i32 = y as i32;
    let mut moves: Vec<(usize, usize)> = Vec::new();
    let mut n: usize = 0;
    while n < 8
        invariant
            x < 8,
            y < 8,
            g == *game,
            fx == x as int,
            fy == y as int,
            xi == x as i32,
            yi == y as i32,
            g.occ(fx, fy) is Some,
            *piece is King || *piece is Knight,
            0 <= n <= 8,
            moves@.no_duplicates(),
            forall|m: (usize, usize)| #[trigger]
                moves@.contains(m) <==> (exists|j: int|
                    0 <= j < n && #[trigger] offset_hit(g, *piece, fx, fy, j, m)),
        decreases 8 - n,
    {
        let ghost before = moves@;
        let king: bool = match piece {
            Piece::King => true,
            _ => false,
        };
        let ox: i32;
        let oy: i32;
        if king {
            let o: (i32, i32) = match n {
                0 => (-1, -1),
                1 => (0, -1),
                2 => (1, -1),
                3 => (-1, 0),
                4 => (1, 0),
                5 => (-1, 1),
                6 => (0, 1),
                _ => (1, 1),
            };
            ox = o.0;
            oy = o.1;
        } else {
            let o: (i32, i32) = match n {
                0 => (-1, -2),
                1 => (1, -2),
                2 => (-2, -1),
                3 => (2, -1),
                4 => (-2, 1),
                5 => (2, 1),
                6 => (-1, 2),
                _ => (1, 2),
            };
            ox = o.0;
            oy = o.1;
        }
        proof {
            assert(ox as int == off_x(*piece, n as int));
            assert(oy as int == off_y(*piece, n as int));
        }
        push_if_dest_ok(&mut moves, game, x, y, xi + ox, yi + oy);
        proof {
            if in_bounds(fx + off_x(*piece, n as int), fy + off_y(*piece, n as int)) {
                assert((xi + ox) as usize == (fx + off_x(*piece, n as int)) as usize);
                assert((yi + oy) as usize == (fy + off_y(*piece, n as int)) as usize);
            }
            lemma_offset_inv_step(g, *piece, fx, fy, n as int, before, moves@);
        }
        n = n + 1;
    }
    proof {
        assert forall|m: (usize, usize)| #[trigger]
            moves@.contains(m) <==> basic_move(g, *piece, fx, fy, m.0 as int, m.1 as int) by {
            if basic_move(g, *piece, fx, fy, m.0 as int, m.1 as int) {
                assert(offset_hit(g, *piece, fx, fy, 0, m) || offset_hit(g, *piece, fx, fy, 1, m)
                    || offset_hit(g, *piece, fx, fy, 2, m) || offset_hit(g, *piece, fx, fy, 3, m)
                    || offset_hit(g, *piece, fx, fy, 4, m) || offset_hit(g, *piece, fx, fy, 5, m)
                    || offset_hit(g, *piece, fx, fy, 6, m) || offset_hit(g, *piece, fx, fy, 7, m));
            }
            if exists|j: int| 0 <= j < 8 && #[trigger] offset_hit(g, *piece, fx, fy, j, m) {
                let j = choose|j: int| 0 <= j < 8 && #[trigger] offset_hit(g, *piece, fx, fy, j, m);
                assert(basic_move(g, *piece, fx, fy, m.0 as int, m.1 as int));
            }
        }
    }
    moves
}

/// The pseudo-legal queen moves from (x, y).
fn queen_moves(x: usize, y: usize, game: &Game) -> (r: Vec<(usize, usize)>)
    requires
        x < 8,
        y < 8,
        game.occ(x as int, y as int) is Some,
    ensures
        r@.no_duplicates(),
        forall|m: (usize, usize)| #[trigger]
            r@.contains(m) <==> basic_move(
                *game,
                Piece::Queen,
                x as int,
                y as int,
                m.0 as int,
                m.1 as int,
            ),
{
    let ghost g = *game;
    let ghost fx = x as int;
    let ghost fy = y as int;
    let piece = Piece::Queen;
    let mut moves: Vec<(usize, usize)> = Vec::new();
    piece.get_moves_in_line(x, y, 0, 1, game, &mut moves);
    piece.get_moves_in_line(x, y, 0, -1, game, &mut moves);
    piece.get_moves_in_line(x, y, 1, 0, game, &mut moves);
    piece.get_moves_in_line(x, y, -1, 0, game, &mut moves);
    piece.get_moves_in_line(x, y, 1, 1, game, &mut moves);
    piece.get_moves_in_line(x, y, 1, -1, game, &mut moves);
    piece.get_moves_in_line(x, y, -1, 1, game, &mut moves);
    piece.get_moves_in_line(x, y, -1, -1, game, &mut moves);
    proof {
        assert(piece_dir(Piece::Queen, 0, 1));
        assert(piece_dir(Piece::Queen, 0, -1));
        assert(piece_dir(Piece::Queen, 1, 0));
        assert(piece_dir(Piece::Queen, -1, 0));
        assert(piece_dir(Piece::Queen, 1, 1));
        assert(piece_dir(Piece::Queen, 1, -1));
        assert(piece_dir(Piece::Queen, -1, 1));
        assert(piece_dir(Piece::Queen, -1, -1));
        assert forall|m: (usize, usize)| #[trigger]
            moves@.contains(m) <==> basic_move(g, Piece::Queen, fx, fy, m.0 as int, m.1 as int) by {
            if basic_move(g, Piece::Queen, fx, fy, m.0 as int, m.1 as int) {
                let (dx, dy) = choose|dx: int, dy: int|
                    #[trigger] piece_dir(Piece::Queen, dx, dy) && slide_to(
                        g,
                        fx,
                        fy,
                        dx,
                        dy,
                        m.0 as int,
                        m.1 as int,
                    );
                assert((dx == 0 && dy == 1) || (dx == 0 && dy == -1) || (dx == 1 && dy == 0) || (dx
                    == -1 && dy == 0) || (dx == 1 && dy == 1) || (dx == 1 && dy == -1) || (dx == -1
                    && dy == 1) || (dx == -1 && dy == -1));
            }
        }
    }
    moves
}

/// The pseudo-legal rook moves from (x, y).
fn rook_moves(x: usize, y: usize, game: &Game) -> (r: Vec<(usize, usize)>)
    requires
        x < 8,
        y < 8,
        game.occ(x as int, y as int) is Some,
    ensures
        r@.no_duplicates(),
        forall|m: (usize, usize)| #[trigger]
            r@.contains(m) <==> basic_move(*game, Piece::Rook, x as int, y as int, m.0 as int, m.1 as int),
{
    let ghost g = *game;
    let ghost fx = x as int;
    let ghost fy = y as int;
    let piece = Piece::Rook;
    let mut moves: Vec<(usize, usize)> = Vec::new();
    piece.get_moves_in_line(x, y, 0, 1, game, &mut moves);
    piece.get_moves_in_line(x, y, 0, -1, game, &mut moves);
    piece.get_moves_in_line(x, y, 1, 0, game, &mut moves);
    piece.get_moves_in_line(x, y, -1, 0, game, &mut moves);
    proof {
        assert(piece_dir(Piece::Rook, 0, 1));
        assert(piece_dir(Piece::Rook, 0, -1));
        assert(piece_dir(Piece::Rook, 1, 0));
        assert(piece_dir(Piece::Rook, -1, 0));
        assert forall|m: (usize, usize)| #[trigger]
            moves@.contains(m) <==> basic_move(g, Piece::Rook, fx, fy, m.0 as int, m.1 as int) by {
            if basic_move(g, Piece::Rook, fx, fy, m.0 as int, m.1 as int) {
                let (dx, dy) = choose|dx: int, dy: int|
                    #[trigger] piece_dir(Piece::Rook, dx, dy) && slide_to(
                        g,
                        fx,
                        fy,
                        dx,
                        dy,
                        m.0 as int,
                        m.1 as int,
                    );
                assert((dx == 0 && dy == 1) || (dx == 0 && dy == -1) || (dx == 1 && dy == 0) || (dx
                    == -1 && dy == 0));
            }
        }
    }
    moves
}

/// The pseudo-legal bishop moves from (x, y).
fn bishop_moves(x: usize, y: usize, game: &Game) -> (r: Vec<(usize, usize)>)
    requires
        x < 8,
        y < 8,
        game.occ(x as int, y as int) is Some,
    ensures
        r@.no_duplicates(),
        forall|m: (usize, usize)| #[trigger]
            r@.contains(m) <==> basic_move(
                *game,
                Piece::Bishop,
                x as int,
                y as int,
                m.0 as int,
                m.1 as int,
            ),
{
    let ghost g = *game;
    let ghost fx = x as int;
    let ghost fy = y as int;
    let piece = Piece::Bishop;
    let mut moves: Vec<(usize, usize)> = Vec::new();
    piece.get_moves_in_line(x, y, 1, 1, game, &mut moves);
    piece.get_moves_in_line(x, y, 1, -1, game, &mut moves);
    piece.get_moves_in_line(x, y, -1, 1, game, &mut moves);
    piece.get_moves_in_line(x, y, -1, -1, game, &mut moves);
    proof {
        assert(piece_dir(Piece::Bishop, 1, 1));
        assert(piece_dir(Piece::Bishop, 1, -1));
        assert(piece_dir(Piece::Bishop, -1, 1));
        assert(piece_dir(Piece::Bishop, -1, -1));
        assert forall|m: (usize, usize)| #[trigger]
            moves@.contains(m) <==> basic_move(g, Piece::Bishop, fx, fy, m.0 as int, m.1 as int) by {
            if basic_move(g, Piece::Bishop, fx, fy, m.0 as int, m.1 as int) {
                let (dx, dy) = choose|dx: int, dy: int|
                    #[trigger] piece_dir(Piece::Bishop, dx, dy) && slide_to(
                        g,
                        fx,
                        fy,
                        dx,
                        dy,
                        m.0 as int,
                        m.1 as int,
                    );
                assert((dx == 1 && dy == 1) || (dx == 1 && dy == -1) || (dx == -1 && dy == 1) || (dx
                    == -1 && dy == -1));
            }
        }
    }
    moves
}

/// The pseudo-legal pawn moves from (x, y), for the pawn of the color that
/// occupies (x, y).
fn pawn_moves(x: usize, y: usize, game: &Game) -> (r: Vec<(usize, usize)>)
    requires
        x < 8,
        y < 8,
        game.occ(x as int, y as int) is Some,
    ensures
        r@.no_duplicates(),
        forall|m: (usize, usize)| #[trigger]
            r@.contains(m) <==> basic_move(*game, Piece::Pawn, x as int, y as int, m.0 as int, m.1 as int),
{
    broadcast use lemma_push_contains;

    let mut moves: Vec<(usize, usize)> = Vec::new();
    let own = game.get_color_at(x, y);
    match own {
        Some(Color::Black) => {
            if y < 7 {
                if game.get_color_at(x, y + 1).is_none() {
                    moves.push((x, y + 1));
                }
                if x < 7 {
                    if same_color_opt(game.get_color_at(x + 1, y + 1), Some(Color::White)) {
                        moves.push((x + 1, y + 1));
                    }
                }
                if x > 0 {
                    if same_color_opt(game.get_color_at(x - 1, y + 1), Some(Color::White)) {
                        moves.push((x - 1, y + 1));
                    }
                }
                if y == 1 && game.get_color_at(x, y + 1).is_none() && game.get_color_at(
                    x,
                    y + 2,
                ).is_none() {
                    moves.push((x, y + 2));
                }
            }
        },
        Some(Color::White) => {
            if y > 0 {
                if game.get_color_at(x, y - 1).is_none() {
                    moves.push((x, y - 1));
                }
                if x < 7 {
                    if same_color_opt(game.get_color_at(x + 1, y - 1), Some(Color::Black)) {
                        moves.push((x + 1, y - 1));
                    }
                }
                if x > 0 {
                    if same_color_opt(game.get_color_at(x - 1, y - 1), Some(Color::Black)) {
                        moves.push((x - 1, y - 1));
                    }
                }
                if y == 6 && game.get_color_at(x, y - 1).is_none() && game.get_color_at(
                    x,
                    y - 2,
                ).is_none() {
                    moves.push((x, y - 2));
                }
            }
        },
        None => {
            proof {
                assert(false);
            }
        },
    }
    moves
}

} // verus!
