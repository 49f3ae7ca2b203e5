//! The board and the rules for placing a piece on it.
//!
//! Squares are addressed by (row, column), both in `0..8`. The cells are kept
//! row by row in one vector of 64 entries; the model of a board is that
//! sequence.

use vstd::prelude::*;
use crate::piece::{Piece, Player};

verus! {

/// Why a placement was refused. The board is left as it was in every case.
#[derive(Clone, Copy, Debug, PartialEq, Eq, Structural)]
pub enum PlacementError {
    /// The row or the column lies outside `0..8`.
    OutOfBounds,
    /// The target square already holds a piece.
    OccupiedCell,
    /// None of the squares around the target holds an opponent's piece.
    NoAdjacentOpponent,
    /// No direction from the target forms a capturing line.
    NoCapture,
}

pub open spec fn in_bounds(r: int, c: int) -> bool {
    0 <= r < 8 && 0 <= c < 8
}

/// The square at (r, c) of a board laid out row by row.
pub open spec fn cell(s: Seq<Piece>, r: int, c: int) -> Piece {
    s[r * 8 + c]
}

pub open spec fn abs(x: int) -> int {
    if x < 0 { -x } else { x }
}

pub open spec fn sgn(x: int) -> int {
    if x > 0 { 1 } else if x < 0 { -1 } else { 0 }
}

/// `k * d` for a direction component `d` in {-1, 0, 1}.
pub open spec fn scaled(k: int, d: int) -> int {
    if d > 0 { k } else if d < 0 { -k } else { 0 }
}

/// Row step of direction `d` (0..8): down, down-right, right, up-right, up,
/// up-left, left, down-left.
pub open spec fn dir_r(d: int) -> int {
    if d == 0 || d == 1 || d == 7 { 1 } else if d == 3 || d == 4 || d == 5 { -1 } else { 0 }
}

/// Column step of direction `d` (0..8).
pub open spec fn dir_c(d: int) -> int {
    if d == 1 || d == 2 || d == 3 { 1 } else if d == 5 || d == 6 || d == 7 { -1 } else { 0 }
}

pub open spec fn is_direction(dr: int, dc: int) -> bool {
    -1 <= dr <= 1 && -1 <= dc <= 1 && (dr != 0 || dc != 0)
}

/// A piece of the other colour than `p`.
pub open spec fn is_opponent(x: Piece, p: Piece) -> bool {
    x != Piece::Blank && x != p
}

/// Walk from (r, c) one step at a time along (dr, dc): the number of opponent
/// pieces passed before the first piece of `p`, or -1 when the walk leaves the
/// board or meets an empty square first.
pub open spec fn walk(s: Seq<Piece>, r: int, c: int, dr: int, dc: int, p: Piece, fuel: nat) -> int
    decreases fuel,
{
    if fuel == 0 || !in_bounds(r, c) || cell(s, r, c) == Piece::Blank {
        -1
    } else if cell(s, r, c) == p {
        0
    } else {
        let w = walk(s, r + dr, c + dc, dr, dc, p, (fuel - 1) as nat);
        if w < 0 { -1 } else { w + 1 }
    }
}

/// How many pieces a piece `p` at (r, c) captures in direction (dr, dc): the
/// length of the run of opponent pieces closed by a piece of `p`, else 0.
pub open spec fn captured(s: Seq<Piece>, r: int, c: int, dr: int, dc: int, p: Piece) -> int {
    let w = walk(s, r + dr, c + dc, dr, dc, p, 8);
    if w > 0 { w } else { 0 }
}

/// The pieces captured in directions `d..8`.
pub open spec fn captured_from(s: Seq<Piece>, r: int, c: int, p: Piece, d: int) -> int
    decreases 8 - d,
{
    if d >= 8 {
        0
    } else {
        captured(s, r, c, dir_r(d), dir_c(d), p) + captured_from(s, r, c, p, d + 1)
    }
}

/// All the pieces a piece `p` at (r, c) captures.
pub open spec fn total_captured(s: Seq<Piece>, r: int, c: int, p: Piece) -> int {
    captured_from(s, r, c, p, 0)
}

/// Some square next to (r, c) holds an opponent of `p`.
pub open spec fn adjacent_opponent(s: Seq<Piece>, r: int, c: int, p: Piece) -> bool {
    exists|i: int, j: int|
        #![trigger cell(s, i, j)]
        in_bounds(i, j) && abs(i - r) <= 1 && abs(j - c) <= 1 && !(i == r && j == c)
            && is_opponent(cell(s, i, j), p)
}

/// (i, j) lies on a capturing line of a piece `p` placed at (r, c).
pub open spec fn flips(s: Seq<Piece>, r: int, c: int, p: Piece, i: int, j: int) -> bool {
    let di = i - r;
    let dj = j - c;
    let k = if abs(di) >= abs(dj) { abs(di) } else { abs(dj) };
    &&& (di != 0 || dj != 0)
    &&& (di == 0 || dj == 0 || abs(di) == abs(dj))
    &&& k <= captured(s, r, c, sgn(di), sgn(dj), p)
}

/// The board after `p` is placed at (r, c): the target and every captured
/// square hold `p`, the rest is as before.
pub open spec fn after_place(s: Seq<Piece>, r: int, c: int, p: Piece) -> Seq<Piece> {
    Seq::new(
        64,
        |k: int|
            if (k / 8 == r && k % 8 == c) || flips(s, r, c, p, k / 8, k % 8) {
                p
            } else {
                s[k]
            },
    )
}

/// What placing `p` at (r, c) answers.
pub open spec fn place_outcome(s: Seq<Piece>, r: int, c: int, p: Piece) -> Result<(), PlacementError> {
    if !in_bounds(r, c) {
        Err(PlacementError::OutOfBounds)
    } else if cell(s, r, c) != Piece::Blank {
        Err(PlacementError::OccupiedCell)
    } else if !adjacent_opponent(s, r, c, p) {
        Err(PlacementError::NoAdjacentOpponent)
    } else if total_captured(s, r, c, p) == 0 {
        Err(PlacementError::NoCapture)
    } else {
        Ok(())
    }
}

/// The number of squares of `s` that hold `p`.
pub open spec fn count_of(s: Seq<Piece>, p: Piece) -> nat
    decreases s.len(),
{
    if s.len() == 0 {
        0
    } else {
        count_of(s.drop_last(), p) + if s.last() == p { 1nat } else { 0nat }
    }
}

/// The number of occupied squares.
pub open spec fn occupied(s: Seq<Piece>) -> int {
    s.len() - count_of(s, Piece::Blank)
}

/// The standard opening position.
pub open spec fn initial_cells() -> Seq<Piece> {
    Seq::new(
        64,
        |k: int|
            if k == 3 * 8 + 3 || k == 4 * 8 + 4 {
                Piece::Black
            } else if k == 3 * 8 + 4 || k == 4 * 8 + 3 {
                Piece::White
            } else {
                Piece::Blank
            },
    )
}

/// Index of the direction (a, b) in the order of `dir_r` and `dir_c`.
pub open spec fn dir_index(a: int, b: int) -> int {
    if a == 1 && b == 0 {
        0
    } else if a == 1 && b == 1 {
        1
    } else if a == 0 && b == 1 {
        2
    } else if a == -1 && b == 1 {
        3
    } else if a == -1 && b == 0 {
        4
    } else if a == -1 && b == -1 {
        5
    } else if a == 0 && b == -1 {
        6
    } else {
        7
    }
}

/// (di, dj) is a non-zero offset along one of the eight directions.
pub open spec fn on_ray(di: int, dj: int) -> bool {
    (di != 0 || dj != 0) && (di == 0 || dj == 0 || abs(di) == abs(dj))
}

/// The number of steps of an offset along a direction.
pub open spec fn steps(di: int, dj: int) -> int {
    if abs(di) >= abs(dj) { abs(di) } else { abs(dj) }
}

/// (i, j) is among the squares turned so far: whole lines of the directions
/// before `d`, and the first `k` squares of direction `d`, where `caps` holds
/// each line's length.
spec fn turned_so_far(caps: Seq<usize>, r: int, c: int, i: int, j: int, d: int, k: int) -> bool {
    let di = i - r;
    let dj = j - c;
    let e = dir_index(sgn(di), sgn(dj));
    let st = steps(di, dj);
    on_ray(di, dj) && ((e < d && st <= caps[e]) || (e == d && st <= k))
}

/// The squares a walk passes before it reaches a piece of `p` are on the
/// board and hold opponents of `p`.
proof fn lemma_walk_run(s: Seq<Piece>, r: int, c: int, dr: int, dc: int, p: Piece, fuel: nat, k: int)
    requires
        is_direction(dr, dc),
        0 <= k < walk(s, r, c, dr, dc, p, fuel),
    ensures
        in_bounds(r + scaled(k, dr), c + scaled(k, dc)),
        is_opponent(cell(s, r + scaled(k, dr), c + scaled(k, dc)), p),
    decreases fuel,
{
    if k > 0 {
        lemma_walk_run(s, r + dr, c + dc, dr, dc, p, (fuel - 1) as nat, k - 1);
        assert(r + dr + scaled(k - 1, dr) == r + scaled(k, dr));
        assert(c + dc + scaled(k - 1, dc) == c + scaled(k, dc));
    }
}

/// The squares of a capturing line are on the board and hold opponents.
proof fn lemma_captured_run(s: Seq<Piece>, r: int, c: int, dr: int, dc: int, p: Piece, k: int)
    requires
        is_direction(dr, dc),
        1 <= k <= captured(s, r, c, dr, dc, p),
    ensures
        in_bounds(r + scaled(k, dr), c + scaled(k, dc)),
        is_opponent(cell(s, r + scaled(k, dr), c + scaled(k, dc)), p),
{
    lemma_walk_run(s, r + dr, c + dc, dr, dc, p, 8, k - 1);
    assert(r + dr + scaled(k - 1, dr) == r + scaled(k, dr));
    assert(c + dc + scaled(k - 1, dc) == c + scaled(k, dc));
}

/// An 8x8 Othello board.
pub struct Board {
    spaces: Vec<Piece>,
}

impl View for Board {
    type V = Seq<Piece>;

    closed spec fn view(&self) -> Seq<Piece> {
        self.spaces@
    }
}

impl Board {
    pub open spec fn wf(&self) -> bool {
        self@.len() == 64
    }

    /// A board in the standard opening position: Black at (3, 3) and (4, 4),
    /// White at (3, 4) and (4, 3), every other square empty.
    pub fn new() -> (b: Board)
        ensures
            b.wf(),
            b@ == initial_cells(),
    {
        let mut spaces: Vec<Piece> = Vec::new();
        let mut k: usize = 0;
        while k < 64
            invariant
                k <= 64,
                spaces@.len() == k,
                forall|m: int| 0 <= m < k ==> spaces@[m] == Piece::Blank,
            decreases 64 - k,
        {
            spaces.push(Piece::Blank);
            k = k + 1;
        }
        spaces.set(3 * 8 + 3, Piece::Black);
        spaces.set(4 * 8 + 4, Piece::Black);
        spaces.set(3 * 8 + 4, Piece::White);
        spaces.set(4 * 8 + 3, Piece::White);
        let b = Board { spaces };
        assert(b@ =~= initial_cells());
        b
    }

    /// A board with the given squares, row by row; `None` unless there are
    /// exactly 64 of them.
    pub fn from_cells(cells: Vec<Piece>) -> (r: Option<Board>)
        ensures
            cells@.len() == 64 <==> r is Some,
            r matches Some(b) ==> b.wf() && b@ == cells@,
    {
        if cells.len() == 64 {
            Some(Board { spaces: cells })
        } else {
            None
        }
    }

    /// The square at (x, y), or `None` when it is off the board.
    pub fn get(&self, x: isize, y: isize) -> (r: Option<Piece>)
        requires
            self.wf(),
        ensures
            r == (if in_bounds(x as int, y as int) {
                Some(cell(self@, x as int, y as int))
            } else {
                None
            }),
    {
        if 0 <= x && x < 8 && 0 <= y && y < 8 {
            Some(self.spaces[(x * 8 + y) as usize])
        } else {
            None
        }
    }

    /// Whether the square at (x, y) is empty.
    pub fn _is_blank(&self, x: isize, y: isize) -> (r: bool)
        requires
            self.wf(),
            in_bounds(x as int, y as int),
        ensures
            r == (cell(self@, x as int, y as int) == Piece::Blank),
    {
        self.spaces[(x * 8 + y) as usize].is_blank()
    }

    /// The rows (or columns) within one step of `n`, clipped to the board,
    /// as an inclusive pair (low, high).
    pub fn _around_range(n: isize) -> (r: (isize, isize))
        requires
            0 <= n < 8,
        ensures
            r.0 == (if n == 0 { 0 } else { n - 1 }),
            r.1 == (if n == 7 { 7 } else { n + 1 }),
    {
        let lo: isize = if n == 0 { 0 } else { n - 1 };
        let hi: isize = if n == 7 { 7 } else { n + 1 };
        (lo, hi)
    }

    /// Whether a square next to (x, y) holds an opponent of `player`.
    pub fn _is_piece_around(&self, x: isize, y: isize, player: Player) -> (r: bool)
        requires
            self.wf(),
            in_bounds(x as int, y as int),
        ensures
            r == adjacent_opponent(self@, x as int, y as int, player.piece()),
    {
        let piece = player.piece();
        let (xlo, xhi) = Self::_around_range(x);
        let (ylo, yhi) = Self::_around_range(y);
        let mut cx: isize = xlo;
        while cx <= xhi
            invariant
                self.wf(),
                in_bounds(x as int, y as int),
                piece == player.piece(),
                xlo == (if x == 0 { 0 } else { x - 1 }),
                xhi == (if x == 7 { 7 } else { x + 1 }),
                ylo == (if y == 0 { 0 } else { y - 1 }),
                yhi == (if y == 7 { 7 } else { y + 1 }),
                xlo <= cx <= xhi + 1,
                forall|i: int, j: int|
                    xlo <= i < cx && ylo <= j <= yhi && !(i == x && j == y)
                        ==> !is_opponent(#[trigger] cell(self@, i, j), piece),
            decreases xhi + 1 - cx,
        {
            let mut cy: isize = ylo;
            while cy <= yhi
                invariant
                    self.wf(),
                    in_bounds(x as int, y as int),
                    piece == player.piece(),
                    xlo == (if x == 0 { 0 } else { x - 1 }),
                    xhi == (if x == 7 { 7 } else { x + 1 }),
                    ylo == (if y == 0 { 0 } else { y - 1 }),
                    yhi == (if y == 7 { 7 } else { y + 1 }),
                    xlo <= cx <= xhi,
                    ylo <= cy <= yhi + 1,
                    forall|i: int, j: int|
                        ((xlo <= i < cx && ylo <= j <= yhi) || (i == cx && ylo <= j < cy))
                            && !(i == x && j == y)
                            ==> !is_opponent(#[trigger] cell(self@, i, j), piece),
                decreases yhi + 1 - cy,
            {
                if !(cx == x && cy == y) {
                    let q = self.spaces[(cx * 8 + cy) as usize];
                    if !q.is_blank() && q != piece {
                        assert(is_opponent(cell(self@, cx as int, cy as int), piece));
                        return true;
                    }
                }
                cy = cy + 1;
            }
            cx = cx + 1;
        }
        false
    }

    /// Whether (x, y) is empty and next to an opponent of `player`.
    pub fn _is_placable(&self, x: isize, y: isize, player: Player) -> (r: bool)
        requires
            self.wf(),
            in_bounds(x as int, y as int),
        ensures
            r == (cell(self@, x as int, y as int) == Piece::Blank
                && adjacent_opponent(self@, x as int, y as int, player.piece())),
    {
        if !self._is_blank(x, y) {
            return false;
        }
        if !self._is_piece_around(x, y, player) {
            return false;
        }
        true
    }

    /// The number of black and of white pieces on the board.
    pub fn count(&self) -> (r: (usize, usize))
        requires
            self.wf(),
        ensures
            r.0 as int == count_of(self@, Piece::Black),
            r.1 as int == count_of(self@, Piece::White),
    {
        let ghost s = self@;
        let mut n_black: usize = 0;
        let mut n_white: usize = 0;
        let mut k: usize = 0;
        while k < 64
            invariant
                self.wf(),
                s == self@,
                k <= 64,
                n_black as int == count_of(s.subrange(0, k as int), Piece::Black),
                n_white as int == count_of(s.subrange(0, k as int), Piece::White),
                n_black <= k,
                n_white <= k,
            decreases 64 - k,
        {
            assert(s.subrange(0, k + 1).drop_last() =~= s.subrange(0, k as int));
            let q = self.spaces[k];
            if q == Piece::Black {
                n_black = n_black + 1;
            } else if q == Piece::White {
                n_white = n_white + 1;
            }
            k = k + 1;
        }
        assert(s.subrange(0, 64) =~= s);
        (n_black, n_white)
    }

    /// The length of the capturing line of a piece of `player` at (x, y) in
    /// each of the eight directions, in the order of `dir_r` and `dir_c`.
    pub fn _select_reversable(&self, x: isize, y: isize, player: Player) -> (caps: Vec<usize>)
        requires
            self.wf(),
            in_bounds(x as int, y as int),
        ensures
            caps@.len() == 8,
            forall|d: int|
                0 <= d < 8 ==> #[trigger] caps@[d] as int == captured(
                    self@,
                    x as int,
                    y as int,
                    dir_r(d),
                    dir_c(d),
                    player.piece(),
                ),
    {
        let mut caps: Vec<usize> = Vec::new();
        let mut d: usize = 0;
        while d < 8
            invariant
                self.wf(),
                in_bounds(x as int, y as int),
                d <= 8,
                caps@.len() == d,
                forall|e: int|
                    0 <= e < d ==> #[trigger] caps@[e] as int == captured(
                        self@,
                        x as int,
                        y as int,
                        dir_r(e),
                        dir_c(e),
                        player.piece(),
                    ),
            decreases 8 - d,
        {
            let (dx, dy) = Self::direction(d);
            let n = self._reverse_recv(x, y, dx, dy, player);
            caps.push(n);
            d = d + 1;
        }
        caps
    }

    /// Turns every square of the capturing lines whose lengths `caps` gives
    /// to `player`'s colour.
    fn reverse_lines(&mut self, x: isize, y: isize, player: Player, caps: &Vec<usize>)
        requires
            old(self).wf(),
            in_bounds(x as int, y as int),
            caps@.len() == 8,
            forall|d: int|
                0 <= d < 8 ==> #[trigger] caps@[d] as int == captured(
                    old(self)@,
                    x as int,
                    y as int,
                    dir_r(d),
                    dir_c(d),
                    player.piece(),
                ),
        ensures
            final(self).wf(),
            forall|i: int, j: int|
                in_bounds(i, j) ==> #[trigger] cell(final(self)@, i, j) == (if flips(
                    old(self)@,
                    x as int,
                    y as int,
                    player.piece(),
                    i,
                    j,
                ) {
                    player.piece()
                } else {
                    cell(old(self)@, i, j)
                }),
    {
        let ghost s = self@;
        let piece = player.piece();
        let mut d: usize = 0;
        while d < 8
            invariant
                self.wf(),
                in_bounds(x as int, y as int),
                piece == player.piece(),
                d <= 8,
                caps@.len() == 8,
                forall|e: int|
                    0 <= e < 8 ==> #[trigger] caps@[e] as int == captured(
                        s,
                        x as int,
                        y as int,
                        dir_r(e),
                        dir_c(e),
                        piece,
                    ),
                forall|i: int, j: int|
                    in_bounds(i, j) ==> #[trigger] cell(self@, i, j) == (if turned_so_far(
                        caps@,
                        x as int,
                        y as int,
                        i,
                        j,
                        d as int,
                        0,
                    ) {
                        piece
                    } else {
                        cell(s, i, j)
                    }),
            decreases 8 - d,
        {
            let (dx, dy) = Self::direction(d);
            let n = caps[d];
            proof {
                if n >= 8 {
                    lemma_captured_run(s, x as int, y as int, dx as int, dy as int, piece, 8);
                }
            }
            let mut k: usize = 1;
            let mut px: isize = x + dx;
            let mut py: isize = y + dy;
            while k <= n
                invariant
                    self.wf(),
                    in_bounds(x as int, y as int),
                    piece == player.piece(),
                    d < 8,
                    dx == dir_r(d as int),
                    dy == dir_c(d as int),
                    caps@.len() == 8,
                    n == caps@[d as int],
                    n as int == captured(s, x as int, y as int, dx as int, dy as int, piece),
                    n < 8,
                    1 <= k <= n + 1,
                    px == x + scaled(k as int, dx as int),
                    py == y + scaled(k as int, dy as int),
                    forall|i: int, j: int|
                        in_bounds(i, j) ==> #[trigger] cell(self@, i, j) == (if turned_so_far(
                            caps@,
                            x as int,
                            y as int,
                            i,
                            j,
                            d as int,
                            k - 1,
                        ) {
                            piece
                        } else {
                            cell(s, i, j)
                        }),
                decreases n + 1 - k,
            {
                proof {
                    lemma_captured_run(s, x as int, y as int, dx as int, dy as int, piece, k as int);
                }
                let ghost before = self@;
                self.spaces.set((px * 8 + py) as usize, piece);
                assert forall|i: int, j: int| in_bounds(i, j) implies #[trigger] cell(self@, i, j) == (
                if turned_so_far(caps@, x as int, y as int, i, j, d as int, k as int) {
                    piece
                } else {
                    cell(s, i, j)
                }) by {
                    if i == px && j == py {
                    } else {
                        assert(i * 8 + j != px * 8 + py);
                        assert(cell(self@, i, j) == cell(before, i, j));
                    }
                }
                k = k + 1;
                px = px + dx;
                py = py + dy;
            }
            d = d + 1;
        }
        assert forall|i: int, j: int| in_bounds(i, j) implies #[trigger] cell(self@, i, j) == (if flips(
            s,
            x as int,
            y as int,
            piece,
            i,
            j,
        ) {
            piece
        } else {
            cell(s, i, j)
        }) by {
            let e = dir_index(sgn(i - x), sgn(j - y));
            if on_ray(i - x, j - y) {
                assert(dir_r(e) == sgn(i - x) && dir_c(e) == sgn(j - y));
                assert(caps@[e] as int == captured(s, x as int, y as int, dir_r(e), dir_c(e), piece));
            }
        }
    }

    /// Places a piece of `player` at (x, y) under the rules of Othello.
    ///
    /// The placement is refused, with the board left as it was, when (x, y)
    /// is off the board, when the square is occupied, when no square next to
    /// it holds an opponent, or when no direction forms a capturing line. On
    /// success the square and every square of every capturing line take
    /// `player`'s colour.
    pub fn place(&mut self, x: isize, y: isize, player: Player) -> (r: Result<(), PlacementError>)
        requires
            old(self).wf(),
        ensures
            final(self).wf(),
            r == place_outcome(old(self)@, x as int, y as int, player.piece()),
            r is Ok ==> final(self)@ == after_place(old(self)@, x as int, y as int, player.piece()),
            r is Err ==> final(self)@ == old(self)@,
    {
        if !(0 <= x && x < 8 && 0 <= y && y < 8) {
            return Err(PlacementError::OutOfBounds);
        }
        if !self._is_blank(x, y) {
            return Err(PlacementError::OccupiedCell);
        }
        if !self._is_piece_around(x, y, player) {
            return Err(PlacementError::NoAdjacentOpponent);
        }
        let ghost s = self@;
        let piece = player.piece();
        let caps = self._select_reversable(x, y, player);
        let mut total: usize = 0;
        let mut d: usize = 0;
        while d < 8
            invariant
                self.wf(),
                s == self@,
                in_bounds(x as int, y as int),
                piece == player.piece(),
                d <= 8,
                total <= 8 * d,
                caps@.len() == 8,
                forall|e: int|
                    0 <= e < 8 ==> #[trigger] caps@[e] as int == captured(
                        s,
                        x as int,
                        y as int,
                        dir_r(e),
                        dir_c(e),
                        piece,
                    ),
                total_captured(s, x as int, y as int, piece) == total + captured_from(
                    s,
                    x as int,
                    y as int,
                    piece,
                    d as int,
                ),
            decreases 8 - d,
        {
            let n = caps[d];
            proof {
                if n >= 8 {
                    lemma_captured_run(s, x as int, y as int, dir_r(d as int), dir_c(d as int), piece, 8);
                }
            }
            total = total + n;
            d = d + 1;
        }
        if total == 0 {
            return Err(PlacementError::NoCapture);
        }
        self.reverse_lines(x, y, player, &caps);
        let ghost mid = self@;
        self.spaces.set((x * 8 + y) as usize, piece);
        assert forall|k: int| 0 <= k < 64 implies #[trigger] self@[k] == after_place(
            s,
            x as int,
            y as int,
            piece,
        )[k] by {
            let i = k / 8;
            let j = k % 8;
            assert(k == i * 8 + j);
            assert(in_bounds(i, j));
            assert(self@[k] == cell(self@, i, j));
            if !(i == x && j == y) {
                assert(i * 8 + j != x * 8 + y);
                assert(cell(self@, i, j) == cell(mid, i, j));
            }
        }
        assert(self@ =~= after_place(s, x as int, y as int, piece));
        Ok(())
    }

    /// The direction of index `d` as (row step, column step).
    fn direction(d: usize) -> (r: (isize, isize))
        requires
            d < 8,
        ensures
            r.0 == dir_r(d as int),
            r.1 == dir_c(d as int),
    {
        match d {
            0 => (1, 0),
            1 => (1, 1),
            2 => (0, 1),
            3 => (-1, 1),
            4 => (-1, 0),
            5 => (-1, -1),
            6 => (0, -1),
            _ => (1, -1),
        }
    }

    /// The number of pieces a piece `piece` placed at (x, y) captures in the
    /// direction (dx, dy).
    pub fn _reverse_recv(&self, x: isize, y: isize, dx: isize, dy: isize, player: Player) -> (n: usize)
        requires
            self.wf(),
            in_bounds(x as int, y as int),
            is_direction(dx as int, dy as int),
        ensures
            n as int == captured(self@, x as int, y as int, dx as int, dy as int, player.piece()),
            n < 8,
    {
        let piece = player.piece();
        let ghost s = self@;
        let ghost w0 = walk(s, x + dx, y + dy, dx as int, dy as int, piece, 8);
        let mut cx: isize = x + dx;
        let mut cy: isize = y + dy;
        let mut n: usize = 0;
        let mut fuel: usize = 8;
        while fuel > 0 && 0 <= cx && cx < 8 && 0 <= cy && cy < 8
            && !self.spaces[(cx * 8 + cy) as usize].is_blank()
            && self.spaces[(cx * 8 + cy) as usize] != piece
            invariant
                self.wf(),
                s == self@,
                -1 <= cx <= 8,
                -1 <= cy <= 8,
                is_direction(dx as int, dy as int),
                n + fuel == 8,
                w0 == (if walk(s, cx as int, cy as int, dx as int, dy as int, piece, fuel as nat) < 0 {
                    -1
                } else {
                    walk(s, cx as int, cy as int, dx as int, dy as int, piece, fuel as nat) + n
                }),
            decreases fuel,
        {
            n = n + 1;
            fuel = fuel - 1;
            cx = cx + dx;
            cy = cy + dy;
        }
        if n > 0 && fuel > 0 && 0 <= cx && cx < 8 && 0 <= cy && cy < 8
            && self.spaces[(cx * 8 + cy) as usize] == piece {
            assert(walk(s, cx as int, cy as int, dx as int, dy as int, piece, fuel as nat) == 0);
            n
        } else {
            0
        }
    }
}

} // verus!

verus! {

/// Changing one empty square to a piece, and turning occupied squares into
/// other pieces, lowers the number of empty squares by exactly one.
proof fn lemma_one_more_occupied(s: Seq<Piece>, t: Seq<Piece>, k0: int)
    requires
        s.len() == t.len(),
        0 <= k0 < s.len(),
        s[k0] == Piece::Blank,
        t[k0] != Piece::Blank,
        forall|k: int| 0 <= k < s.len() && k != k0 ==> (s[k] == Piece::Blank) == (t[k] == Piece::Blank),
    ensures
        count_of(t, Piece::Blank) + 1 == count_of(s, Piece::Blank),
    decreases s.len(),
{
    if k0 < s.len() - 1 {
        lemma_one_more_occupied(s.drop_last(), t.drop_last(), k0);
    } else {
        lemma_same_blanks(s.drop_last(), t.drop_last());
    }
}

/// Two boards with empty squares in the same places have as many of them.
proof fn lemma_same_blanks(s: Seq<Piece>, t: Seq<Piece>)
    requires
        s.len() == t.len(),
        forall|k: int| 0 <= k < s.len() ==> (s[k] == Piece::Blank) == (t[k] == Piece::Blank),
    ensures
        count_of(t, Piece::Blank) == count_of(s, Piece::Blank),
    decreases s.len(),
{
    if s.len() > 0 {
        lemma_same_blanks(s.drop_last(), t.drop_last());
    }
}

/// Every count on a board fits in two decimal digits.
pub proof fn lemma_counts_fit(s: Seq<Piece>)
    requires
        s.len() == 64,
    ensures
        count_of(s, Piece::Black) <= 64,
        count_of(s, Piece::White) <= 64,
        count_of(s, Piece::Blank) <= 64,
{
    lemma_count_bounded(s, Piece::Black);
    lemma_count_bounded(s, Piece::White);
    lemma_count_bounded(s, Piece::Blank);
}

/// A count of squares never exceeds the number of squares.
proof fn lemma_count_bounded(s: Seq<Piece>, p: Piece)
    ensures
        count_of(s, p) <= s.len(),
    decreases s.len(),
{
    if s.len() > 0 {
        lemma_count_bounded(s.drop_last(), p);
    }
}

/// Occupancy only grows: a refused placement leaves the board as it was,
/// and a successful one occupies exactly one more square, so the number of
/// occupied squares never falls and never exceeds 64.
pub proof fn lemma_place_occupancy(s: Seq<Piece>, r: int, c: int, player: Player)
    requires
        s.len() == 64,
    ensures
        0 <= occupied(s) <= 64,
        place_outcome(s, r, c, player.piece()) is Ok ==> occupied(after_place(s, r, c, player.piece()))
            == occupied(s) + 1,
        0 <= occupied(after_place(s, r, c, player.piece())) <= 64,
{
    let p = player.piece();
    let t = after_place(s, r, c, p);
    lemma_count_bounded(s, Piece::Blank);
    lemma_count_bounded(t, Piece::Blank);
    if place_outcome(s, r, c, p) is Ok {
        assert forall|k: int| 0 <= k < 64 && k != r * 8 + c implies (s[k] == Piece::Blank) == (t[k]
            == Piece::Blank) by {
            let i = k / 8;
            let j = k % 8;
            assert(k == i * 8 + j);
            if flips(s, r, c, p, i, j) {
                let di = i - r;
                let dj = j - c;
                let st = steps(di, dj);
                lemma_captured_run(s, r, c, sgn(di), sgn(dj), p, st);
                assert(r + scaled(st, sgn(di)) == i && c + scaled(st, sgn(dj)) == j);
                assert(s[k] == cell(s, i, j));
            }
        }
        assert(t[r * 8 + c] == p);
        lemma_one_more_occupied(s, t, r * 8 + c);
    }
}

} // verus!

verus! {

/// The board after each move of `moves` in turn, a refused move leaving it
/// as it was.
pub open spec fn apply_moves(s: Seq<Piece>, moves: Seq<(int, int, Player)>) -> Seq<Piece>
    decreases moves.len(),
{
    if moves.len() == 0 {
        s
    } else {
        let prev = apply_moves(s, moves.drop_last());
        let (r, c, player) = moves.last();
        if place_outcome(prev, r, c, player.piece()) is Ok {
            after_place(prev, r, c, player.piece())
        } else {
            prev
        }
    }
}

/// Over any sequence of placements, successful or refused, the number of
/// occupied squares never falls and never exceeds 64.
pub proof fn lemma_moves_occupancy(s: Seq<Piece>, moves: Seq<(int, int, Player)>)
    requires
        s.len() == 64,
    ensures
        apply_moves(s, moves).len() == 64,
        occupied(s) <= occupied(apply_moves(s, moves)) <= 64,
    decreases moves.len(),
{
    lemma_count_bounded(s, Piece::Blank);
    if moves.len() > 0 {
        lemma_moves_occupancy(s, moves.drop_last());
        let prev = apply_moves(s, moves.drop_last());
        let (r, c, player) = moves.last();
        lemma_place_occupancy(prev, r, c, player);
    }
}

} // verus!

verus! {

/// The four centre squares.
spec fn in_centre(i: int, j: int) -> bool {
    3 <= i <= 4 && 3 <= j <= 4
}

/// In the opening position a line captures at most one piece: the opponent
/// next to the target, closed by a piece of `p` right behind it.
proof fn lemma_opening_line(r: int, c: int, dr: int, dc: int, p: Piece)
    requires
        in_bounds(r, c),
        is_direction(dr, dc),
        p != Piece::Blank,
    ensures
        0 <= captured(initial_cells(), r, c, dr, dc, p) <= 1,
        captured(initial_cells(), r, c, dr, dc, p) == 1 ==> in_centre(r + dr, c + dc) && in_centre(
            r + 2 * dr,
            c + 2 * dc,
        ) && cell(initial_cells(), r + dr, c + dc) != p && cell(initial_cells(), r + 2 * dr, c + 2 * dc)
            == p,
{
    let s = initial_cells();
    assert forall|i: int, j: int| in_bounds(i, j) && cell(s, i, j) != Piece::Blank implies in_centre(
        i,
        j,
    ) by {}
    reveal_with_fuel(walk, 4);
}

/// Every legal move from the opening position captures exactly one piece.
pub proof fn lemma_opening_moves_capture_one(r: int, c: int, player: Player)
    requires
        place_outcome(initial_cells(), r, c, player.piece()) is Ok,
    ensures
        total_captured(initial_cells(), r, c, player.piece()) == 1,
{
    let p = player.piece();
    lemma_opening_line(r, c, dir_r(0), dir_c(0), p);
    lemma_opening_line(r, c, dir_r(1), dir_c(1), p);
    lemma_opening_line(r, c, dir_r(2), dir_c(2), p);
    lemma_opening_line(r, c, dir_r(3), dir_c(3), p);
    lemma_opening_line(r, c, dir_r(4), dir_c(4), p);
    lemma_opening_line(r, c, dir_r(5), dir_c(5), p);
    lemma_opening_line(r, c, dir_r(6), dir_c(6), p);
    lemma_opening_line(r, c, dir_r(7), dir_c(7), p);
    reveal_with_fuel(captured_from, 9);
}

} // verus!

verus! {

/// The counts over the first `k` squares of the opening position.
proof fn lemma_opening_prefix(k: int)
    requires
        0 <= k <= 64,
    ensures
        count_of(initial_cells().subrange(0, k), Piece::Black) == (if k > 36 {
            2int
        } else if k > 27 {
            1int
        } else {
            0int
        }),
        count_of(initial_cells().subrange(0, k), Piece::White) == (if k > 35 {
            2int
        } else if k > 28 {
            1int
        } else {
            0int
        }),
        count_of(initial_cells().subrange(0, k), Piece::Blank) == k - count_of(
            initial_cells().subrange(0, k),
            Piece::Black,
        ) - count_of(initial_cells().subrange(0, k), Piece::White),
    decreases k,
{
    let s = initial_cells();
    if k > 0 {
        lemma_opening_prefix(k - 1);
        assert(s.subrange(0, k).drop_last() =~= s.subrange(0, k - 1));
    }
}

/// The opening position holds two black and two white pieces, and sixty
/// empty squares.
pub proof fn lemma_opening_counts()
    ensures
        count_of(initial_cells(), Piece::Black) == 2,
        count_of(initial_cells(), Piece::White) == 2,
        count_of(initial_cells(), Piece::Blank) == 60,
{
    lemma_opening_prefix(64);
    assert(initial_cells().subrange(0, 64) =~= initial_cells());
}

} // verus!
