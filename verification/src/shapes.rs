//! The seven tetrominoes in the 4-row, 10-column box: cells, bounds, kick tables, and the moves
//! that a falling piece can make. Shapes are numbered in the order IJLOSTZ and orientations
//! clockwise from spawn (north, east, south, west). A board is a word whose bit `row * 10 + col`
//! is the cell in that row and column, with row 0 at the bottom.

use vstd::prelude::*;
use crate::bits;

verus! {

/// The cells of each shape in each orientation, as offsets `10 * rows up + columns right` from the
/// lower left corner of its bounding box, ascending.
pub const CELLS: [[[u32; 4]; 4]; 7] = [
    [[0, 1, 2, 3], [0, 10, 20, 30], [0, 1, 2, 3], [0, 10, 20, 30]],
    [[0, 1, 2, 10], [0, 10, 20, 21], [2, 10, 11, 12], [0, 1, 11, 21]],
    [[0, 1, 2, 12], [0, 1, 10, 20], [0, 10, 11, 12], [1, 11, 20, 21]],
    [[0, 1, 10, 11], [0, 1, 10, 11], [0, 1, 10, 11], [0, 1, 10, 11]],
    [[0, 1, 11, 12], [1, 10, 11, 20], [0, 1, 11, 12], [1, 10, 11, 20]],
    [[0, 1, 2, 11], [0, 10, 11, 20], [1, 10, 11, 12], [1, 10, 11, 21]],
    [[1, 2, 10, 11], [0, 10, 11, 21], [1, 2, 10, 11], [0, 10, 11, 21]],
];

/// The rightmost column that the corner of each bounding box can take.
pub const PIECE_MAX_COLS: [[i32; 4]; 7] = [
    [6, 9, 6, 9],
    [7, 8, 7, 8],
    [7, 8, 7, 8],
    [8, 8, 8, 8],
    [7, 8, 7, 8],
    [7, 8, 7, 8],
    [7, 8, 7, 8],
];

/// Quarter-turn kicks of J, L, S, T and Z by the orientation turned clockwise from.
pub const JLSTZ_KICKS: [[(i32, i32); 5]; 4] = [
    [(1, -1), (0, -1), (0, 0), (1, -3), (0, -3)],
    [(-1, 0), (0, 0), (0, -1), (-1, 2), (0, 2)],
    [(0, 0), (1, 0), (1, 1), (0, -2), (1, -2)],
    [(0, 1), (-1, 1), (-1, 0), (0, 3), (-1, 3)],
];

/// Quarter-turn kicks of I.
pub const I_KICKS: [[(i32, i32); 5]; 4] = [
    [(2, -2), (0, -2), (3, -2), (0, -3), (3, 0)],
    [(-2, 1), (-3, 1), (0, 1), (-3, 3), (0, 0)],
    [(1, -1), (3, -1), (0, -1), (3, 0), (0, -3)],
    [(-1, 2), (0, 2), (-3, 2), (0, 0), (-3, 3)],
];

/// Quarter-turn kicks of O.
pub const O_KICKS: [[(i32, i32); 5]; 4] = [
    [(0, 0), (0, 0), (0, 0), (0, 0), (0, 0)],
    [(0, 0), (0, 0), (0, 0), (0, 0), (0, 0)],
    [(0, 0), (0, 0), (0, 0), (0, 0), (0, 0)],
    [(0, 0), (0, 0), (0, 0), (0, 0), (0, 0)],
];

/// Half-turn kicks of J, L, S, T and Z by the orientation turned from. The first is the turn
/// in place.
pub const HALF_JLSTZ_KICKS: [[(i32, i32); 6]; 4] = [
    [(0, -1), (0, 0), (1, 0), (-1, 0), (1, -1), (-1, -1)],
    [(-1, 0), (0, 0), (0, 2), (0, 1), (-1, 2), (-1, 1)],
    [(0, 1), (0, 0), (-1, 0), (1, 0), (-1, 1), (1, 1)],
    [(1, 0), (0, 0), (0, 2), (0, 1), (1, 2), (1, 1)],
];

/// Half-turn kicks of I.
pub const HALF_I_KICKS: [[(i32, i32); 6]; 4] = [
    [(0, -1), (-1, -1), (-2, -1), (1, -1), (2, -1), (0, 0)],
    [(-1, 0), (-1, 1), (-1, 2), (-1, -1), (-1, -2), (0, 0)],
    [(0, 1), (1, 1), (2, 1), (-1, 1), (-2, 1), (0, 0)],
    [(1, 0), (1, 1), (1, 2), (1, -1), (1, -2), (0, 0)],
];

/// Half-turn kicks of O.
pub const HALF_O_KICKS: [[(i32, i32); 6]; 4] = [
    [(0, 0), (0, 0), (0, 0), (0, 0), (0, 0), (0, 0)],
    [(0, 0), (0, 0), (0, 0), (0, 0), (0, 0), (0, 0)],
    [(0, 0), (0, 0), (0, 0), (0, 0), (0, 0), (0, 0)],
    [(0, 0), (0, 0), (0, 0), (0, 0), (0, 0), (0, 0)],
];

/// How many half-turn kicks J, L, O, S, T and Z may try: the turn in place and one more.
pub const HALF_N: usize = 2;

/// Every cell of the box.
pub const BOARD_MASK: u64 = 0xFF_FFFF_FFFF;

/// The `i`-th cell offset of a shape.
pub open spec fn cell(shape: int, orient: int, i: int) -> int {
    CELLS@[shape]@[orient]@[i] as int
}

/// The rightmost corner column of a shape.
pub open spec fn max_col(shape: int, orient: int) -> int {
    PIECE_MAX_COLS@[shape]@[orient] as int
}

pub open spec fn quarter_kicks(shape: int, orient: int) -> Seq<(i32, i32)> {
    if shape == 0 {
        I_KICKS@[orient]@
    } else if shape == 3 {
        O_KICKS@[orient]@
    } else {
        JLSTZ_KICKS@[orient]@
    }
}

pub open spec fn half_turn_kicks(shape: int, orient: int) -> Seq<(i32, i32)> {
    if shape == 0 {
        HALF_I_KICKS@[orient]@
    } else if shape == 3 {
        HALF_O_KICKS@[orient]@
    } else {
        HALF_JLSTZ_KICKS@[orient]@
    }
}

/// How many half-turn kicks a shape may try; the bar only turns in place.
pub open spec fn half_count(shape: int) -> int {
    if shape == 0 {
        1
    } else {
        HALF_N as int
    }
}

/// Where a falling piece stands: the corner of its bounding box, its shape and its orientation.
pub struct Spot {
    pub shape: int,
    pub orient: int,
    pub col: int,
    pub row: int,
}

impl Spot {
    pub open spec fn known(self) -> bool {
        0 <= self.shape < 7 && 0 <= self.orient < 4
    }

    /// The bit position of the corner.
    pub open spec fn at(self) -> int {
        self.row * 10 + self.col
    }

    /// The bit position of the `i`-th cell.
    pub open spec fn cell_at(self, i: int) -> int {
        self.at() + cell(self.shape, self.orient, i)
    }

    pub open spec fn hits(self, board: u64) -> bool {
        exists|i: int| 0 <= i < 4 && bits::bit(board, #[trigger] self.cell_at(i))
    }

    pub open spec fn in_box(self) -> bool {
        &&& 0 <= self.col <= max_col(self.shape, self.orient)
        &&& 0 <= self.row <= 5
    }

    pub open spec fn fits(self, board: u64) -> bool {
        self.in_box() && !self.hits(board)
    }

    pub open spec fn slid(self, dc: int, dr: int) -> Spot {
        Spot { col: self.col + dc, row: self.row + dr, ..self }
    }

    pub open spec fn kicked(self, orient: int, kick: (int, int)) -> Spot {
        Spot { shape: self.shape, orient, col: self.col + kick.0, row: self.row + kick.1 }
    }

    /// The word that holds exactly the four cells.
    pub open spec fn word(self) -> u64 {
        (1u64 << (self.cell_at(0) as u64)) | (1u64 << (self.cell_at(1) as u64)) | (1u64 << (
        self.cell_at(2) as u64)) | (1u64 << (self.cell_at(3) as u64))
    }
}

/// The orientation that a turn leads to. Turn 0 is a quarter clockwise, 1 a quarter
/// counterclockwise, 2 a half.
pub open spec fn turn_target(orient: int, turn: int) -> int {
    if turn == 0 {
        (orient + 1) % 4
    } else if turn == 1 {
        (orient + 3) % 4
    } else {
        (orient + 2) % 4
    }
}

/// The displacements a turn tries, in order. A counterclockwise turn undoes the clockwise turn
/// that leads back.
pub open spec fn turn_kicks(shape: int, orient: int, turn: int) -> Seq<(int, int)> {
    if turn == 0 {
        Seq::new(
            5,
            |k: int|
                (quarter_kicks(shape, orient)[k].0 as int, quarter_kicks(shape, orient)[k].1 as int),
        )
    } else if turn == 1 {
        Seq::new(
            5,
            |k: int|
                (
                    -(quarter_kicks(shape, turn_target(orient, 1))[k].0 as int),
                    -(quarter_kicks(shape, turn_target(orient, 1))[k].1 as int),
                ),
        )
    } else {
        Seq::new(
            half_count(shape) as nat,
            |k: int|
                (
                    half_turn_kicks(shape, orient)[k].0 as int,
                    half_turn_kicks(shape, orient)[k].1 as int,
                ),
        )
    }
}

/// The first of the displacements from `k` on under which the piece fits; itself if none does.
pub open spec fn first_fit(s: Spot, board: u64, orient: int, kicks: Seq<(int, int)>, k: int) -> Spot
    decreases kicks.len() - k,
{
    if k < 0 || k >= kicks.len() {
        s
    } else if s.kicked(orient, kicks[k]).fits(board) {
        s.kicked(orient, kicks[k])
    } else {
        first_fit(s, board, orient, kicks, k + 1)
    }
}

/// One move of a falling piece: 0 left, 1 right, 2 down, then the three turns. A move that has no
/// room leaves the piece where it is.
pub open spec fn step(board: u64, s: Spot, mv: int) -> Spot {
    if mv == 0 {
        if s.slid(-1, 0).col < 0 || s.slid(-1, 0).hits(board) {
            s
        } else {
            s.slid(-1, 0)
        }
    } else if mv == 1 {
        if s.slid(1, 0).col > max_col(s.shape, s.orient) || s.slid(1, 0).hits(board) {
            s
        } else {
            s.slid(1, 0)
        }
    } else if mv == 2 {
        if s.slid(0, -1).row < 0 || s.slid(0, -1).hits(board) {
            s
        } else {
            s.slid(0, -1)
        }
    } else {
        first_fit(
            s,
            board,
            turn_target(s.orient, mv - 3),
            turn_kicks(s.shape, s.orient, mv - 3),
            0,
        )
    }
}

/// A piece enters anywhere just above the box.
pub open spec fn spawns(shape: int, s: Spot) -> bool {
    s.shape == shape && 0 <= s.orient < 4 && s.row == 4 && s.in_box()
}

/// Whether `n` moves or fewer lead from an entry to `s`.
pub open spec fn reach_in(shape: int, board: u64, s: Spot, n: nat) -> bool
    decreases n,
{
    if n == 0 {
        spawns(shape, s)
    } else {
        ||| reach_in(shape, board, s, (n - 1) as nat)
        ||| exists|q: Spot, mv: int|
            0 <= mv < 6 && reach_in(shape, board, q, (n - 1) as nat) && s == #[trigger] step(
                board,
                q,
                mv,
            )
    }
}

/// Whether moves lead from an entry to `s`.
pub open spec fn reachable(shape: int, board: u64, s: Spot) -> bool {
    exists|n: nat| reach_in(shape, board, s, n)
}

/// A piece can be left at `s`: all of it is inside the box and it cannot move down.
pub open spec fn can_land(board: u64, s: Spot) -> bool {
    s.cell_at(3) < 40 && step(board, s, 2) == s
}

/// Where a piece of this shape can come to rest.
pub open spec fn lands(shape: int, board: u64, s: Spot) -> bool {
    reachable(shape, board, s) && can_land(board, s)
}

pub proof fn lemma_spawn_reachable(shape: int, board: u64, s: Spot)
    requires
        spawns(shape, s),
    ensures
        reachable(shape, board, s),
{
    assert(reach_in(shape, board, s, 0));
}

pub proof fn lemma_step_reachable(shape: int, board: u64, q: Spot, mv: int)
    requires
        reachable(shape, board, q),
        0 <= mv < 6,
    ensures
        reachable(shape, board, step(board, q, mv)),
{
    let n = choose|n: nat| reach_in(shape, board, q, n);
    assert(reach_in(shape, board, q, ((n + 1) - 1) as nat));
    assert(reach_in(shape, board, step(board, q, mv), n + 1));
}

/// A set of spots that holds every entry and is closed under moves holds every reachable spot.
pub proof fn lemma_closed_holds(shape: int, board: u64, within: spec_fn(Spot) -> bool, s: Spot)
    requires
        forall|q: Spot| #[trigger] spawns(shape, q) ==> within(q),
        forall|q: Spot, mv: int|
            within(q) && 0 <= mv < 6 ==> within(#[trigger] step(board, q, mv)),
        reachable(shape, board, s),
    ensures
        within(s),
{
    let n = choose|n: nat| reach_in(shape, board, s, n);
    lemma_closed_holds_in(shape, board, within, s, n);
}

proof fn lemma_closed_holds_in(
    shape: int,
    board: u64,
    within: spec_fn(Spot) -> bool,
    s: Spot,
    n: nat,
)
    requires
        forall|q: Spot| #[trigger] spawns(shape, q) ==> within(q),
        forall|q: Spot, mv: int|
            within(q) && 0 <= mv < 6 ==> within(#[trigger] step(board, q, mv)),
        reach_in(shape, board, s, n),
    ensures
        within(s),
    decreases n,
{
    if n > 0 {
        let m: nat = (n - 1) as nat;
        if reach_in(shape, board, s, m) {
            lemma_closed_holds_in(shape, board, within, s, m);
        } else {
            let (q, mv) = choose|q: Spot, mv: int|
                0 <= mv < 6 && reach_in(shape, board, q, m) && s == #[trigger] step(board, q, mv);
            lemma_closed_holds_in(shape, board, within, q, m);
        }
    }
}

/// What the tables say of a shape: four ascending cells that stay inside the box from any corner
/// column allowed.
pub proof fn lemma_shape(shape: int, orient: int)
    requires
        0 <= shape < 7,
        0 <= orient < 4,
    ensures
        0 <= cell(shape, orient, 0) < cell(shape, orient, 1) < cell(shape, orient, 2) < cell(
            shape,
            orient,
            3,
        ) <= 33,
        6 <= max_col(shape, orient) <= 9,
        forall|i: int|
            0 <= i < 4 ==> (#[trigger] cell(shape, orient, i)) % 10 + max_col(shape, orient) <= 9,
        forall|i: int|
            0 <= i < 4 ==> 0 <= (#[trigger] cell(shape, orient, i)) <= cell(shape, orient, 3),
{
    assert forall|i: int| 0 <= i < 4 implies (#[trigger] cell(shape, orient, i)) % 10 + max_col(
        shape,
        orient,
    ) <= 9 && 0 <= cell(shape, orient, i) <= cell(shape, orient, 3) by {
        assert(i == 0 || i == 1 || i == 2 || i == 3);
        lemma_shape_row(shape, orient);
    }
    lemma_shape_row(shape, orient);
}

proof fn lemma_shape_row(shape: int, orient: int)
    requires
        0 <= shape < 7,
        0 <= orient < 4,
    ensures
        0 <= cell(shape, orient, 0) < cell(shape, orient, 1) < cell(shape, orient, 2) < cell(
            shape,
            orient,
            3,
        ) <= 33,
        6 <= max_col(shape, orient) <= 9,
        cell(shape, orient, 0) % 10 + max_col(shape, orient) <= 9,
        cell(shape, orient, 1) % 10 + max_col(shape, orient) <= 9,
        cell(shape, orient, 2) % 10 + max_col(shape, orient) <= 9,
        cell(shape, orient, 3) % 10 + max_col(shape, orient) <= 9,
{
    assert(orient == 0 || orient == 1 || orient == 2 || orient == 3);
    if shape == 0 {
    } else if shape == 1 {
    } else if shape == 2 {
    } else if shape == 3 {
    } else if shape == 4 {
    } else if shape == 5 {
    } else {
        assert(shape == 6);
    }
}

/// Kicks move a piece at most three columns and three rows.
pub proof fn lemma_kicks_small(shape: int, orient: int, turn: int, k: int)
    requires
        0 <= shape < 7,
        0 <= orient < 4,
        0 <= turn < 3,
        0 <= k < turn_kicks(shape, orient, turn).len(),
    ensures
        -3 <= turn_kicks(shape, orient, turn)[k].0 <= 3,
        -3 <= turn_kicks(shape, orient, turn)[k].1 <= 3,
{
    assert(k == 0 || k == 1 || k == 2 || k == 3 || k == 4);
    let o: int = if turn == 1 { turn_target(orient, 1) } else { orient };
    assert(o == 0 || o == 1 || o == 2 || o == 3);
    if turn == 2 {
        assert(k == 0 || k == 1);
        lemma_half_kicks_small(shape, orient, k);
    } else {
        lemma_quarter_kicks_small(shape, o, k);
    }
}

proof fn lemma_quarter_kicks_small(shape: int, o: int, k: int)
    requires
        0 <= shape < 7,
        0 <= o < 4,
        0 <= k < 5,
    ensures
        -3 <= quarter_kicks(shape, o)[k].0 <= 3,
        -3 <= quarter_kicks(shape, o)[k].1 <= 3,
{
    assert(k == 0 || k == 1 || k == 2 || k == 3 || k == 4);
    assert(o == 0 || o == 1 || o == 2 || o == 3);
}

proof fn lemma_half_kicks_small(shape: int, o: int, k: int)
    requires
        0 <= shape < 7,
        0 <= o < 4,
        0 <= k < 6,
    ensures
        -3 <= half_turn_kicks(shape, o)[k].0 <= 3,
        -3 <= half_turn_kicks(shape, o)[k].1 <= 3,
{
    assert(k == 0 || k == 1 || k == 2 || k == 3 || k == 4 || k == 5);
    assert(o == 0 || o == 1 || o == 2 || o == 3);
}

/// A turn either finds no room or ends at the displaced spot of the first kick that fits.
pub proof fn lemma_first_fit(s: Spot, board: u64, orient: int, kicks: Seq<(int, int)>, k: int)
    requires
        0 <= k <= kicks.len(),
    ensures
        ({
            let r = first_fit(s, board, orient, kicks, k);
            r == s || (r.fits(board) && r.shape == s.shape && r.orient == orient)
        }),
    decreases kicks.len() - k,
{
    if k < kicks.len() && !s.kicked(orient, kicks[k]).fits(board) {
        lemma_first_fit(s, board, orient, kicks, k + 1);
    }
}

/// A piece that fits still fits after a move.
pub proof fn lemma_step_fits(board: u64, s: Spot, mv: int)
    requires
        s.known(),
        s.fits(board),
        0 <= mv < 6,
    ensures
        step(board, s, mv).known(),
        step(board, s, mv).shape == s.shape,
        step(board, s, mv).fits(board),
{
    if mv >= 3 {
        lemma_first_fit(
            s,
            board,
            turn_target(s.orient, mv - 3),
            turn_kicks(s.shape, s.orient, mv - 3),
            0,
        );
    }
}

/// Every entry fits, since the board ends below it.
pub proof fn lemma_spawn_fits(shape: int, board: u64, s: Spot)
    requires
        0 <= shape < 7,
        spawns(shape, s),
        board < 1u64 << 40,
    ensures
        s.known(),
        s.fits(board),
{
    lemma_shape(s.shape, s.orient);
    bits::lemma_bits_below(board, 40);
    assert forall|i: int| 0 <= i < 4 implies !bits::bit(board, #[trigger] s.cell_at(i)) by {
        assert(cell(s.shape, s.orient, i) >= 0);
    }
}

/// Every reachable spot is inside the bounds and clear of the board.
pub proof fn lemma_reachable_fits(shape: int, board: u64, s: Spot)
    requires
        0 <= shape < 7,
        reachable(shape, board, s),
        board < 1u64 << 40,
    ensures
        s.known(),
        s.shape == shape,
        s.fits(board),
{
    let within = |q: Spot| q.known() && q.shape == shape && q.fits(board);
    assert forall|q: Spot| #[trigger] spawns(shape, q) implies within(q) by {
        lemma_spawn_fits(shape, board, q);
    }
    assert forall|q: Spot, mv: int| within(q) && 0 <= mv < 6 implies within(
        #[trigger] step(board, q, mv),
    ) by {
        lemma_step_fits(board, q, mv);
    }
    lemma_closed_holds(shape, board, within, s);
}

/* ---- how pieces turn ---- */

impl Spot {
    /// One of the four cells lies in this column and row.
    pub open spec fn covers(self, x: int, y: int) -> bool {
        exists|i: int| 0 <= i < 4 && #[trigger] self.cell_in(i) == (x, y)
    }

    /// The column and row of the `i`-th cell.
    pub open spec fn cell_in(self, i: int) -> (int, int) {
        (
            self.col + cell(self.shape, self.orient, i) % 10,
            self.row + cell(self.shape, self.orient, i) / 10,
        )
    }

    /// The lower left corner of the square that the piece turns in.
    pub open spec fn square(self) -> (int, int) {
        (
            self.col - home(self.shape, self.orient).0,
            self.row - home(self.shape, self.orient).1,
        )
    }
}

/// The side of the square that a shape turns in.
pub open spec fn side(shape: int) -> int {
    if shape == 0 {
        4
    } else if shape == 3 {
        2
    } else {
        3
    }
}

/// Where the bounding box of a shape lies in that square.
pub open spec fn home(shape: int, orient: int) -> (int, int) {
    if shape == 3 {
        (0, 0)
    } else if shape == 0 {
        if orient == 0 {
            (0, 2)
        } else if orient == 1 {
            (2, 0)
        } else if orient == 2 {
            (0, 1)
        } else {
            (1, 0)
        }
    } else {
        if orient == 0 {
            (0, 1)
        } else if orient == 1 {
            (1, 0)
        } else {
            (0, 0)
        }
    }
}

/// The columns that a shape fills at spawn, in its lower and in its upper row.
pub open spec fn spawn_rows(shape: int) -> ((int, int), (int, int)) {
    if shape == 0 {
        ((0, 3), (0, -1))
    } else if shape == 1 {
        ((0, 2), (0, 0))
    } else if shape == 2 {
        ((0, 2), (2, 2))
    } else if shape == 3 {
        ((0, 1), (0, 1))
    } else if shape == 4 {
        ((0, 1), (1, 2))
    } else if shape == 5 {
        ((0, 2), (1, 1))
    } else {
        ((1, 2), (0, 1))
    }
}

/// The offsets of the Super Rotation System. A turn tries the difference of the offsets of the two
/// orientations.
pub open spec fn lean(shape: int, orient: int, k: int) -> (int, int) {
    if shape == 3 {
        (0, 0)
    } else if shape == 0 {
        if orient == 0 {
            if k == 0 {
                (0, 0)
            } else if k == 1 || k == 3 {
                (-1, 0)
            } else {
                (2, 0)
            }
        } else if orient == 1 {
            if k == 0 {
                (-1, 0)
            } else if k == 3 {
                (0, 1)
            } else if k == 4 {
                (0, -2)
            } else {
                (0, 0)
            }
        } else if orient == 2 {
            if k == 0 {
                (-1, 1)
            } else if k == 1 {
                (1, 1)
            } else if k == 2 {
                (-2, 1)
            } else if k == 3 {
                (1, 0)
            } else {
                (-2, 0)
            }
        } else {
            if k == 3 {
                (0, -1)
            } else if k == 4 {
                (0, 2)
            } else {
                (0, 1)
            }
        }
    } else if orient == 0 || orient == 2 || k == 0 {
        (0, 0)
    } else {
        let out: int = if orient == 1 {
            1
        } else {
            -1
        };
        if k == 1 {
            (out, 0)
        } else if k == 2 {
            (out, -1)
        } else if k == 3 {
            (0, 2)
        } else {
            (out, 2)
        }
    }
}

/// Where the top of a piece points.
pub open spec fn heading(orient: int) -> (int, int) {
    if orient == 0 {
        (0, 1)
    } else if orient == 1 {
        (1, 0)
    } else if orient == 2 {
        (0, -1)
    } else {
        (-1, 0)
    }
}

/// Whether one of the four cells of a shape lies here in its bounding box.
#[verifier::opaque]
spec fn fills(shape: int, orient: int, x: int, y: int) -> bool {
    ||| (cell(shape, orient, 0) % 10 == x && cell(shape, orient, 0) / 10 == y)
    ||| (cell(shape, orient, 1) % 10 == x && cell(shape, orient, 1) / 10 == y)
    ||| (cell(shape, orient, 2) % 10 == x && cell(shape, orient, 2) / 10 == y)
    ||| (cell(shape, orient, 3) % 10 == x && cell(shape, orient, 3) / 10 == y)
}

proof fn lemma_covers(s: Spot, x: int, y: int)
    ensures
        s.covers(x, y) == fills(s.shape, s.orient, x - s.col, y - s.row),
{
    reveal(fills);
    assert(s.cell_in(0) == s.cell_in(0) && s.cell_in(1) == s.cell_in(1) && s.cell_in(2)
        == s.cell_in(2) && s.cell_in(3) == s.cell_in(3));
    if s.covers(x, y) {
        let i = choose|i: int| 0 <= i < 4 && #[trigger] s.cell_in(i) == (x, y);
        assert(i == 0 || i == 1 || i == 2 || i == 3);
    }
}

proof fn lemma_shape_cases(shape: int, orient: int)
    requires
        0 <= shape < 7,
        0 <= orient < 4,
    ensures
        shape == 0 || shape == 1 || shape == 2 || shape == 3 || shape == 4 || shape == 5 || shape
            == 6,
        orient == 0 || orient == 1 || orient == 2 || orient == 3,
{
}

/// In the square, a quarter turn takes each cell a quarter round.
proof fn lemma_quarter(shape: int, orient: int, x: int, y: int)
    requires
        0 <= shape < 7,
        0 <= orient < 4,
    ensures
        ({
            let a = home(shape, orient);
            let o = (orient + 1) % 4;
            let b = home(shape, o);
            fills(shape, orient, x - a.0, y - a.1) == fills(
                shape,
                o,
                y - b.0,
                side(shape) - 1 - x - b.1,
            )
        }),
{
    reveal(fills);
    lemma_shape_cases(shape, orient);
    if shape == 0 {
    } else if shape == 1 {
    } else if shape == 2 {
    } else if shape == 3 {
    } else if shape == 4 {
    } else if shape == 5 {
    } else {
    }
}

proof fn lemma_first_kick(shape: int, orient: int, turn: int)
    requires
        0 <= shape < 7,
        0 <= orient < 4,
        0 <= turn < 3,
    ensures
        turn_kicks(shape, orient, turn).len() == if turn < 2 {
            5nat
        } else if shape == 0 {
            1
        } else {
            2
        },
        turn_kicks(shape, orient, turn)[0].0 == home(shape, turn_target(orient, turn)).0 - home(
            shape,
            orient,
        ).0,
        turn_kicks(shape, orient, turn)[0].1 == home(shape, turn_target(orient, turn)).1 - home(
            shape,
            orient,
        ).1,
{
    lemma_shape_cases(shape, orient);
    assert(turn == 0 || turn == 1 || turn == 2);
    assert(HALF_N == 2);
}

/// The first displacement that a turn tries turns the piece in place: the square stays, and every
/// cell goes round in it, a quarter clockwise, a quarter counterclockwise or a half.
pub proof fn law_first_kick_turns_in_place(s: Spot, turn: int, x: int, y: int)
    requires
        s.known(),
        0 <= turn < 3,
    ensures
        ({
            let r = s.kicked(
                turn_target(s.orient, turn),
                turn_kicks(s.shape, s.orient, turn)[0],
            );
            let q = s.square();
            let n = side(s.shape) - 1;
            &&& r.square() == q
            &&& turn == 0 ==> s.covers(q.0 + x, q.1 + y) == r.covers(q.0 + y, q.1 + n - x)
            &&& turn == 1 ==> s.covers(q.0 + x, q.1 + y) == r.covers(q.0 + n - y, q.1 + x)
            &&& turn == 2 ==> s.covers(q.0 + x, q.1 + y) == r.covers(q.0 + n - x, q.1 + n - y)
        }),
{
    let shape = s.shape;
    let to = turn_target(s.orient, turn);
    let r = s.kicked(to, turn_kicks(shape, s.orient, turn)[0]);
    let q = s.square();
    let n = side(shape) - 1;
    lemma_first_kick(shape, s.orient, turn);
    lemma_covers(s, q.0 + x, q.1 + y);
    if turn == 0 {
        lemma_covers(r, q.0 + y, q.1 + n - x);
        lemma_quarter(shape, s.orient, x, y);
    } else if turn == 1 {
        lemma_covers(r, q.0 + n - y, q.1 + x);
        lemma_quarter(shape, to, n - y, x);
    } else {
        lemma_covers(r, q.0 + n - x, q.1 + n - y);
        lemma_quarter(shape, s.orient, x, y);
        lemma_quarter(shape, (s.orient + 1) % 4, y, n - x);
    }
}

/// A quarter turn tries five displacements: the turn in place, and from there the wall kicks of the
/// Super Rotation System.
pub proof fn law_quarter_turns_kick(shape: int, orient: int, turn: int, k: int)
    requires
        0 <= shape < 7,
        0 <= orient < 4,
        0 <= turn < 2,
        0 <= k < 5,
    ensures
        turn_kicks(shape, orient, turn).len() == 5,
        ({
            let to = turn_target(orient, turn);
            let kick = turn_kicks(shape, orient, turn)[k];
            let first = turn_kicks(shape, orient, turn)[0];
            &&& kick.0 - first.0 == (lean(shape, orient, k).0 - lean(shape, to, k).0) - (lean(
                shape,
                orient,
                0,
            ).0 - lean(shape, to, 0).0)
            &&& kick.1 - first.1 == (lean(shape, orient, k).1 - lean(shape, to, k).1) - (lean(
                shape,
                orient,
                0,
            ).1 - lean(shape, to, 0).1)
        }),
{
    lemma_shape_cases(shape, orient);
    assert(k == 0 || k == 1 || k == 2 || k == 3 || k == 4);
    if turn == 0 {
    } else {
    }
}

/// A counterclockwise turn takes back the clockwise turn that led here, displacement by
/// displacement.
pub proof fn law_turning_back(s: Spot, k: int)
    requires
        s.known(),
        0 <= k < 5,
    ensures
        ({
            let r = s.kicked(turn_target(s.orient, 0), turn_kicks(s.shape, s.orient, 0)[k]);
            r.kicked(turn_target(r.orient, 1), turn_kicks(r.shape, r.orient, 1)[k]) == s
        }),
{
    assert(turn_target(turn_target(s.orient, 0), 1) == s.orient);
}

/// A half turn turns in place. All but the bar then try one cell towards where their top points;
/// the square, which a turn does not change, stays.
pub proof fn law_half_turns_kick(shape: int, orient: int)
    requires
        0 <= shape < 7,
        0 <= orient < 4,
    ensures
        shape == 0 ==> turn_kicks(shape, orient, 2).len() == 1,
        shape != 0 ==> turn_kicks(shape, orient, 2).len() == 2,
        shape == 3 ==> turn_kicks(shape, orient, 2)[1] == (0int, 0int),
        shape != 0 && shape != 3 ==> {
            let first = turn_kicks(shape, orient, 2)[0];
            let kick = turn_kicks(shape, orient, 2)[1];
            &&& kick.0 - first.0 == heading(orient).0
            &&& kick.1 - first.1 == heading(orient).1
        },
{
    lemma_shape_cases(shape, orient);
    assert(HALF_N == 2);
}

/// The shapes at spawn, as the columns of their two rows.
pub proof fn law_shapes_at_spawn(s: Spot, x: int, y: int)
    requires
        s.known(),
        s.orient == 0,
    ensures
        s.covers(s.col + x, s.row + y) == ((y == 0 && spawn_rows(s.shape).0.0 <= x <= spawn_rows(
            s.shape,
        ).0.1) || (y == 1 && spawn_rows(s.shape).1.0 <= x <= spawn_rows(s.shape).1.1)),
{
    reveal(fills);
    lemma_covers(s, s.col + x, s.row + y);
    lemma_shape_cases(s.shape, s.orient);
}

/// The bounding box is tight, and the last column that its corner can take is the one where the
/// shape touches the right wall.
pub proof fn law_bounding_box(shape: int, orient: int)
    requires
        0 <= shape < 7,
        0 <= orient < 4,
    ensures
        forall|i: int|
            0 <= i < 4 ==> 0 <= #[trigger] cell(shape, orient, i) % 10 <= 9 - max_col(shape, orient),
        exists|i: int| 0 <= i < 4 && #[trigger] cell(shape, orient, i) % 10 == 0,
        exists|i: int| 0 <= i < 4 && #[trigger] cell(shape, orient, i) / 10 == 0,
        exists|i: int|
            0 <= i < 4 && #[trigger] cell(shape, orient, i) % 10 + max_col(shape, orient) == 9,
{
    lemma_shape(shape, orient);
    lemma_shape_cases(shape, orient);
    assert(cell(shape, orient, 0) / 10 == 0);
    assert(cell(shape, orient, 0) % 10 == 0 || cell(shape, orient, 1) % 10 == 0 || cell(
        shape,
        orient,
        2,
    ) % 10 == 0 || cell(shape, orient, 3) % 10 == 0);
    assert(cell(shape, orient, 0) % 10 + max_col(shape, orient) == 9 || cell(shape, orient, 1) % 10
        + max_col(shape, orient) == 9 || cell(shape, orient, 2) % 10 + max_col(shape, orient) == 9
        || cell(shape, orient, 3) % 10 + max_col(shape, orient) == 9);
}

proof fn lemma_fit_found(s: Spot, board: u64, orient: int, kicks: Seq<(int, int)>, k: int)
    requires
        0 <= k <= kicks.len(),
    ensures
        ({
            let r = first_fit(s, board, orient, kicks, k);
            ||| exists|j: int|
                k <= j < kicks.len() && r == s.kicked(orient, #[trigger] kicks[j]) && r.fits(board)
                    && forall|i: int|
                    k <= i < j ==> !s.kicked(orient, #[trigger] kicks[i]).fits(board)
            ||| r == s && forall|i: int|
                k <= i < kicks.len() ==> !s.kicked(orient, #[trigger] kicks[i]).fits(board)
        }),
    decreases kicks.len() - k,
{
    if k < kicks.len() {
        if s.kicked(orient, kicks[k]).fits(board) {
            assert(kicks[k] == kicks[k]);
        } else {
            lemma_fit_found(s, board, orient, kicks, k + 1);
            let r = first_fit(s, board, orient, kicks, k);
            if exists|j: int|
                k + 1 <= j < kicks.len() && r == s.kicked(orient, #[trigger] kicks[j]) && r.fits(
                    board,
                ) && forall|i: int|
                    k + 1 <= i < j ==> !s.kicked(orient, #[trigger] kicks[i]).fits(board) {
                let j = choose|j: int|
                    k + 1 <= j < kicks.len() && r == s.kicked(orient, #[trigger] kicks[j])
                        && r.fits(board) && forall|i: int|
                        k + 1 <= i < j ==> !s.kicked(orient, #[trigger] kicks[i]).fits(board);
                assert(kicks[j] == kicks[j]);
            }
        }
    }
}

/// A turn ends at the first of its displacements under which the piece fits, or, where it fits under
/// none, where it began.
pub proof fn law_turn_takes_the_first_room(board: u64, s: Spot, turn: int)
    requires
        0 <= turn < 3,
    ensures
        ({
            let r = step(board, s, 3 + turn);
            let kicks = turn_kicks(s.shape, s.orient, turn);
            let to = turn_target(s.orient, turn);
            ||| exists|j: int|
                0 <= j < kicks.len() && r == s.kicked(to, #[trigger] kicks[j]) && r.fits(board)
                    && forall|i: int|
                    0 <= i < j ==> !s.kicked(to, #[trigger] kicks[i]).fits(board)
            ||| r == s && forall|i: int|
                0 <= i < kicks.len() ==> !s.kicked(to, #[trigger] kicks[i]).fits(board)
        }),
{
    lemma_fit_found(
        s,
        board,
        turn_target(s.orient, turn),
        turn_kicks(s.shape, s.orient, turn),
        0,
    );
}

/// A slide moves the piece by one cell where it fits there, and not at all where it does not.
pub proof fn law_slides(board: u64, s: Spot)
    requires
        s.known(),
        s.fits(board),
    ensures
        step(board, s, 0) == if s.slid(-1, 0).fits(board) {
            s.slid(-1, 0)
        } else {
            s
        },
        step(board, s, 1) == if s.slid(1, 0).fits(board) {
            s.slid(1, 0)
        } else {
            s
        },
        step(board, s, 2) == if s.slid(0, -1).fits(board) {
            s.slid(0, -1)
        } else {
            s
        },
{
}

/// A piece fits exactly where its cells are inside the columns, at most two rows above the box with
/// its corner, and on no filled cell.
pub proof fn law_fits(board: u64, s: Spot)
    requires
        s.known(),
    ensures
        s.fits(board) <==> {
            &&& 0 <= s.row <= 5
            &&& forall|x: int, y: int| #[trigger]
                s.covers(x, y) ==> 0 <= x < 10 && !bits::bit(board, 10 * y + x)
        },
{
    lemma_shape(s.shape, s.orient);
    law_bounding_box(s.shape, s.orient);
    assert forall|i: int| 0 <= i < 4 implies #[trigger] s.cell_at(i) == 10 * s.cell_in(i).1
        + s.cell_in(i).0 by {}
    if s.fits(board) {
        assert forall|x: int, y: int| #[trigger] s.covers(x, y) implies 0 <= x < 10 && !bits::bit(
            board,
            10 * y + x,
        ) by {
            let i = choose|i: int| 0 <= i < 4 && #[trigger] s.cell_in(i) == (x, y);
            assert(s.cell_at(i) == 10 * y + x);
            assert(cell(s.shape, s.orient, i) % 10 <= 9 - max_col(s.shape, s.orient));
        }
    }
    if 0 <= s.row <= 5 && forall|x: int, y: int| #[trigger]
        s.covers(x, y) ==> 0 <= x < 10 && !bits::bit(board, 10 * y + x) {
        let a = choose|i: int| 0 <= i < 4 && #[trigger] cell(s.shape, s.orient, i) % 10 == 0;
        let b = choose|i: int|
            0 <= i < 4 && #[trigger] cell(s.shape, s.orient, i) % 10 + max_col(s.shape, s.orient)
                == 9;
        assert(s.covers(s.cell_in(a).0, s.cell_in(a).1));
        assert(s.covers(s.cell_in(b).0, s.cell_in(b).1));
        assert forall|i: int| 0 <= i < 4 implies !bits::bit(board, #[trigger] s.cell_at(i)) by {
            assert(s.covers(s.cell_in(i).0, s.cell_in(i).1));
        }
    }
}

/// A piece can enter in every orientation and in every column that it fits in, and reaches whatever a
/// move leads to.
pub proof fn law_ways_in(shape: int, board: u64, s: Spot, mv: int)
    requires
        0 <= shape < 7,
        0 <= mv < 6,
    ensures
        s.shape == shape && s.known() && s.row == 4 && 0 <= s.col <= max_col(shape, s.orient)
            ==> reachable(shape, board, s),
        reachable(shape, board, s) ==> reachable(shape, board, step(board, s, mv)),
{
    if spawns(shape, s) {
        lemma_spawn_reachable(shape, board, s);
    }
    if reachable(shape, board, s) {
        lemma_step_reachable(shape, board, s, mv);
    }
}

/// A piece comes to rest where moves lead it, inside the box, with no room below.
pub proof fn law_resting_places(shape: int, board: u64, s: Spot)
    requires
        0 <= shape < 7,
        board < 1u64 << 40,
    ensures
        lands(shape, board, s) <==> {
            &&& reachable(shape, board, s)
            &&& !s.slid(0, -1).fits(board)
            &&& forall|x: int, y: int| #[trigger] s.covers(x, y) ==> y < 4
        },
{
    if reachable(shape, board, s) {
        lemma_reachable_fits(shape, board, s);
        law_slides(board, s);
        lemma_shape(s.shape, s.orient);
        assert forall|i: int| 0 <= i < 4 implies #[trigger] s.cell_at(i) == 10 * s.cell_in(i).1
            + s.cell_in(i).0 && s.cell_at(i) <= s.cell_at(3) && 0 <= s.cell_in(i).0 <= 9 by {
            assert(cell(s.shape, s.orient, i) % 10 + max_col(s.shape, s.orient) <= 9);
            assert(cell(s.shape, s.orient, i) <= cell(s.shape, s.orient, 3));
        }
        assert(s.covers(s.cell_in(3).0, s.cell_in(3).1));
        if s.cell_at(3) < 40 {
            assert forall|x: int, y: int| #[trigger] s.covers(x, y) implies y < 4 by {
                let i = choose|i: int| 0 <= i < 4 && #[trigger] s.cell_in(i) == (x, y);
                assert(s.cell_at(i) <= s.cell_at(3));
            }
        }
        assert(s.slid(0, -1) != s);
    }
}

/// Quarter-turn kicks by shape and orientation.
pub fn kicks(shape: usize, orient: usize) -> (r: [(i32, i32); 5])
    requires
        shape < 7,
        orient < 4,
    ensures
        r@ == quarter_kicks(shape as int, orient as int),
{
    match shape {
        0 => I_KICKS[orient],
        3 => O_KICKS[orient],
        _ => JLSTZ_KICKS[orient],
    }
}

/// Half-turn kicks by shape and orientation.
pub fn half_kicks(shape: usize, orient: usize) -> (r: [(i32, i32); 6])
    requires
        shape < 7,
        orient < 4,
    ensures
        r@ == half_turn_kicks(shape as int, orient as int),
{
    match shape {
        0 => HALF_I_KICKS[orient],
        3 => HALF_O_KICKS[orient],
        _ => HALF_JLSTZ_KICKS[orient],
    }
}

} // verus!
