//! Move generation in the 4-row, 10-column box: the fields that placing one piece can lead to.
//!
//! A field is kept as a hash: the word of its board with every row mirrored left to right. Lines
//! that a placement completes are not removed but sink to the bottom.

use vstd::prelude::*;
use crate::bits;
use crate::movebits;
use crate::movebits::{BpOrient, BpShape};
use crate::shapes;
use crate::shapes::{Spot, CELLS, PIECE_MAX_COLS, HALF_N};

verus! {

/// The position that a mirrored row holds at `i`.
pub open spec fn mirror_index(i: int) -> int {
    (i / 10) * 10 + 9 - i % 10
}

/// The board with every row mirrored left to right.
pub open spec fn mirrored(b: u64) -> u64 {
    bits::from_bits(|i: int| bits::bit(b, mirror_index(i)), 40)
}

/// Row `r` of a board.
pub open spec fn line(b: u64, r: int) -> u64 {
    (b >> ((10 * r) as u64)) & 1023
}

/// The rows in the order in which full rows lie below the others.
pub open spec fn sink_order(b: u64) -> Seq<int> {
    full_rows(b, 4) + open_rows(b, 4)
}

/// The full rows below row `n`, from the bottom up.
pub open spec fn full_rows(b: u64, n: nat) -> Seq<int>
    decreases n,
{
    if n == 0 {
        seq![]
    } else if line(b, n - 1) == 1023 {
        full_rows(b, (n - 1) as nat).push(n - 1)
    } else {
        full_rows(b, (n - 1) as nat)
    }
}

/// The rows below row `n` that are not full, from the bottom up.
pub open spec fn open_rows(b: u64, n: nat) -> Seq<int>
    decreases n,
{
    if n == 0 {
        seq![]
    } else if line(b, n - 1) == 1023 {
        open_rows(b, (n - 1) as nat)
    } else {
        open_rows(b, (n - 1) as nat).push(n - 1)
    }
}

/// The board whose rows from the bottom up are the given rows of `b`.
pub open spec fn stack(b: u64, rows: Seq<int>) -> u64
    decreases rows.len(),
{
    if rows.len() == 0 {
        0
    } else {
        stack(b, rows.drop_last()) | (line(b, rows.last()) << ((10 * (rows.len() - 1)) as u64))
    }
}

/// The board with its full rows sunk to the bottom.
pub open spec fn sunk(b: u64) -> u64 {
    stack(b, sink_order(b))
}

/// The field that leaving a piece at `s` leads to, from the field `hash`.
pub open spec fn child_of(hash: u64, s: Spot) -> u64 {
    mirrored(sunk(mirrored(hash) | s.word()))
}

/// Whether some resting place of the shape leads from the field `hash` to the field `child`.
pub open spec fn is_child(shape: int, hash: u64, child: u64) -> bool {
    exists|s: Spot| #[trigger] shapes::lands(shape, mirrored(hash), s) && child == child_of(hash, s)
}

pub proof fn lemma_mirrored(b: u64, i: int)
    ensures
        bits::bit(mirrored(b), i) == (0 <= i < 40 && bits::bit(b, mirror_index(i))),
{
    bits::lemma_from_bits(|i: int| bits::bit(b, mirror_index(i)), 40, i);
}

pub proof fn lemma_mirrored_small(b: u64)
    ensures
        mirrored(b) < 1u64 << 40,
{
    assert forall|i: int| 40 <= i implies !bits::bit(mirrored(b), i) by {
        lemma_mirrored(b, i);
    }
    bits::lemma_bits_below(mirrored(b), 40);
}

/// Mirroring a field twice gives it back.
pub proof fn law_mirror_involution(b: u64)
    requires
        b < 1u64 << 40,
    ensures
        mirrored(mirrored(b)) == b,
{
    bits::lemma_bits_below(b, 40);
    assert forall|i: int| 0 <= i < 64 implies bits::bit(mirrored(mirrored(b)), i) == bits::bit(
        b,
        i,
    ) by {
        lemma_mirrored(mirrored(b), i);
        lemma_mirrored(b, mirror_index(i));
    }
    bits::lemma_bits_equal(mirrored(mirrored(b)), b);
}

/// Column-mirror a board: bit `row * 10 + c` goes to `row * 10 + 9 - c`.
pub fn mirror(b: u64) -> (m: u64)
    ensures
        m == mirrored(b),
{
    broadcast use bits::group_bits;

    let mut m: u64 = 0;
    let mut i: u64 = 0;
    while i < 40
        invariant
            i <= 40,
            forall|j: int|
                #[trigger] bits::bit(m, j) == (0 <= j < i && bits::bit(b, mirror_index(j))),
        decreases 40 - i,
    {
        let from: u64 = (i / 10) * 10 + 9 - i % 10;
        let ghost before = m;
        if (b >> from) & 1 == 1 {
            m = m | (1u64 << i);
        }
        proof {
            assert(bits::bit(b, from as int) == ((b >> from) & 1 == 1)) by {
                reveal(bits::bit);
            }
            assert forall|j: int| #[trigger] bits::bit(m, j) == (0 <= j < i + 1 && bits::bit(
                b,
                mirror_index(j),
            )) by {
                bits::lemma_bit_one(i, j);
                bits::lemma_bit_or(before, 1u64 << i, j);
                assert(mirror_index(i as int) == from);
                assert(bits::bit(before, j) == (0 <= j < i && bits::bit(b, mirror_index(j))));
            }
        }
        i = i + 1;
    }
    proof {
        assert forall|j: int| 0 <= j < 64 implies bits::bit(m, j) == bits::bit(mirrored(b), j) by {
            lemma_mirrored(b, j);
        }
        bits::lemma_bits_equal(m, mirrored(b));
    }
    m
}

/// Sink the full rows of a board to the bottom.
pub fn sink_lines(filled: u64) -> (r: u64)
    ensures
        r == sunk(filled),
{
    let mut out: u64 = 0;
    let mut dst: u64 = 0;
    let mut r: u64 = 0;
    let ghost mut rows: Seq<int> = seq![];
    while r < 4
        invariant
            r <= 4,
            dst <= r,
            rows == full_rows(filled, r as nat),
            rows.len() == dst,
            dst + open_rows(filled, r as nat).len() == r,
            out == stack(filled, rows),
        decreases 4 - r,
    {
        let row: u64 = (filled >> (10 * r)) & 1023;
        if row == 1023 {
            proof {
                let next = rows.push(r as int);
                assert(next.drop_last() =~= rows);
                rows = next;
            }
            out = out | (row << (10 * dst));
            dst = dst + 1;
        }
        r = r + 1;
    }
    r = 0;
    let ghost full = rows;
    assert(full + open_rows(filled, 0) =~= full);
    while r < 4
        invariant
            r <= 4,
            full == full_rows(filled, 4),
            rows =~= full + open_rows(filled, r as nat),
            rows.len() == dst,
            dst <= full.len() + r,
            full.len() + open_rows(filled, 4).len() == 4,
            out == stack(filled, rows),
        decreases 4 - r,
    {
        let row: u64 = (filled >> (10 * r)) & 1023;
        if row != 1023 {
            proof {
                lemma_open_rows_grow(filled, (r + 1) as nat, 4);
                let next = rows.push(r as int);
                assert(next.drop_last() =~= rows);
                rows = next;
            }
            out = out | (row << (10 * dst));
            dst = dst + 1;
        }
        r = r + 1;
    }
    assert(rows =~= sink_order(filled));
    out
}

proof fn lemma_open_rows_grow(b: u64, m: nat, n: nat)
    requires
        m <= n,
    ensures
        open_rows(b, m).len() <= open_rows(b, n).len(),
    decreases n,
{
    if m < n {
        lemma_open_rows_grow(b, m, (n - 1) as nat);
    }
}

/// A falling piece.
#[derive(Clone, Copy)]
pub struct Piece {
    pub shape: usize,
    pub col: i32,
    pub row: i32,
    pub orient: usize,
}

impl View for Piece {
    type V = Spot;

    open spec fn view(&self) -> Spot {
        Spot {
            shape: self.shape as int,
            orient: self.orient as int,
            col: self.col as int,
            row: self.row as int,
        }
    }
}

impl Piece {
    /// Whether the piece overlaps the board.
    pub fn collides(self, board: u64) -> (r: bool)
        requires
            self@.known(),
            0 <= self.col <= 9,
            0 <= self.row <= 5,
        ensures
            r == self@.hits(board),
    {
        let at: u64 = (self.row * 10 + self.col) as u64;
        let mut i: usize = 0;
        while i < 4
            invariant
                i <= 4,
                self@.known(),
                at == self@.at(),
                at <= 59,
                forall|j: int| 0 <= j < i ==> !bits::bit(board, #[trigger] self@.cell_at(j)),
            decreases 4 - i,
        {
            proof {
                shapes::lemma_shape(self.shape as int, self.orient as int);
                assert(0 <= shapes::cell(self.shape as int, self.orient as int, i as int) <= 33);
            }
            let k: u64 = at + CELLS[self.shape][self.orient][i] as u64;
            assert(k == self@.cell_at(i as int));
            assert(bits::bit(board, k as int) == (k < 64 && (board >> k) & 1 == 1)) by {
                reveal(bits::bit);
            }
            if k < 64 && (board >> k) & 1 == 1 {
                return true;
            }
            i = i + 1;
        }
        false
    }

    /// Whether the bounding box lies inside the columns and at most two rows above the box.
    pub fn in_bounds(self) -> (r: bool)
        requires
            self@.known(),
        ensures
            r == self@.in_box(),
    {
        let max_col: i32 = PIECE_MAX_COLS[self.shape][self.orient];
        self.col >= 0 && self.col <= max_col && self.row >= 0 && self.row <= 5
    }

    fn fits(self, board: u64) -> (r: bool)
        requires
            self@.known(),
        ensures
            r == self@.fits(board),
    {
        proof {
            shapes::lemma_shape(self.shape as int, self.orient as int);
        }
        self.in_bounds() && !self.collides(board)
    }

    /// A number below `0x4000` that tells the piece's spot among those of its shape.
    pub fn pack(self) -> (r: u16)
        requires
            self@.known(),
            self@.in_box(),
        ensures
            r == pack_spot(self@),
            r < 0x4000,
    {
        proof {
            shapes::lemma_shape(self.shape as int, self.orient as int);
        }
        let (o, s, c, w): (u16, u16, u16, u16) = (
            self.orient as u16,
            self.shape as u16,
            self.col as u16,
            self.row as u16,
        );
        assert((o << 12) | (s << 8) | (c << 4) | w == o * 4096 + s * 256 + c * 16 + w)
            by (bit_vector)
            requires
                o < 4,
                s < 7,
                c < 10,
                w < 6,
        ;
        (o << 12) | (s << 8) | (c << 4) | w
    }

    pub fn left(self, board: u64) -> (r: Piece)
        requires
            self@.known(),
            self@.in_box(),
        ensures
            r@ == shapes::step(board, self@, 0),
    {
        proof {
            shapes::lemma_shape(self.shape as int, self.orient as int);
        }
        let n = Piece { col: self.col - 1, ..self };
        assert(n@ == self@.slid(-1, 0));
        if n.col < 0 || n.collides(board) {
            self
        } else {
            n
        }
    }

    pub fn right(self, board: u64) -> (r: Piece)
        requires
            self@.known(),
            self@.in_box(),
        ensures
            r@ == shapes::step(board, self@, 1),
    {
        proof {
            shapes::lemma_shape(self.shape as int, self.orient as int);
        }
        let n = Piece { col: self.col + 1, ..self };
        assert(n@ == self@.slid(1, 0));
        if n.col > PIECE_MAX_COLS[self.shape][self.orient] || n.collides(board) {
            self
        } else {
            n
        }
    }

    pub fn down(self, board: u64) -> (r: Piece)
        requires
            self@.known(),
            self@.in_box(),
        ensures
            r@ == shapes::step(board, self@, 2),
    {
        proof {
            shapes::lemma_shape(self.shape as int, self.orient as int);
        }
        let n = Piece { row: self.row - 1, ..self };
        assert(n@ == self@.slid(0, -1));
        if n.row < 0 || n.collides(board) {
            self
        } else {
            n
        }
    }

    /// Quarter turn clockwise: the first kick that fits.
    pub fn cw(self, board: u64) -> (r: Piece)
        requires
            self@.known(),
            self@.in_box(),
        ensures
            r@ == shapes::step(board, self@, 3),
    {
        let orient: usize = (self.orient + 1) % 4;
        let list = shapes::kicks(self.shape, self.orient);
        let ghost all = shapes::turn_kicks(self.shape as int, self.orient as int, 0);
        let mut k: usize = 0;
        while k < 5
            invariant
                k <= 5,
                self@.known(),
                self@.in_box(),
                orient == shapes::turn_target(self.orient as int, 0),
                orient < 4,
                all == shapes::turn_kicks(self.shape as int, self.orient as int, 0),
                list@ == shapes::quarter_kicks(self.shape as int, self.orient as int),
                shapes::step(board, self@, 3) == shapes::first_fit(
                    self@,
                    board,
                    orient as int,
                    all,
                    k as int,
                ),
            decreases 5 - k,
        {
            proof {
                shapes::lemma_kicks_small(self.shape as int, self.orient as int, 0, k as int);
                shapes::lemma_shape(self.shape as int, self.orient as int);
            }
            let (kc, kr): (i32, i32) = list[k];
            assert(all[k as int] == (kc as int, kr as int));
            let n = Piece { shape: self.shape, col: self.col + kc, row: self.row + kr, orient };
            assert(n@ == self@.kicked(orient as int, all[k as int]));
            if n.fits(board) {
                return n;
            }
            k = k + 1;
        }
        self
    }

    /// Quarter turn counterclockwise: the kicks of the turn that it undoes, backwards.
    pub fn ccw(self, board: u64) -> (r: Piece)
        requires
            self@.known(),
            self@.in_box(),
        ensures
            r@ == shapes::step(board, self@, 4),
    {
        let orient: usize = (self.orient + 3) % 4;
        let list = shapes::kicks(self.shape, orient);
        let ghost all = shapes::turn_kicks(self.shape as int, self.orient as int, 1);
        let mut k: usize = 0;
        while k < 5
            invariant
                k <= 5,
                self@.known(),
                self@.in_box(),
                orient == shapes::turn_target(self.orient as int, 1),
                orient < 4,
                all == shapes::turn_kicks(self.shape as int, self.orient as int, 1),
                list@ == shapes::quarter_kicks(self.shape as int, orient as int),
                shapes::step(board, self@, 4) == shapes::first_fit(
                    self@,
                    board,
                    orient as int,
                    all,
                    k as int,
                ),
            decreases 5 - k,
        {
            proof {
                shapes::lemma_kicks_small(self.shape as int, self.orient as int, 1, k as int);
                shapes::lemma_shape(self.shape as int, self.orient as int);
            }
            let (kc, kr): (i32, i32) = list[k];
            assert(all[k as int] == (-(kc as int), -(kr as int)));
            let n = Piece { shape: self.shape, col: self.col - kc, row: self.row - kr, orient };
            assert(n@ == self@.kicked(orient as int, all[k as int]));
            if n.fits(board) {
                return n;
            }
            k = k + 1;
        }
        self
    }

    /// Half turn: the first kick that fits; the bar only turns in place.
    pub fn half(self, board: u64) -> (r: Piece)
        requires
            self@.known(),
            self@.in_box(),
        ensures
            r@ == shapes::step(board, self@, 5),
    {
        let orient: usize = (self.orient + 2) % 4;
        let nkick: usize = if self.shape == 0 {
            1
        } else {
            HALF_N
        };
        let list = shapes::half_kicks(self.shape, self.orient);
        let ghost all = shapes::turn_kicks(self.shape as int, self.orient as int, 2);
        let mut k: usize = 0;
        while k < nkick
            invariant
                k <= nkick,
                nkick == shapes::half_count(self.shape as int),
                self@.known(),
                self@.in_box(),
                orient == shapes::turn_target(self.orient as int, 2),
                orient < 4,
                all == shapes::turn_kicks(self.shape as int, self.orient as int, 2),
                list@ == shapes::half_turn_kicks(self.shape as int, self.orient as int),
                shapes::step(board, self@, 5) == shapes::first_fit(
                    self@,
                    board,
                    orient as int,
                    all,
                    k as int,
                ),
            decreases nkick - k,
        {
            proof {
                shapes::lemma_kicks_small(self.shape as int, self.orient as int, 2, k as int);
                shapes::lemma_shape(self.shape as int, self.orient as int);
            }
            let (kc, kr): (i32, i32) = list[k];
            assert(all[k as int] == (kc as int, kr as int));
            let n = Piece { shape: self.shape, col: self.col + kc, row: self.row + kr, orient };
            assert(n@ == self@.kicked(orient as int, all[k as int]));
            if n.fits(board) {
                return n;
            }
            k = k + 1;
        }
        self
    }

    /// Whether the piece can be left here: inside the box and unable to move down.
    pub fn can_place(self, board: u64) -> (r: bool)
        requires
            self@.known(),
            self@.in_box(),
        ensures
            r == shapes::can_land(board, self@),
    {
        proof {
            shapes::lemma_shape(self.shape as int, self.orient as int);
        }
        let at: u32 = (self.row * 10 + self.col) as u32;
        let below = self.down(board);
        at + CELLS[self.shape][self.orient][3] < 40 && below.row == self.row
    }

    /// The word that holds the four cells.
    pub fn as_bits(self) -> (r: u64)
        requires
            self@.known(),
            self@.in_box(),
            self@.cell_at(3) < 64,
        ensures
            r == self@.word(),
    {
        proof {
            shapes::lemma_shape(self.shape as int, self.orient as int);
        }
        let at: u64 = (self.row * 10 + self.col) as u64;
        let c = CELLS[self.shape][self.orient];
        (1u64 << (at + c[0] as u64)) | (1u64 << (at + c[1] as u64)) | (1u64 << (at + c[2] as u64))
            | (1u64 << (at + c[3] as u64))
    }

    /// The board with the piece left here and full lines sunk.
    pub fn place(self, board: u64) -> (r: u64)
        requires
            self@.known(),
            self@.in_box(),
            self@.cell_at(3) < 64,
        ensures
            r == sunk(board | self@.word()),
    {
        sink_lines(board | self.as_bits())
    }
}

/// The number that tells a spot among those of its shape.
pub open spec fn pack_spot(s: Spot) -> int {
    s.orient * 4096 + s.shape * 256 + s.col * 16 + s.row
}

/// One resting place of a piece: the field that it leads to, and where the piece is. Column 0 is
/// the leftmost and row 0 the bottom row of the field, in which cleared lines still lie sunk.
#[derive(Clone, Copy, Debug)]
pub struct Placement {
    pub child_hash: u64,
    pub orient: u8,
    pub col: i8,
    pub row: i8,
    /// The four cells as (column, row).
    pub cells: [(i8, i8); 4],
}

impl Placement {
    /// Where the piece rests.
    pub open spec fn spot(self, shape: int) -> Spot {
        Spot { shape, orient: self.orient as int, col: self.col as int, row: self.row as int }
    }

    /// The placement tells truly what resting at its spot means for the field `hash`.
    pub open spec fn shows(self, shape: int, hash: u64) -> bool {
        &&& self.child_hash == child_of(hash, self.spot(shape))
        &&& forall|i: int|
            #![trigger self.cells@[i]]
            0 <= i < 4 ==> {
                &&& self.cells@[i].0 == self.spot(shape).cell_at(i) % 10
                &&& self.cells@[i].1 == self.spot(shape).cell_at(i) / 10
            }
    }
}

/// The placements are those of the resting places, each once.
pub open spec fn placements_of(shape: int, hash: u64, list: Seq<Placement>) -> bool {
    &&& forall|i: int|
        0 <= i < list.len() ==> shapes::lands(
            shape,
            mirrored(hash),
            (#[trigger] list[i]).spot(shape),
        ) && list[i].shows(shape, hash)
    &&& forall|s: Spot| #[trigger]
        shapes::lands(shape, mirrored(hash), s) ==> exists|i: int|
            0 <= i < list.len() && (#[trigger] list[i]).spot(shape) == s
    &&& forall|i: int, j: int|
        0 <= i < j < list.len() ==> (#[trigger] list[i]).spot(shape) != (#[trigger] list[j]).spot(
            shape,
        )
}

/* ---- the order of placements ---- */

/// Spots that wait, the next one last, and all spots that ever waited.
pub struct Walk {
    pub waiting: Seq<Spot>,
    pub seen: Set<Spot>,
}

/// The spot waits unless it ever did.
pub open spec fn joined(w: Walk, s: Spot) -> Walk {
    if w.seen.contains(s) {
        w
    } else {
        Walk { waiting: w.waiting.push(s), seen: w.seen.insert(s) }
    }
}

/// The entries wait: orientation by orientation, each from the left, the first `n` of ten columns
/// each.
pub open spec fn entered(shape: int, n: nat) -> Walk
    decreases n,
{
    if n == 0 {
        Walk { waiting: seq![], seen: Set::empty() }
    } else {
        let s = Spot { shape, orient: (n - 1) / 10, col: (n - 1) % 10, row: 4 };
        if s.in_box() {
            joined(entered(shape, (n - 1) as nat), s)
        } else {
            entered(shape, (n - 1) as nat)
        }
    }
}

/// What the first `n` moves from a spot lead to waits.
pub open spec fn stepped(board: u64, w: Walk, s: Spot, n: nat) -> Walk
    decreases n,
{
    if n == 0 {
        w
    } else {
        joined(stepped(board, w, s, (n - 1) as nat), shapes::step(board, s, n - 1))
    }
}

/// Where a piece can be left, in the order in which a walk comes by, over at most `n` spots.
pub open spec fn walked_over(board: u64, w: Walk, n: nat) -> Seq<Spot>
    decreases n,
{
    if n == 0 || w.waiting.len() == 0 {
        seq![]
    } else {
        let s = w.waiting.last();
        let less = Walk { waiting: w.waiting.drop_last(), seen: w.seen };
        let rest = walked_over(board, stepped(board, less, s, 6), (n - 1) as nat);
        if shapes::can_land(board, s) {
            seq![s] + rest
        } else {
            rest
        }
    }
}

/// The resting places of a shape on a board, in order. No walk comes by more spots than there are
/// room for.
pub open spec fn rest_order(shape: int, board: u64) -> Seq<Spot> {
    walked_over(board, entered(shape, 40), 0x8000)
}

/// The placements stand in that order.
pub open spec fn in_rest_order(shape: int, hash: u64, list: Seq<Placement>) -> bool {
    spots(shape, list) == rest_order(shape, mirrored(hash))
}

/// The spots of placements.
pub open spec fn spots(shape: int, list: Seq<Placement>) -> Seq<Spot> {
    Seq::new(list.len(), |i: int| list[i].spot(shape))
}

/// The placements that reach a child are those that movement generation finds: a field is a child
/// exactly when some placement leads to it.
pub proof fn law_placements_give_children(shape: int, hash: u64, list: Seq<Placement>, child: u64)
    requires
        placements_of(shape, hash, list),
    ensures
        is_child(shape, hash, child) <==> exists|i: int|
            0 <= i < list.len() && (#[trigger] list[i]).child_hash == child,
{
    if is_child(shape, hash, child) {
        let s = choose|s: Spot| #[trigger]
            shapes::lands(shape, mirrored(hash), s) && child == child_of(hash, s);
        let i = choose|i: int| 0 <= i < list.len() && (#[trigger] list[i]).spot(shape) == s;
        assert(list[i].child_hash == child);
    }
    if exists|i: int| 0 <= i < list.len() && (#[trigger] list[i]).child_hash == child {
        let i = choose|i: int| 0 <= i < list.len() && (#[trigger] list[i]).child_hash == child;
        assert(shapes::lands(shape, mirrored(hash), list[i].spot(shape)));
    }
}

/// A spot of the shape inside the bounds.
spec fn placed_in_box(shape: int, s: Spot) -> bool {
    s.known() && s.shape == shape && s.in_box()
}

spec fn queued(queue: Seq<Piece>, s: Spot) -> bool {
    exists|k: int| 0 <= k < queue.len() && (#[trigger] queue[k])@ == s
}

/// The state of the exploration: exactly the spots queued or done are marked as seen, and all of
/// them are reachable.
spec fn explored(
    shape: int,
    board: u64,
    seen: Seq<bool>,
    queue: Seq<Piece>,
    done: Seq<Spot>,
) -> bool {
    &&& seen.len() == 0x4000
    &&& forall|k: int|
        0 <= k < queue.len() ==> placed_in_box(shape, (#[trigger] queue[k])@) && shapes::reachable(
            shape,
            board,
            queue[k]@,
        ) && !done.contains(queue[k]@)
    &&& forall|a: int, b: int|
        0 <= a < b < queue.len() ==> (#[trigger] queue[a])@ != (#[trigger] queue[b])@
    &&& forall|s: Spot| #[trigger]
        done.contains(s) ==> placed_in_box(shape, s) && shapes::reachable(shape, board, s)
    &&& forall|s: Spot|
        placed_in_box(shape, s) ==> (seen[#[trigger] pack_spot(s)] <==> (queued(queue, s)
            || done.contains(s)))
}

proof fn lemma_pack_spot(shape: int, s: Spot, t: Spot)
    requires
        0 <= shape < 7,
        placed_in_box(shape, s),
        placed_in_box(shape, t),
    ensures
        0 <= pack_spot(s) < 0x4000,
        pack_spot(s) == pack_spot(t) ==> s == t,
{
    shapes::lemma_shape(s.shape, s.orient);
    shapes::lemma_shape(t.shape, t.orient);
    if pack_spot(s) == pack_spot(t) {
        assert(s.row == t.row);
        assert(s.col == t.col);
    }
}

/// The walk is the one that the queue and the marks stand for.
spec fn stands_for(shape: int, seen: Seq<bool>, queue: Seq<Piece>, w: Walk) -> bool {
    &&& w.waiting == Seq::new(queue.len(), |i: int| queue[i]@)
    &&& forall|s: Spot|
        placed_in_box(shape, s) ==> (seen[#[trigger] pack_spot(s)] <==> w.seen.contains(s))
}

/// How many entries are still unmarked.
spec fn unseen(seen: Seq<bool>) -> nat
    decreases seen.len(),
{
    if seen.len() == 0 {
        0
    } else {
        unseen(seen.drop_last()) + (if seen.last() {
            0nat
        } else {
            1nat
        })
    }
}

proof fn lemma_unseen_all(seen: Seq<bool>)
    ensures
        unseen(seen) <= seen.len(),
    decreases seen.len(),
{
    if seen.len() > 0 {
        lemma_unseen_all(seen.drop_last());
    }
}

proof fn lemma_unseen_update(seen: Seq<bool>, i: int)
    requires
        0 <= i < seen.len(),
        !seen[i],
    ensures
        unseen(seen.update(i, true)) + 1 == unseen(seen),
    decreases seen.len(),
{
    let next = seen.update(i, true);
    if i == seen.len() - 1 {
        assert(next.drop_last() =~= seen.drop_last());
    } else {
        assert(next.drop_last() =~= seen.drop_last().update(i, true));
        lemma_unseen_update(seen.drop_last(), i);
    }
}

/// Queue a spot unless it has been seen.
fn visit(
    np: Piece,
    seen: &mut Vec<bool>,
    queue: &mut Vec<Piece>,
    Ghost(shape): Ghost<int>,
    Ghost(board): Ghost<u64>,
    Ghost(done): Ghost<Seq<Spot>>,
    Ghost(w): Ghost<Walk>,
)
    requires
        0 <= shape < 7,
        placed_in_box(shape, np@),
        shapes::reachable(shape, board, np@),
        explored(shape, board, old(seen)@, old(queue)@, done),
        stands_for(shape, old(seen)@, old(queue)@, w),
    ensures
        explored(shape, board, final(seen)@, final(queue)@, done),
        stands_for(shape, final(seen)@, final(queue)@, joined(w, np@)),
        final(seen)@[pack_spot(np@)],
        forall|i: int| 0 <= i < 0x4000 && old(seen)@[i] ==> #[trigger] final(seen)@[i],
        2 * unseen(final(seen)@) + final(queue)@.len() <= 2 * unseen(old(seen)@) + old(
            queue,
        )@.len(),
{
    let k: usize = np.pack() as usize;
    if !seen[k] {
        proof {
            lemma_unseen_update(seen@, k as int);
            lemma_pack_spot(shape, np@, np@);
            assert(!queued(queue@, np@));
            let was = queue@;
            let now = was.push(np);
            let marked = seen@.update(k as int, true);
            assert forall|s: Spot| placed_in_box(shape, s) implies (marked[#[trigger] pack_spot(s)]
                <==> (queued(now, s) || done.contains(s))) by {
                lemma_pack_spot(shape, s, np@);
                if queued(was, s) {
                    let j = choose|j: int| 0 <= j < was.len() && (#[trigger] was[j])@ == s;
                    assert(now[j]@ == s);
                }
                if s == np@ {
                    assert(now[was.len() as int]@ == s);
                }
                if queued(now, s) {
                    let j = choose|j: int| 0 <= j < now.len() && (#[trigger] now[j])@ == s;
                    if j < was.len() {
                        assert(was[j]@ == s);
                    }
                }
            }
            assert forall|a: int, b: int| 0 <= a < b < now.len() implies (#[trigger] now[a])@ != (
            #[trigger] now[b])@ by {
                if b == was.len() {
                    assert(was[a]@ == now[a]@);
                }
            }
        }
        let ghost a = seen@;
        seen.set(k, true);
        queue.push(np);
        proof {
            let next = joined(w, np@);
            assert(next.waiting =~= Seq::new(queue@.len(), |i: int| queue@[i]@));
            assert forall|s: Spot| placed_in_box(shape, s) implies (seen@[#[trigger] pack_spot(s)]
                <==> next.seen.contains(s)) by {
                lemma_pack_spot(shape, s, np@);
                assert(a[pack_spot(s)] <==> w.seen.contains(s));
            }
        }
    }
}

/// Every resting place of the shape on the field `board_hash`, one entry per reachable state.
/// Orientations with the same cells appear separately.
pub fn placements(shape: usize, board_hash: u64) -> (out: Vec<Placement>)
    requires
        shape < 7,
    ensures
        placements_of(shape as int, board_hash, out@),
        in_rest_order(shape as int, board_hash, out@),
{
    let board: u64 = mirror(board_hash);
    let ghost sh: int = shape as int;
    proof {
        lemma_mirrored_small(board_hash);
    }
    let mut seen: Vec<bool> = vec![false; 0x4000];
    let mut queue: Vec<Piece> = Vec::new();
    let ghost mut done: Seq<Spot> = seq![];
    let ghost mut w: Walk = entered(sh, 0);
    proof {
        lemma_unseen_all(seen@);
        assert(w.waiting =~= Seq::new(0, |i: int| queue@[i]@));
        assert forall|s: Spot| placed_in_box(sh, s) implies !seen@[#[trigger] pack_spot(s)] by {
            lemma_pack_spot(sh, s, s);
        }
    }
    let mut orient: usize = 0;
    while orient < 4
        invariant
            orient <= 4,
            shape < 7,
            sh == shape,
            w == entered(sh, (10 * orient) as nat),
            stands_for(sh, seen@, queue@, w),
            2 * unseen(seen@) + queue@.len() <= 0x8000,
            explored(sh, board, seen@, queue@, done),
            done.len() == 0,
            forall|s: Spot|
                shapes::spawns(sh, s) && s.orient < orient ==> seen@[#[trigger] pack_spot(s)],
        decreases 4 - orient,
    {
        let mut col: i32 = 0;
        while col < 10
            invariant
                0 <= col <= 10,
                orient < 4,
                shape < 7,
                sh == shape,
                w == entered(sh, (10 * orient + col) as nat),
                stands_for(sh, seen@, queue@, w),
                2 * unseen(seen@) + queue@.len() <= 0x8000,
                explored(sh, board, seen@, queue@, done),
                done.len() == 0,
                forall|s: Spot|
                    shapes::spawns(sh, s) && (s.orient < orient || (s.orient == orient && s.col
                        < col)) ==> seen@[#[trigger] pack_spot(s)],
            decreases 10 - col,
        {
            let p = Piece { shape, col, row: 4, orient };
            let ghost before = seen@;
            if p.in_bounds() {
                proof {
                    shapes::lemma_spawn_reachable(sh, board, p@);
                }
                visit(p, &mut seen, &mut queue, Ghost(sh), Ghost(board), Ghost(done), Ghost(w));
            }
            proof {
                let n = (10 * orient + col + 1) as nat;
                assert((n - 1) / 10 == orient && (n - 1) % 10 == col);
                assert(p@ == (Spot { shape: sh, orient: (n - 1) / 10, col: (n - 1) % 10, row: 4 }));
                w = entered(sh, n);
                assert forall|s: Spot|
                    shapes::spawns(sh, s) && (s.orient < orient || (s.orient == orient && s.col
                        < col + 1)) implies seen@[#[trigger] pack_spot(s)] by {
                    lemma_pack_spot(sh, s, s);
                    if s.orient == orient && s.col == col {
                        assert(s == p@);
                    } else {
                        assert(before[pack_spot(s)]);
                    }
                }
            }
            col = col + 1;
        }
        proof {
            assert forall|s: Spot| shapes::spawns(sh, s) && s.orient < orient + 1 implies seen@[
            #[trigger] pack_spot(s)] by {
                shapes::lemma_shape(s.shape, s.orient);
            }
        }
        orient = orient + 1;
    }
    let mut out: Vec<Placement> = Vec::new();
    let ghost mut room: nat = 0x8000;
    assert(spots(sh, out@) + walked_over(board, w, room) =~= rest_order(sh, board));
    loop
        invariant
            shape < 7,
            sh == shape,
            board == mirrored(board_hash),
            board < 1u64 << 40,
            stands_for(sh, seen@, queue@, w),
            2 * unseen(seen@) + queue@.len() <= room,
            spots(sh, out@) + walked_over(board, w, room) == rest_order(sh, board),
            explored(sh, board, seen@, queue@, done),
            forall|s: Spot| shapes::spawns(sh, s) ==> seen@[#[trigger] pack_spot(s)],
            forall|s: Spot, mv: int|
                done.contains(s) && 0 <= mv < 6 ==> seen@[pack_spot(
                    #[trigger] shapes::step(board, s, mv),
                )],
            forall|s: Spot| #[trigger]
                done.contains(s) && shapes::can_land(board, s) ==> exists|i: int|
                    0 <= i < out@.len() && (#[trigger] out@[i]).spot(sh) == s,
            forall|i: int|
                0 <= i < out@.len() ==> done.contains((#[trigger] out@[i]).spot(sh))
                    && shapes::lands(sh, board, out@[i].spot(sh)) && out@[i].shows(sh, board_hash),
            forall|i: int, j: int|
                0 <= i < j < out@.len() ==> (#[trigger] out@[i]).spot(sh) != (
                #[trigger] out@[j]).spot(sh),
        ensures
            queue@.len() == 0,
            w.waiting.len() == 0,
        decreases 2 * unseen(seen@) + queue@.len(),
    {
        let ghost was_queue = queue@;
        let ghost was_walk = w;
        let ghost was_done = done;
        let ghost was_seen = seen@;
        let p = match queue.pop() {
            Some(p) => p,
            None => {
                break ;
            },
        };
        proof {
            let n = was_queue.len() - 1;
            assert(was_queue[n] == p);
            done = was_done.push(p@);
            assert(done.last() == p@);
            assert forall|s: Spot| #[trigger] done.contains(s) <==> was_done.contains(s) || s == p@ by {
                if was_done.contains(s) {
                    let j = choose|j: int| 0 <= j < was_done.len() && was_done[j] == s;
                    assert(done[j] == s);
                }
            }
            assert forall|s: Spot| placed_in_box(sh, s) implies (seen@[#[trigger] pack_spot(s)]
                <==> (queued(queue@, s) || done.contains(s))) by {
                if queued(was_queue, s) && s != p@ {
                    let j = choose|j: int|
                        0 <= j < was_queue.len() && (#[trigger] was_queue[j])@ == s;
                    assert(queue@[j]@ == s);
                }
                if queued(queue@, s) {
                    let j = choose|j: int| 0 <= j < queue@.len() && (#[trigger] queue@[j])@ == s;
                    assert(was_queue[j]@ == s);
                }
            }
            assert forall|k: int| 0 <= k < queue@.len() implies placed_in_box(
                sh,
                (#[trigger] queue@[k])@,
            ) && shapes::reachable(sh, board, queue@[k]@) && !done.contains(queue@[k]@) by {
                assert(was_queue[k] == queue@[k]);
                assert(was_queue[k]@ != was_queue[n]@);
            }
            assert(explored(sh, board, seen@, queue@, done));
            assert(was_walk.waiting.last() == p@);
            w = Walk { waiting: was_walk.waiting.drop_last(), seen: was_walk.seen };
            assert(w.waiting =~= Seq::new(queue@.len(), |i: int| queue@[i]@));
            assert(stands_for(sh, seen@, queue@, w));
            shapes::lemma_reachable_fits(sh, board, p@);
            assert forall|mv: int| 0 <= mv < 6 implies placed_in_box(
                sh,
                #[trigger] shapes::step(board, p@, mv),
            ) && shapes::reachable(sh, board, shapes::step(board, p@, mv)) by {
                shapes::lemma_step_fits(board, p@, mv);
                shapes::lemma_step_reachable(sh, board, p@, mv);
            }
        }
        visit(
            p.left(board),
            &mut seen,
            &mut queue,
            Ghost(sh),
            Ghost(board),
            Ghost(done),
            Ghost(stepped(board, w, p@, 0)),
        );
        visit(
            p.right(board),
            &mut seen,
            &mut queue,
            Ghost(sh),
            Ghost(board),
            Ghost(done),
            Ghost(stepped(board, w, p@, 1)),
        );
        visit(
            p.down(board),
            &mut seen,
            &mut queue,
            Ghost(sh),
            Ghost(board),
            Ghost(done),
            Ghost(stepped(board, w, p@, 2)),
        );
        visit(
            p.cw(board),
            &mut seen,
            &mut queue,
            Ghost(sh),
            Ghost(board),
            Ghost(done),
            Ghost(stepped(board, w, p@, 3)),
        );
        visit(
            p.ccw(board),
            &mut seen,
            &mut queue,
            Ghost(sh),
            Ghost(board),
            Ghost(done),
            Ghost(stepped(board, w, p@, 4)),
        );
        visit(
            p.half(board),
            &mut seen,
            &mut queue,
            Ghost(sh),
            Ghost(board),
            Ghost(done),
            Ghost(stepped(board, w, p@, 5)),
        );
        proof {
            assert forall|s: Spot, mv: int| done.contains(s) && 0 <= mv < 6 implies seen@[pack_spot(
                #[trigger] shapes::step(board, s, mv),
            )] by {
                if s == p@ {
                    assert(mv == 0 || mv == 1 || mv == 2 || mv == 3 || mv == 4 || mv == 5);
                    lemma_pack_spot(
                        sh,
                        shapes::step(board, s, mv),
                        shapes::step(board, s, mv),
                    );
                } else {
                    assert(was_done.contains(s));
                    assert(was_seen[pack_spot(shapes::step(board, s, mv))]);
                    shapes::lemma_reachable_fits(sh, board, s);
                    shapes::lemma_step_fits(board, s, mv);
                    lemma_pack_spot(
                        sh,
                        shapes::step(board, s, mv),
                        shapes::step(board, s, mv),
                    );
                }
            }
            assert forall|s: Spot| shapes::spawns(sh, s) implies seen@[#[trigger] pack_spot(s)] by {
                lemma_pack_spot(sh, s, s);
                assert(was_seen[pack_spot(s)]);
            }
        }
        let ghost was_out = out@;
        let ghost next = stepped(board, w, p@, 6);
        if p.can_place(board) {
            let made = placement_at(p, board, board_hash);
            proof {
                assert(made.spot(sh) == p@);
                assert forall|i: int, j: int| 0 <= i < j < was_out.len() + 1 implies (
                #[trigger] was_out.push(made)[i]).spot(sh) != (#[trigger] was_out.push(
                    made,
                )[j]).spot(sh) by {
                    if j == was_out.len() {
                        assert(was_done.contains(was_out[i].spot(sh)));
                    }
                }
            }
            out.push(made);
            assert(spots(sh, out@) =~= spots(sh, was_out).push(p@));
        }
        proof {
            let rest = walked_over(board, next, (room - 1) as nat);
            if shapes::can_land(board, p@) {
                assert(spots(sh, was_out) + (seq![p@] + rest) =~= spots(sh, out@) + rest);
            }
            w = next;
            room = (room - 1) as nat;
            assert forall|s: Spot| #[trigger]
                done.contains(s) && shapes::can_land(board, s) implies exists|i: int|
                0 <= i < out@.len() && (#[trigger] out@[i]).spot(sh) == s by {
                if s == p@ {
                    assert(out@[was_out.len() as int].spot(sh) == s);
                } else {
                    assert(was_done.contains(s));
                    let i = choose|i: int|
                        0 <= i < was_out.len() && (#[trigger] was_out[i]).spot(sh) == s;
                    assert(out@[i].spot(sh) == s);
                }
            }
        }
    }
    assert(spots(sh, out@) + Seq::<Spot>::empty() =~= spots(sh, out@));
    proof {
        let within = |s: Spot| done.contains(s);
        assert forall|s: Spot| #[trigger] shapes::spawns(sh, s) implies within(s) by {
            assert(seen@[pack_spot(s)]);
            assert(placed_in_box(sh, s));
        }
        assert forall|s: Spot, mv: int| within(s) && 0 <= mv < 6 implies within(
            #[trigger] shapes::step(board, s, mv),
        ) by {
            shapes::lemma_reachable_fits(sh, board, s);
            shapes::lemma_step_fits(board, s, mv);
            assert(placed_in_box(sh, shapes::step(board, s, mv)));
            assert(seen@[pack_spot(shapes::step(board, s, mv))]);
        }
        assert forall|s: Spot| #[trigger] shapes::lands(sh, board, s) implies exists|i: int|
            0 <= i < out@.len() && (#[trigger] out@[i]).spot(sh) == s by {
            shapes::lemma_closed_holds(sh, board, within, s);
            assert(done.contains(s));
        }
    }
    out
}

/// The placement of a piece that can be left where it is.
fn placement_at(p: Piece, board: u64, board_hash: u64) -> (made: Placement)
    requires
        p@.known(),
        p@.in_box(),
        shapes::can_land(board, p@),
        board == mirrored(board_hash),
    ensures
        made.spot(p.shape as int) == p@,
        made.shows(p.shape as int, board_hash),
{
    proof {
        shapes::lemma_shape(p.shape as int, p.orient as int);
    }
    let at: u32 = (p.row * 10 + p.col) as u32;
    let mut cells: [(i8, i8); 4] = [(0, 0); 4];
    let mut n: usize = 0;
    while n < 4
        invariant
            n <= 4,
            p@.known(),
            p@.in_box(),
            p@.cell_at(3) < 40,
            at == p@.at(),
            forall|i: int|
                #![trigger cells@[i]]
                0 <= i < n ==> cells@[i].0 == p@.cell_at(i) % 10 && cells@[i].1 == p@.cell_at(i)
                    / 10,
        decreases 4 - n,
    {
        proof {
            shapes::lemma_shape(p.shape as int, p.orient as int);
            assert(0 <= shapes::cell(p.shape as int, p.orient as int, n as int)
                <= shapes::cell(p.shape as int, p.orient as int, 3));
        }
        let k: u32 = at + CELLS[p.shape][p.orient][n];
        assert(k == p@.cell_at(n as int));
        cells[n] = ((k % 10) as i8, (k / 10) as i8);
        n = n + 1;
    }
    Placement {
        child_hash: mirror(p.place(board)),
        orient: p.orient as u8,
        col: p.col as i8,
        row: p.row as i8,
        cells,
    }
}

/// Strictly ascending.
pub open spec fn ascending(s: Seq<u64>) -> bool {
    forall|i: int, j: int| 0 <= i < j < s.len() ==> s[i] < s[j]
}

/// Put a value into an ascending list unless it is there.
fn insert_sorted(out: &mut Vec<u64>, v: u64)
    requires
        ascending(old(out)@),
    ensures
        ascending(final(out)@),
        forall|x: u64| #[trigger] final(out)@.contains(x) <==> old(out)@.contains(x) || x == v,
{
    let mut k: usize = 0;
    while k < out.len() && out[k] < v
        invariant
            k <= out@.len(),
            out@ == old(out)@,
            ascending(out@),
            forall|i: int| 0 <= i < k ==> out@[i] < v,
        decreases out@.len() - k,
    {
        k = k + 1;
    }
    let ghost was = out@;
    if k < out.len() && out[k] == v {
        assert(was[k as int] == v);
        return ;
    }
    out.insert(k, v);
    proof {
        let now = out@;
        assert forall|x: u64| #[trigger] now.contains(x) <==> was.contains(x) || x == v by {
            if was.contains(x) {
                let j = choose|j: int| 0 <= j < was.len() && was[j] == x;
                if j < k {
                    assert(now[j] == x);
                } else {
                    assert(now[j + 1] == x);
                }
            }
            if x == v {
                assert(now[k as int] == x);
            }
            if now.contains(x) {
                let j = choose|j: int| 0 <= j < now.len() && now[j] == x;
                if j < k {
                    assert(was[j] == x);
                } else if j > k {
                    assert(was[j - 1] == x);
                }
            }
        }
        assert forall|i: int, j: int| 0 <= i < j < now.len() implies now[i] < now[j] by {
            if k < was.len() {
                assert(was[k as int] > v);
            }
            if i < k && j < k {
                assert(was[i] < was[j]);
            } else if i < k && j > k {
                assert(was[i] < was[j - 1]);
            } else if i == k && j > k {
                assert(was[k as int] <= was[j - 1]);
            } else if i > k {
                assert(was[i - 1] < was[j - 1]);
            }
        }
    }
}

/// Bit `k` of the word of a spot whose cells all lie below bit 64.
pub proof fn lemma_word(s: Spot, k: int)
    requires
        s.known(),
        0 <= s.at(),
        s.cell_at(3) < 64,
    ensures
        bits::bit(s.word(), k) == (k == s.cell_at(0) || k == s.cell_at(1) || k == s.cell_at(2)
            || k == s.cell_at(3)),
{
    shapes::lemma_shape(s.shape, s.orient);
    let a: u64 = 1u64 << (s.cell_at(0) as u64);
    let b: u64 = 1u64 << (s.cell_at(1) as u64);
    let c: u64 = 1u64 << (s.cell_at(2) as u64);
    let d: u64 = 1u64 << (s.cell_at(3) as u64);
    bits::lemma_bit_one(s.cell_at(0) as u64, k);
    bits::lemma_bit_one(s.cell_at(1) as u64, k);
    bits::lemma_bit_one(s.cell_at(2) as u64, k);
    bits::lemma_bit_one(s.cell_at(3) as u64, k);
    bits::lemma_bit_or(a, b, k);
    bits::lemma_bit_or(a | b, c, k);
    bits::lemma_bit_or(a | b | c, d, k);
}

/// Moving the word of a shape to a position gives the word of the spot there.
proof fn lemma_word_moved(shape: int, orient: int, p: u64)
    requires
        0 <= shape < 7,
        0 <= orient < 4,
        p < 60,
        movebits::spot_at(shape, orient, p as int).cell_at(3) < 40,
    ensures
        movebits::spot_at(shape, orient, 0).word() << p == movebits::spot_at(
            shape,
            orient,
            p as int,
        ).word(),
{
    let z = movebits::spot_at(shape, orient, 0);
    let s = movebits::spot_at(shape, orient, p as int);
    shapes::lemma_shape(shape, orient);
    assert(s.at() == p);
    assert(z.at() == 0);
    assert forall|k: int| 0 <= k < 64 implies bits::bit(z.word() << p, k) == bits::bit(
        s.word(),
        k,
    ) by {
        bits::lemma_bit_shl(z.word(), p, k);
        lemma_word(z, k - p);
        lemma_word(s, k);
    }
    bits::lemma_bits_equal(z.word() << p, s.word());
}

/// A position whose cells are in the box and below which there is no room.
spec fn rests(oi: BpOrient, r: u64, f: u64, i: int) -> bool {
    bits::bit(r, i) && !bits::bit(f, i - 10) && bits::bit(oi.placeable, i)
}

proof fn lemma_rests(shape: int, orient: int, board: u64, oi: BpOrient, r: u64, f: u64, i: int)
    requires
        0 <= shape < 7,
        0 <= orient < 4,
        oi.describes(shape, orient),
        movebits::sound(r, shape, orient, board),
        movebits::holds_fits(f, shape, orient, board),
        bits::bit(r, i),
    ensures
        rests(oi, r, f, i) <==> shapes::can_land(board, movebits::spot_at(shape, orient, i)),
        0 <= i < 60,
        shapes::reachable(shape, board, movebits::spot_at(shape, orient, i)),
        rests(oi, r, f, i) ==> movebits::spot_at(shape, orient, i).cell_at(3) < 40,
{
    let s = movebits::spot_at(shape, orient, i);
    assert(s.fits(board));
    if i >= 10 {
        assert(s.slid(0, -1) == movebits::spot_at(shape, orient, i - 10));
    }
    bits::lemma_bit_range(f, i - 10);
}

/// The rows of ten columns, reversed.
spec fn reverses(rev: Seq<u16>) -> bool {
    &&& rev.len() == 1024
    &&& forall|x: int, c: int|
        0 <= x < 1024 ==> #[trigger] bits::bit(rev[x] as u64, c) == (0 <= c < 10 && bits::bit(
            x as u64,
            9 - c,
        ))
}

/// Reverse the low ten bits.
fn reverse_row(x: u64) -> (r: u64)
    requires
        x < 1024,
    ensures
        r < 1024,
        forall|c: int| #[trigger]
            bits::bit(r, c) == (0 <= c < 10 && bits::bit(x, 9 - c)),
{
    let mut r: u64 = 0;
    let mut c: u64 = 0;
    proof {
        assert forall|j: int| !#[trigger] bits::bit(r, j) by {
            bits::lemma_bit_zero(j);
        }
    }
    while c < 10
        invariant
            c <= 10,
            forall|j: int| #[trigger]
                bits::bit(r, j) == (0 <= j < c && bits::bit(x, 9 - j)),
        decreases 10 - c,
    {
        let from: u64 = 9 - c;
        let ghost before = r;
        if (x >> from) & 1 == 1 {
            r = r | (1u64 << c);
        }
        proof {
            assert(bits::bit(x, from as int) == ((x >> from) & 1 == 1)) by {
                reveal(bits::bit);
            }
            assert forall|j: int| #[trigger]
                bits::bit(r, j) == (0 <= j < c + 1 && bits::bit(x, 9 - j)) by {
                bits::lemma_bit_one(c, j);
                bits::lemma_bit_or(before, 1u64 << c, j);
                assert(bits::bit(before, j) == (0 <= j < c && bits::bit(x, 9 - j)));
            }
        }
        c = c + 1;
    }
    proof {
        bits::lemma_bits_below(r, 10);
        assert(1u64 << 10 == 1024) by (bit_vector);
    }
    r
}

/// Row `k` of a board after looking its ten bits up.
proof fn lemma_row_lookup(b: u64, s: u64, v: u64, i: int)
    requires
        s == 0 || s == 10 || s == 20 || s == 30,
        forall|c: int| #[trigger]
            bits::bit(v, c) == (0 <= c < 10 && bits::bit((b >> s) & 1023, 9 - c)),
    ensures
        bits::bit(v << s, i) == (s <= i < s + 10 && bits::bit(b, mirror_index(i))),
{
    bits::lemma_bit_shl(v, s, i);
    bits::lemma_bit_and(b >> s, 1023, 9 - (i - s));
    bits::lemma_bit_low_ten(9 - (i - s));
    bits::lemma_bit_shr(b, s, 9 - (i - s));
    bits::lemma_bit_range(v, i - s);
}

/// Move generator: finds the children of a field with all positions of an orientation in one word.
pub struct MoveGen {
    rev: Vec<u16>,
    bp: Vec<Option<BpShape>>,
    not_col0: u64,
    not_col9: u64,
}

impl Default for MoveGen {
    fn default() -> (g: MoveGen)
        ensures
            g.wf(),
    {
        MoveGen::new()
    }
}

impl MoveGen {
    /// The tables agree with the rules; shapes are tabulated on first use.
    pub closed spec fn wf(&self) -> bool {
        &&& reverses(self.rev@)
        &&& self.bp@.len() == 7
        &&& forall|s: int|
            0 <= s < 7 && (#[trigger] self.bp@[s]) is Some ==> self.bp@[s]->0.describes(s)
        &&& forall|i: int| 0 <= i < 60 ==> #[trigger] bits::bit(self.not_col0, i) == (i % 10 != 0)
        &&& forall|i: int| 0 <= i < 60 ==> #[trigger] bits::bit(self.not_col9, i) == (i % 10 != 9)
    }

    pub fn new() -> (g: MoveGen)
        ensures
            g.wf(),
    {
        let mut rev: Vec<u16> = Vec::new();
        let mut x: u64 = 0;
        while x < 1024
            invariant
                x <= 1024,
                rev@.len() == x,
                forall|y: int, c: int|
                    0 <= y < x ==> #[trigger] bits::bit(rev@[y] as u64, c) == (0 <= c < 10
                        && bits::bit(y as u64, 9 - c)),
            decreases 1024 - x,
        {
            rev.push(reverse_row(x) as u16);
            x = x + 1;
        }
        let mut bp: Vec<Option<BpShape>> = Vec::new();
        let mut s: usize = 0;
        while s < 7
            invariant
                s <= 7,
                bp@.len() == s,
                forall|t: int| 0 <= t < s ==> #[trigger] bp@[t] is None,
            decreases 7 - s,
        {
            bp.push(None);
            s = s + 1;
        }
        MoveGen {
            rev,
            bp,
            not_col0: movebits::colguard(-1),
            not_col9: movebits::colguard(1),
        }
    }

    fn mirror(&self, b: u64) -> (m: u64)
        requires
            self.wf(),
        ensures
            m == mirrored(b),
    {
        let x0: u64 = (b >> 0u64) & 1023;
        let x1: u64 = (b >> 10u64) & 1023;
        let x2: u64 = (b >> 20u64) & 1023;
        let x3: u64 = (b >> 30u64) & 1023;
        proof {
            assert(forall|x: u64| #[trigger] (x & 1023u64) < 1024) by (bit_vector);
        }
        let v0: u64 = self.rev[x0 as usize] as u64;
        let v1: u64 = self.rev[x1 as usize] as u64;
        let v2: u64 = self.rev[x2 as usize] as u64;
        let v3: u64 = self.rev[x3 as usize] as u64;
        let m: u64 = (v0 << 0u64) | (v1 << 10u64) | (v2 << 20u64) | (v3 << 30u64);
        proof {
            assert forall|i: int| 0 <= i < 64 implies bits::bit(m, i) == bits::bit(
                mirrored(b),
                i,
            ) by {
                lemma_mirrored(b, i);
                lemma_row_lookup(b, 0, v0, i);
                lemma_row_lookup(b, 10, v1, i);
                lemma_row_lookup(b, 20, v2, i);
                lemma_row_lookup(b, 30, v3, i);
                bits::lemma_bit_or(v0 << 0u64, v1 << 10u64, i);
                bits::lemma_bit_or((v0 << 0u64) | (v1 << 10u64), v2 << 20u64, i);
                bits::lemma_bit_or(
                    (v0 << 0u64) | (v1 << 10u64) | (v2 << 20u64),
                    v3 << 30u64,
                    i,
                );
            }
            bits::lemma_bits_equal(m, mirrored(b));
        }
        m
    }

    /// Column-mirror a field hash.
    pub fn mirror_hash(&self, b: u64) -> (m: u64)
        requires
            self.wf(),
        ensures
            m == mirrored(b),
    {
        self.mirror(b)
    }

    /// The fields that placing `shape` on the field `board_hash` can lead to, written into `out`
    /// in ascending order without repetition.
    pub fn children(&mut self, shape: usize, board_hash: u64, out: &mut Vec<u64>)
        requires
            shape < 7,
            old(self).wf(),
        ensures
            final(self).wf(),
            ascending(final(out)@),
            forall|child: u64| #[trigger]
                final(out)@.contains(child) <==> is_child(shape as int, board_hash, child),
    {
        out.clear();
        if self.bp[shape].is_none() {
            self.bp.set(shape, Some(movebits::build_bp(shape)));
        }
        let board: u64 = self.mirror(board_hash);
        proof {
            lemma_mirrored_small(board_hash);
        }
        let (nc0, nc9): (u64, u64) = (self.not_col0, self.not_col9);
        match &self.bp[shape] {
            Some(g) => {
                let (reach, fits) = reach_all(g, shape, board, nc0, nc9);
                let mut o: usize = 0;
                while o < 4
                    invariant
                        o <= 4,
                        shape < 7,
                        g.describes(shape as int),
                        board == mirrored(board_hash),
                        reached(shape as int, board, reach@, fits@),
                        ascending(out@),
                        forall|h: u64| #[trigger]
                            out@.contains(h) ==> is_child(shape as int, board_hash, h),
                        forall|p: int, i: int|
                            0 <= p < o && #[trigger] rests(
                                g.orients@[p],
                                reach@[p],
                                fits@[p],
                                i,
                            ) ==> out@.contains(
                                child_of(board_hash, movebits::spot_at(shape as int, p, i)),
                            ),
                    decreases 4 - o,
                {
                    collect(&g.orients[o], shape, o, board, reach[o], fits[o], board_hash, out);
                    o = o + 1;
                }
                proof {
                    assert forall|h: u64| is_child(shape as int, board_hash, h) implies
                        #[trigger] out@.contains(h) by {
                        let s = choose|s: Spot| #[trigger]
                            shapes::lands(shape as int, board, s) && h == child_of(board_hash, s);
                        lemma_reached_all(shape as int, board, reach@, fits@, s);
                        assert(bits::bit(reach@[s.orient], s.at()));
                        shapes::lemma_reachable_fits(shape as int, board, s);
                        shapes::lemma_shape(s.shape, s.orient);
                        assert(movebits::spot_at(shape as int, s.orient, s.at()) == s);
                        lemma_rests(
                            shape as int,
                            s.orient,
                            board,
                            g.orients@[s.orient],
                            reach@[s.orient],
                            fits@[s.orient],
                            s.at(),
                        );
                        assert(rests(
                            g.orients@[s.orient],
                            reach@[s.orient],
                            fits@[s.orient],
                            s.at(),
                        ));
                    }
                }
            },
            None => {
                assert(false);
            },
        }
    }
}

/// The masks hold exactly what can be reached: they are sound, hold the entries, and no move leads
/// out of them.
spec fn reached(shape: int, board: u64, reach: Seq<u64>, fits: Seq<u64>) -> bool {
    &&& 0 <= shape < 7
    &&& board < 1u64 << 40
    &&& reach.len() == 4
    &&& fits.len() == 4
    &&& forall|o: int| 0 <= o < 4 ==> movebits::sound(#[trigger] reach[o], shape, o, board)
    &&& forall|o: int| 0 <= o < 4 ==> movebits::holds_fits(#[trigger] fits[o], shape, o, board)
    &&& forall|o: int, i: int|
        0 <= o < 4 && 0 <= i < 60 && shapes::spawns(shape, movebits::spot_at(shape, o, i))
            ==> #[trigger] bits::bit(reach[o], i)
    &&& forall|o: int| 0 <= o < 4 ==> movebits::slides_stay(#[trigger] reach[o], shape, o, board)
    &&& forall|o: int, t: int|
        0 <= o < 4 && 0 <= t < 3 ==> #[trigger] movebits::turns_into(
            reach[o],
            reach[shapes::turn_target(o, t)],
            shape,
            o,
            t,
            board,
        )
}

proof fn lemma_reached_all(shape: int, board: u64, reach: Seq<u64>, fits: Seq<u64>, s: Spot)
    requires
        reached(shape, board, reach, fits),
        shapes::reachable(shape, board, s),
    ensures
        0 <= s.orient < 4,
        bits::bit(reach[s.orient], s.at()),
{
    let within = |q: Spot|
        q.known() && q.shape == shape && q.fits(board) && bits::bit(reach[q.orient], q.at());
    assert forall|q: Spot| #[trigger] shapes::spawns(shape, q) implies within(q) by {
        shapes::lemma_spawn_fits(shape, board, q);
        shapes::lemma_shape(q.shape, q.orient);
        assert(movebits::spot_at(shape, q.orient, q.at()) == q);
    }
    assert forall|q: Spot, mv: int| within(q) && 0 <= mv < 6 implies within(
        #[trigger] shapes::step(board, q, mv),
    ) by {
        shapes::lemma_step_fits(board, q, mv);
        shapes::lemma_shape(q.shape, q.orient);
        assert(movebits::spot_at(shape, q.orient, q.at()) == q);
        if mv < 3 {
            assert(movebits::slides_stay(reach[q.orient], shape, q.orient, board));
        } else {
            assert(movebits::turns_into(
                reach[q.orient],
                reach[shapes::turn_target(q.orient, mv - 3)],
                shape,
                q.orient,
                mv - 3,
                board,
            ));
            assert(mv - 3 + 3 == mv);
        }
    }
    shapes::lemma_closed_holds(shape, board, within, s);
}

/// How far four masks are from being full.
spec fn missing(reach: Seq<u64>) -> int {
    (u64::MAX - reach[0]) + (u64::MAX - reach[1]) + (u64::MAX - reach[2]) + (u64::MAX - reach[3])
}

/// All positions that the shape can reach, and all at which it fits, for each orientation.
fn reach_all(g: &BpShape, shape: usize, board: u64, nc0: u64, nc9: u64) -> (r: (
    [u64; 4],
    [u64; 4],
))
    requires
        shape < 7,
        board < 1u64 << 40,
        g.describes(shape as int),
        forall|i: int| 0 <= i < 60 ==> #[trigger] bits::bit(nc0, i) == (i % 10 != 0),
        forall|i: int| 0 <= i < 60 ==> #[trigger] bits::bit(nc9, i) == (i % 10 != 9),
    ensures
        reached(shape as int, board, r.0@, r.1@),
{
    let ghost sh: int = shape as int;
    let mut fits: [u64; 4] = [0; 4];
    let mut reach: [u64; 4] = [0; 4];
    let mut o: usize = 0;
    while o < 4
        invariant
            o <= 4,
            sh == shape,
            shape < 7,
            board < 1u64 << 40,
            g.describes(sh),
            forall|p: int| 0 <= p < o ==> movebits::sound(#[trigger] reach@[p], sh, p, board),
            forall|p: int| 0 <= p < o ==> movebits::holds_fits(#[trigger] fits@[p], sh, p, board),
            forall|p: int, i: int|
                0 <= p < o && 0 <= i < 60 && shapes::spawns(sh, movebits::spot_at(sh, p, i))
                    ==> #[trigger] bits::bit(reach@[p], i),
        decreases 4 - o,
    {
        assert(g.orients@[o as int].describes(sh, o as int));
        let f: u64 = movebits::fit_mask(&g.orients[o], board, Ghost(sh), Ghost(o as int));
        let r: u64 = g.spawn[o] & f;
        proof {
            assert forall|i: int| #[trigger] bits::bit(r, i) == (0 <= i < 60 && shapes::spawns(
                sh,
                movebits::spot_at(sh, o as int, i),
            )) by {
                bits::lemma_bit_and(g.spawn@[o as int], f, i);
                if 0 <= i < 60 && shapes::spawns(sh, movebits::spot_at(sh, o as int, i)) {
                    shapes::lemma_spawn_fits(sh, board, movebits::spot_at(sh, o as int, i));
                }
            }
            assert forall|i: int| #[trigger] bits::bit(r, i) implies 0 <= i < 60
                && movebits::spot_at(sh, o as int, i).fits(board) && shapes::reachable(
                sh,
                board,
                movebits::spot_at(sh, o as int, i),
            ) by {
                shapes::lemma_spawn_fits(sh, board, movebits::spot_at(sh, o as int, i));
                shapes::lemma_spawn_reachable(sh, board, movebits::spot_at(sh, o as int, i));
            }
        }
        fits[o] = f;
        reach[o] = r;
        o = o + 1;
    }
    loop
        invariant
            sh == shape,
            shape < 7,
            board < 1u64 << 40,
            g.describes(sh),
            forall|i: int| 0 <= i < 60 ==> #[trigger] bits::bit(nc0, i) == (i % 10 != 0),
            forall|i: int| 0 <= i < 60 ==> #[trigger] bits::bit(nc9, i) == (i % 10 != 9),
            forall|p: int| 0 <= p < 4 ==> movebits::sound(#[trigger] reach@[p], sh, p, board),
            forall|p: int| 0 <= p < 4 ==> movebits::holds_fits(#[trigger] fits@[p], sh, p, board),
            forall|p: int, i: int|
                0 <= p < 4 && 0 <= i < 60 && shapes::spawns(sh, movebits::spot_at(sh, p, i))
                    ==> #[trigger] bits::bit(reach@[p], i),
        ensures
            forall|p: int|
                0 <= p < 4 ==> movebits::slides_stay(#[trigger] reach@[p], sh, p, board),
            forall|p: int, t: int|
                0 <= p < 4 && 0 <= t < 3 ==> #[trigger] movebits::turns_into(
                    reach@[p],
                    reach@[shapes::turn_target(p, t)],
                    sh,
                    p,
                    t,
                    board,
                ),
        decreases missing(reach@),
    {
        let mut changed: bool = false;
        let ghost start = reach@;
        let mut o: usize = 0;
        while o < 4
            invariant
                o <= 4,
                sh == shape,
                shape < 7,
                forall|i: int| 0 <= i < 60 ==> #[trigger] bits::bit(nc0, i) == (i % 10 != 0),
                forall|i: int| 0 <= i < 60 ==> #[trigger] bits::bit(nc9, i) == (i % 10 != 9),
                forall|p: int| 0 <= p < 4 ==> movebits::sound(#[trigger] reach@[p], sh, p, board),
                forall|p: int|
                    0 <= p < 4 ==> movebits::holds_fits(#[trigger] fits@[p], sh, p, board),
                forall|p: int, i: int|
                    0 <= p < 4 && 0 <= i < 60 && shapes::spawns(sh, movebits::spot_at(sh, p, i))
                        ==> #[trigger] bits::bit(reach@[p], i),
                forall|p: int|
                    0 <= p < o ==> movebits::slides_stay(#[trigger] reach@[p], sh, p, board),
                start.len() == 4,
                !changed ==> reach@ == start,
                missing(reach@) <= missing(start),
                changed ==> missing(reach@) < missing(start),
            decreases 4 - o,
        {
            let ghost prior = reach@;
            let n: u64 = movebits::flood(
                reach[o],
                fits[o],
                nc0,
                nc9,
                Ghost(sh),
                Ghost(o as int),
                Ghost(board),
            );
            if n != reach[o] {
                reach[o] = n;
                changed = true;
            }
            proof {
                assert forall|p: int, i: int|
                    0 <= p < 4 && 0 <= i < 60 && shapes::spawns(sh, movebits::spot_at(sh, p, i)) implies
                    #[trigger] bits::bit(reach@[p], i) by {
                    assert(bits::bit(prior[p], i));
                }
            }
            o = o + 1;
        }
        let ghost mid = reach@;
        let ghost changed_mid = changed;
        let mut o: usize = 0;
        while o < 4
            invariant
                o <= 4,
                sh == shape,
                shape < 7,
                g.describes(sh),
                forall|p: int| 0 <= p < 4 ==> movebits::sound(#[trigger] reach@[p], sh, p, board),
                forall|p: int|
                    0 <= p < 4 ==> movebits::holds_fits(#[trigger] fits@[p], sh, p, board),
                forall|p: int, i: int|
                    0 <= p < 4 && 0 <= i < 60 && shapes::spawns(sh, movebits::spot_at(sh, p, i))
                        ==> #[trigger] bits::bit(reach@[p], i),
                start.len() == 4,
                !changed ==> reach@ == start,
                changed_mid ==> changed,
                missing(reach@) <= missing(start),
                changed ==> missing(reach@) < missing(start),
                !changed ==> forall|p: int, t: int|
                    0 <= p < o && 0 <= t < 3 ==> #[trigger] movebits::turns_into(
                        start[p],
                        start[shapes::turn_target(p, t)],
                        sh,
                        p,
                        t,
                        board,
                    ),
            decreases 4 - o,
        {
            let mut t: usize = 0;
            while t < 3
                invariant
                    t <= 3,
                    o < 4,
                    sh == shape,
                    shape < 7,
                    g.describes(sh),
                    forall|p: int|
                        0 <= p < 4 ==> movebits::sound(#[trigger] reach@[p], sh, p, board),
                    forall|p: int|
                        0 <= p < 4 ==> movebits::holds_fits(#[trigger] fits@[p], sh, p, board),
                    forall|p: int, i: int|
                        0 <= p < 4 && 0 <= i < 60 && shapes::spawns(
                            sh,
                            movebits::spot_at(sh, p, i),
                        ) ==> #[trigger] bits::bit(reach@[p], i),
                    start.len() == 4,
                    !changed ==> reach@ == start,
                    changed_mid ==> changed,
                    missing(reach@) <= missing(start),
                    changed ==> missing(reach@) < missing(start),
                    !changed ==> forall|p: int, u: int|
                        (0 <= p < o && 0 <= u < 3) || (p == o && 0 <= u < t)
                            ==> #[trigger] movebits::turns_into(
                            start[p],
                            start[shapes::turn_target(p, u)],
                            sh,
                            p,
                            u,
                            board,
                        ),
                decreases 3 - t,
            {
                assert(g.edges@[o as int]@.len() == 3);
                assert(g.edges@[o as int]@[t as int].describes(sh, o as int, t as int));
                let e = &g.edges[o][t];
                let tgt: usize = e.tgt;
                assert(tgt == shapes::turn_target(o as int, t as int));
                let ghost prior = reach@;
                let n: u64 = movebits::turn_all(
                    e,
                    reach[o],
                    reach[tgt],
                    fits[tgt],
                    Ghost(sh),
                    Ghost(o as int),
                    Ghost(t as int),
                    Ghost(board),
                );
                if n != reach[tgt] {
                    reach[tgt] = n;
                    changed = true;
                }
                proof {
                    assert forall|p: int, i: int|
                        0 <= p < 4 && 0 <= i < 60 && shapes::spawns(sh, movebits::spot_at(sh, p, i)) implies
                        #[trigger] bits::bit(reach@[p], i) by {
                        assert(bits::bit(prior[p], i));
                    }
                }
                t = t + 1;
            }
            o = o + 1;
        }
        if !changed {
            assert(mid == start);
            break ;
        }
    }
    (reach, fits)
}

/// Add the children of one orientation's resting places.
fn collect(
    oi: &BpOrient,
    shape: usize,
    orient: usize,
    board: u64,
    r: u64,
    f: u64,
    board_hash: u64,
    out: &mut Vec<u64>,
)
    requires
        shape < 7,
        orient < 4,
        oi.describes(shape as int, orient as int),
        board == mirrored(board_hash),
        movebits::sound(r, shape as int, orient as int, board),
        movebits::holds_fits(f, shape as int, orient as int, board),
        ascending(old(out)@),
        forall|h: u64| #[trigger]
            old(out)@.contains(h) ==> is_child(shape as int, board_hash, h),
    ensures
        ascending(final(out)@),
        forall|h: u64| #[trigger] old(out)@.contains(h) ==> final(out)@.contains(h),
        forall|h: u64| #[trigger]
            final(out)@.contains(h) ==> is_child(shape as int, board_hash, h),
        forall|i: int| #[trigger]
            rests(*oi, r, f, i) ==> final(out)@.contains(
                child_of(board_hash, movebits::spot_at(shape as int, orient as int, i)),
            ),
{
    let below: u64 = f << 10u64;
    let mut m: u64 = r & !below & oi.placeable;
    proof {
        assert forall|i: int| #[trigger] bits::bit(m, i) == rests(*oi, r, f, i) by {
            bits::lemma_bit_and(r & !below, oi.placeable, i);
            bits::lemma_bit_and(r, !below, i);
            bits::lemma_bit_not(below, i);
            bits::lemma_bit_shl(f, 10, i);
            bits::lemma_bit_range(r, i);
        }
    }
    while m != 0
        invariant
            shape < 7,
            orient < 4,
            oi.describes(shape as int, orient as int),
            board == mirrored(board_hash),
            movebits::sound(r, shape as int, orient as int, board),
            movebits::holds_fits(f, shape as int, orient as int, board),
            ascending(out@),
            forall|h: u64| #[trigger] old(out)@.contains(h) ==> out@.contains(h),
            forall|h: u64| #[trigger] out@.contains(h) ==> is_child(shape as int, board_hash, h),
            forall|i: int| #[trigger] bits::bit(m, i) ==> rests(*oi, r, f, i),
            forall|i: int| #[trigger]
                rests(*oi, r, f, i) && !bits::bit(m, i) ==> out@.contains(
                    child_of(board_hash, movebits::spot_at(shape as int, orient as int, i)),
                ),
        decreases m,
    {
        let p: u64 = m.trailing_zeros() as u64;
        let ghost before = m;
        let ghost s = movebits::spot_at(shape as int, orient as int, p as int);
        proof {
            vstd::std_specs::bits::axiom_u64_trailing_zeros(m);
            assert(bits::bit(m, p as int)) by {
                reveal(bits::bit);
            }
            assert forall|j: int| 0 <= j < p implies !bits::bit(m, j) by {
                reveal(bits::bit);
                let k: u64 = j as u64;
                assert((m >> k) & 1 == 0);
            }
            lemma_rests(shape as int, orient as int, board, *oi, r, f, p as int);
            lemma_word_moved(shape as int, orient as int, p);
        }
        m = m & (m - 1);
        let child: u64 = mirror(sink_lines(board | (oi.shape_bits << p)));
        proof {
            assert forall|i: int| #[trigger] bits::bit(m, i) == (bits::bit(before, i) && i != p) by {
                bits::lemma_clear_lowest(before, p, i);
            }
            assert(m < before) by {
                assert(before & ((before - 1) as u64) <= (before - 1) as u64) by (bit_vector)
                    requires
                        before != 0,
                ;
            }
            assert(shapes::lands(shape as int, board, s));
            assert(child == child_of(board_hash, s));
        }
        insert_sorted(out, child);
    }
    proof {
        assert forall|i: int| #[trigger] rests(*oi, r, f, i) implies out@.contains(
            child_of(board_hash, movebits::spot_at(shape as int, orient as int, i)),
        ) by {
            bits::lemma_bit_zero(i);
        }
    }
}

/// The two ways of generating moves agree: the generator's children are exactly the fields that
/// the placements lead to.
pub proof fn law_children_match_placements(
    shape: int,
    hash: u64,
    children: Seq<u64>,
    list: Seq<Placement>,
)
    requires
        forall|child: u64| #[trigger]
            children.contains(child) <==> is_child(shape, hash, child),
        placements_of(shape, hash, list),
    ensures
        children.to_set() == list.map_values(|p: Placement| p.child_hash).to_set(),
{
    let hashes = list.map_values(|p: Placement| p.child_hash);
    assert forall|h: u64| children.to_set().contains(h) <==> hashes.to_set().contains(h) by {
        law_placements_give_children(shape, hash, list, h);
        if children.contains(h) {
            let i = choose|i: int| 0 <= i < list.len() && (#[trigger] list[i]).child_hash == h;
            assert(hashes[i] == h);
        }
        if hashes.contains(h) {
            let i = choose|i: int| 0 <= i < hashes.len() && hashes[i] == h;
            assert(list[i].child_hash == h);
        }
    }
    assert(children.to_set() =~= hashes.to_set());
}

/* ---- fields and boards ---- */

/// In a mirrored board, the column from the left is the column from the right.
pub proof fn law_mirror_swaps_columns(b: u64, row: int, col: int)
    requires
        0 <= row < 4,
        0 <= col < 10,
    ensures
        bits::bit(mirrored(b), 10 * row + col) == bits::bit(b, 10 * row + 9 - col),
{
    lemma_mirrored(b, 10 * row + col);
    assert((10 * row + col) / 10 == row && (10 * row + col) % 10 == col);
}

} // verus!
