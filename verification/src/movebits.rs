//! Bit-parallel move generation. All corner positions of one orientation are kept in one word, bit
//! `row * 10 + col` for rows 0 to 5, and every move is made from all of them at once.

use vstd::prelude::*;
use crate::bits;
use crate::shapes;
use crate::shapes::{Spot, CELLS, PIECE_MAX_COLS, HALF_N};

verus! {

/// The spot whose corner is bit position `i`.
pub open spec fn spot_at(shape: int, orient: int, i: int) -> Spot {
    Spot { shape, orient, col: i % 10, row: i / 10 }
}

/// `f` holds the positions at which the shape fits.
pub open spec fn holds_fits(f: u64, shape: int, orient: int, board: u64) -> bool {
    forall|i: int| #[trigger]
        bits::bit(f, i) == (0 <= i < 60 && spot_at(shape, orient, i).fits(board))
}

/// `r` holds positions at which the shape fits and that it can reach.
pub open spec fn sound(r: u64, shape: int, orient: int, board: u64) -> bool {
    forall|i: int| #[trigger]
        bits::bit(r, i) ==> 0 <= i < 60 && spot_at(shape, orient, i).fits(board)
            && shapes::reachable(shape, board, spot_at(shape, orient, i))
}

/// Everything in `a` is in `b`.
pub open spec fn subset(a: u64, b: u64) -> bool {
    forall|i: int| #[trigger] bits::bit(a, i) ==> bits::bit(b, i)
}

/// No slide leads out of `r`.
pub open spec fn slides_stay(r: u64, shape: int, orient: int, board: u64) -> bool {
    forall|i: int, mv: int|
        #![trigger bits::bit(r, i), shapes::step(board, spot_at(shape, orient, i), mv)]
        bits::bit(r, i) && 0 <= mv < 3 ==> bits::bit(
            r,
            shapes::step(board, spot_at(shape, orient, i), mv).at(),
        )
}

/// Every turn of this kind from `r` leads into `t` or nowhere.
pub open spec fn turns_into(
    r: u64,
    t: u64,
    shape: int,
    orient: int,
    turn: int,
    board: u64,
) -> bool {
    forall|i: int|
        #![trigger bits::bit(r, i)]
        bits::bit(r, i) ==> {
            let s = spot_at(shape, orient, i);
            let n = shapes::step(board, s, turn + 3);
            n == s || (n.orient == shapes::turn_target(orient, turn) && bits::bit(t, n.at()))
        }
}

/// What is known of one shape in one orientation whatever the board.
pub struct BpOrient {
    pub cells: [u32; 4],
    pub shape_bits: u64,
    /// Positions inside the bounds.
    pub inbounds: u64,
    /// Positions from which no cell leaves the box.
    pub placeable: u64,
}

impl BpOrient {
    pub open spec fn describes(self, shape: int, orient: int) -> bool {
        &&& self.cells@ == CELLS@[shape]@[orient]@
        &&& self.shape_bits == spot_at(shape, orient, 0).word()
        &&& forall|i: int| #[trigger]
            bits::bit(self.inbounds, i) == (0 <= i < 60 && spot_at(shape, orient, i).in_box())
        &&& forall|i: int| #[trigger]
            bits::bit(self.placeable, i) == (0 <= i < 60 && spot_at(shape, orient, i).in_box()
                && spot_at(shape, orient, i).cell_at(3) < 40)
    }
}

/// One turn of one orientation: its kicks in order, each as a shift of the position and the mask
/// of the positions from which the shift stays in the columns.
pub struct BpEdge {
    pub tgt: usize,
    pub kicks: Vec<(i32, u64)>,
}

/// The positions from which a displacement by `dc` columns stays in the columns.
pub open spec fn guards(guard: u64, dc: int) -> bool {
    forall|i: int| #[trigger] bits::bit(guard, i) == (0 <= i < 60 && 0 <= i % 10 + dc <= 9)
}

impl BpEdge {
    pub open spec fn describes(self, shape: int, orient: int, turn: int) -> bool {
        let kicks = shapes::turn_kicks(shape, orient, turn);
        &&& self.tgt == shapes::turn_target(orient, turn)
        &&& self.kicks@.len() == kicks.len()
        &&& forall|k: int|
            0 <= k < kicks.len() ==> (#[trigger] self.kicks@[k]).0 == kicks[k].1 * 10 + kicks[k].0
                && guards(self.kicks@[k].1, kicks[k].0)
    }
}

/// What is known of one shape whatever the board.
pub struct BpShape {
    pub orients: Vec<BpOrient>,
    /// For each orientation its quarter turns clockwise and counterclockwise and its half turn.
    pub edges: Vec<Vec<BpEdge>>,
    /// For each orientation the positions where the shape enters.
    pub spawn: Vec<u64>,
}

impl BpShape {
    pub open spec fn describes(self, shape: int) -> bool {
        &&& self.orients@.len() == 4
        &&& self.edges@.len() == 4
        &&& self.spawn@.len() == 4
        &&& forall|o: int| 0 <= o < 4 ==> (#[trigger] self.orients@[o]).describes(shape, o)
        &&& forall|o: int| 0 <= o < 4 ==> (#[trigger] self.edges@[o])@.len() == 3
        &&& forall|o: int, t: int|
            0 <= o < 4 && 0 <= t < 3 ==> (#[trigger] self.edges@[o]@[t]).describes(shape, o, t)
        &&& forall|o: int, i: int|
            0 <= o < 4 ==> #[trigger] bits::bit(self.spawn@[o], i) == (0 <= i < 60
                && shapes::spawns(shape, spot_at(shape, o, i)))
    }
}

/// The mask of the positions from which a displacement by `dc` columns stays in the columns.
pub fn colguard(dc: i32) -> (m: u64)
    ensures
        guards(m, dc as int),
{
    broadcast use bits::group_bits;

    let mut m: u64 = 0;
    let mut i: u64 = 0;
    while i < 60
        invariant
            i <= 60,
            forall|j: int| #[trigger]
                bits::bit(m, j) == (0 <= j < i && 0 <= j % 10 + dc <= 9),
        decreases 60 - i,
    {
        let col: i32 = (i % 10) as i32;
        let ghost before = m;
        if -9 <= dc && dc <= 9 && 0 <= col + dc && col + dc <= 9 {
            m = m | (1u64 << i);
        }
        proof {
            assert forall|j: int| #[trigger]
                bits::bit(m, j) == (0 <= j < i + 1 && 0 <= j % 10 + dc <= 9) by {
                bits::lemma_bit_one(i, j);
                bits::lemma_bit_or(before, 1u64 << i, j);
                assert(bits::bit(before, j) == (0 <= j < i && 0 <= j % 10 + dc <= 9));
            }
        }
        i = i + 1;
    }
    m
}

/// The board-independent data of one orientation.
fn build_orient(shape: usize, orient: usize) -> (r: BpOrient)
    requires
        shape < 7,
        orient < 4,
    ensures
        r.describes(shape as int, orient as int),
{
    broadcast use bits::group_bits;

    let cells = CELLS[shape][orient];
    proof {
        shapes::lemma_shape(shape as int, orient as int);
        assert(spot_at(shape as int, orient as int, 0).at() == 0);
    }
    let shape_bits: u64 = (1u64 << (cells[0] as u64)) | (1u64 << (cells[1] as u64)) | (1u64 << (
    cells[2] as u64)) | (1u64 << (cells[3] as u64));
    let max_col: u64 = PIECE_MAX_COLS[shape][orient] as u64;
    let top: u64 = cells[3] as u64;
    let mut inbounds: u64 = 0;
    let mut placeable: u64 = 0;
    let mut i: u64 = 0;
    while i < 60
        invariant
            i <= 60,
            shape < 7,
            orient < 4,
            max_col == shapes::max_col(shape as int, orient as int),
            top == shapes::cell(shape as int, orient as int, 3),
            top <= 33,
            forall|j: int| #[trigger]
                bits::bit(inbounds, j) == (0 <= j < i && spot_at(
                    shape as int,
                    orient as int,
                    j,
                ).in_box()),
            forall|j: int| #[trigger]
                bits::bit(placeable, j) == (0 <= j < i && spot_at(
                    shape as int,
                    orient as int,
                    j,
                ).in_box() && spot_at(shape as int, orient as int, j).cell_at(3) < 40),
        decreases 60 - i,
    {
        let ghost in0 = inbounds;
        let ghost pl0 = placeable;
        let ghost here = spot_at(shape as int, orient as int, i as int);
        if i % 10 <= max_col {
            inbounds = inbounds | (1u64 << i);
            if i + top < 40 {
                placeable = placeable | (1u64 << i);
            }
        }
        proof {
            assert(here.at() == i);
            assert(here.in_box() == (i % 10 <= max_col));
            assert forall|j: int| #[trigger]
                bits::bit(inbounds, j) == (0 <= j < i + 1 && spot_at(
                    shape as int,
                    orient as int,
                    j,
                ).in_box()) by {
                bits::lemma_bit_one(i, j);
                bits::lemma_bit_or(in0, 1u64 << i, j);
                assert(bits::bit(in0, j) == (0 <= j < i && spot_at(
                    shape as int,
                    orient as int,
                    j,
                ).in_box()));
            }
            assert forall|j: int| #[trigger]
                bits::bit(placeable, j) == (0 <= j < i + 1 && spot_at(
                    shape as int,
                    orient as int,
                    j,
                ).in_box() && spot_at(shape as int, orient as int, j).cell_at(3) < 40) by {
                bits::lemma_bit_one(i, j);
                bits::lemma_bit_or(pl0, 1u64 << i, j);
                assert(bits::bit(pl0, j) == (0 <= j < i && spot_at(
                    shape as int,
                    orient as int,
                    j,
                ).in_box() && spot_at(shape as int, orient as int, j).cell_at(3) < 40));
            }
        }
        i = i + 1;
    }
    BpOrient { cells, shape_bits, inbounds, placeable }
}

/// The kicks of one turn as shifts.
fn build_edge(shape: usize, orient: usize, turn: usize) -> (r: BpEdge)
    requires
        shape < 7,
        orient < 4,
        turn < 3,
    ensures
        r.describes(shape as int, orient as int, turn as int),
{
    let tgt: usize = if turn == 0 {
        (orient + 1) % 4
    } else if turn == 1 {
        (orient + 3) % 4
    } else {
        (orient + 2) % 4
    };
    let n: usize = if turn < 2 {
        5
    } else if shape == 0 {
        1
    } else {
        HALF_N
    };
    let quarter = shapes::kicks(
        shape,
        if turn == 1 {
            tgt
        } else {
            orient
        },
    );
    let half = shapes::half_kicks(shape, orient);
    let ghost all = shapes::turn_kicks(shape as int, orient as int, turn as int);
    let mut kicks: Vec<(i32, u64)> = Vec::new();
    let mut k: usize = 0;
    while k < n
        invariant
            k <= n,
            n == all.len(),
            n <= 5,
            shape < 7,
            orient < 4,
            turn < 3,
            all == shapes::turn_kicks(shape as int, orient as int, turn as int),
            turn == 0 ==> quarter@ == shapes::quarter_kicks(shape as int, orient as int),
            turn == 1 ==> quarter@ == shapes::quarter_kicks(
                shape as int,
                shapes::turn_target(orient as int, 1),
            ),
            half@ == shapes::half_turn_kicks(shape as int, orient as int),
            kicks@.len() == k,
            forall|j: int|
                0 <= j < k ==> (#[trigger] kicks@[j]).0 == all[j].1 * 10 + all[j].0 && guards(
                    kicks@[j].1,
                    all[j].0,
                ),
        decreases n - k,
    {
        proof {
            shapes::lemma_kicks_small(shape as int, orient as int, turn as int, k as int);
        }
        let (dc, dr): (i32, i32) = if turn == 0 {
            quarter[k]
        } else if turn == 1 {
            (0 - quarter[k].0, 0 - quarter[k].1)
        } else {
            half[k]
        };
        assert(all[k as int] == (dc as int, dr as int));
        kicks.push((dr * 10 + dc, colguard(dc)));
        k = k + 1;
    }
    BpEdge { tgt, kicks }
}

/// The entry positions of one orientation.
fn build_spawn(shape: usize, orient: usize) -> (m: u64)
    requires
        shape < 7,
        orient < 4,
    ensures
        forall|i: int| #[trigger]
            bits::bit(m, i) == (0 <= i < 60 && shapes::spawns(
                shape as int,
                spot_at(shape as int, orient as int, i),
            )),
{
    broadcast use bits::group_bits;

    proof {
        shapes::lemma_shape(shape as int, orient as int);
    }
    let mut m: u64 = 0;
    let max_col: u64 = PIECE_MAX_COLS[shape][orient] as u64;
    let mut c: u64 = 0;
    while c <= max_col
        invariant
            c <= max_col + 1,
            max_col <= 9,
            forall|j: int| #[trigger] bits::bit(m, j) == (40 <= j < 40 + c),
        decreases max_col + 1 - c,
    {
        let ghost before = m;
        let k: u64 = 40 + c;
        m = m | (1u64 << k);
        proof {
            assert forall|j: int| #[trigger] bits::bit(m, j) == (40 <= j < 40 + c + 1) by {
                bits::lemma_bit_one(k, j);
                bits::lemma_bit_or(before, 1u64 << k, j);
                assert(bits::bit(before, j) == (40 <= j < 40 + c));
            }
        }
        c = c + 1;
    }
    m
}

/// The board-independent data of a shape.
pub fn build_bp(shape: usize) -> (r: BpShape)
    requires
        shape < 7,
    ensures
        r.describes(shape as int),
{
    let mut orients: Vec<BpOrient> = Vec::new();
    let mut edges: Vec<Vec<BpEdge>> = Vec::new();
    let mut spawn: Vec<u64> = Vec::new();
    let mut o: usize = 0;
    while o < 4
        invariant
            o <= 4,
            shape < 7,
            orients@.len() == o,
            edges@.len() == o,
            spawn@.len() == o,
            forall|p: int| 0 <= p < o ==> (#[trigger] orients@[p]).describes(shape as int, p),
            forall|p: int| 0 <= p < o ==> (#[trigger] edges@[p])@.len() == 3,
            forall|p: int, t: int|
                0 <= p < o && 0 <= t < 3 ==> (#[trigger] edges@[p]@[t]).describes(
                    shape as int,
                    p,
                    t,
                ),
            forall|p: int, i: int|
                0 <= p < o ==> #[trigger] bits::bit(spawn@[p], i) == (0 <= i < 60
                    && shapes::spawns(shape as int, spot_at(shape as int, p, i))),
        decreases 4 - o,
    {
        orients.push(build_orient(shape, o));
        let mut row: Vec<BpEdge> = Vec::new();
        row.push(build_edge(shape, o, 0));
        row.push(build_edge(shape, o, 1));
        row.push(build_edge(shape, o, 2));
        edges.push(row);
        spawn.push(build_spawn(shape, o));
        o = o + 1;
    }
    BpShape { orients, edges, spawn }
}

/// The positions at which the shape fits on the board.
pub(crate) fn fit_mask(oi: &BpOrient, board: u64, Ghost(shape): Ghost<int>, Ghost(orient): Ghost<int>) -> (f:
    u64)
    requires
        0 <= shape < 7,
        0 <= orient < 4,
        oi.describes(shape, orient),
    ensures
        holds_fits(f, shape, orient, board),
{
    broadcast use bits::group_bits;

    proof {
        shapes::lemma_shape(shape, orient);
    }
    let c = oi.cells;
    let f: u64 = oi.inbounds & !(board >> (c[0] as u64)) & !(board >> (c[1] as u64)) & !(board >> (
    c[2] as u64)) & !(board >> (c[3] as u64));
    proof {
        assert forall|i: int| #[trigger]
            bits::bit(f, i) == (0 <= i < 60 && spot_at(shape, orient, i).fits(board)) by {
            let s = spot_at(shape, orient, i);
            if 0 <= i < 60 {
                assert(s.at() == i);
                assert(s.cell_at(0) == i + c@[0]);
                assert(s.cell_at(1) == i + c@[1]);
                assert(s.cell_at(2) == i + c@[2]);
                assert(s.cell_at(3) == i + c@[3]);
                if s.hits(board) {
                    let j = choose|j: int| 0 <= j < 4 && bits::bit(board, #[trigger] s.cell_at(j));
                    assert(j == 0 || j == 1 || j == 2 || j == 3);
                }
            }
        }
    }
    f
}

/// Where a slide from position `i` goes.
proof fn lemma_slides(shape: int, orient: int, board: u64, f: u64, i: int)
    requires
        0 <= shape < 7,
        0 <= orient < 4,
        holds_fits(f, shape, orient, board),
        bits::bit(f, i),
    ensures
        ({
            let s = spot_at(shape, orient, i);
            &&& s.at() == i
            &&& shapes::step(board, s, 0) == (if i % 10 >= 1 && bits::bit(f, i - 1) {
                spot_at(shape, orient, i - 1)
            } else {
                s
            })
            &&& shapes::step(board, s, 1) == (if i % 10 <= 8 && bits::bit(f, i + 1) {
                spot_at(shape, orient, i + 1)
            } else {
                s
            })
            &&& shapes::step(board, s, 2) == (if bits::bit(f, i - 10) {
                spot_at(shape, orient, i - 10)
            } else {
                s
            })
        }),
{
    let s = spot_at(shape, orient, i);
    shapes::lemma_shape(shape, orient);
    if i % 10 >= 1 {
        assert(s.slid(-1, 0) == spot_at(shape, orient, i - 1));
    }
    if i % 10 <= 8 {
        assert(i + 1 < 60);
        assert(s.slid(1, 0) == spot_at(shape, orient, i + 1));
    }
    if i >= 10 {
        assert(s.slid(0, -1) == spot_at(shape, orient, i - 10));
    }
}

/// Slide from every position of `start` until nothing new is reached.
pub(crate) fn flood(
    start: u64,
    f: u64,
    not_col0: u64,
    not_col9: u64,
    Ghost(shape): Ghost<int>,
    Ghost(orient): Ghost<int>,
    Ghost(board): Ghost<u64>,
) -> (r: u64)
    requires
        0 <= shape < 7,
        0 <= orient < 4,
        forall|i: int| 0 <= i < 60 ==> #[trigger] bits::bit(not_col0, i) == (i % 10 != 0),
        forall|i: int| 0 <= i < 60 ==> #[trigger] bits::bit(not_col9, i) == (i % 10 != 9),
        holds_fits(f, shape, orient, board),
        sound(start, shape, orient, board),
    ensures
        sound(r, shape, orient, board),
        subset(start, r),
        slides_stay(r, shape, orient, board),
        r >= start,
{
    broadcast use bits::group_bits;

    let mut r: u64 = start;
    loop
        invariant
            0 <= shape < 7,
            0 <= orient < 4,
            forall|i: int| 0 <= i < 60 ==> #[trigger] bits::bit(not_col0, i) == (i % 10 != 0),
            forall|i: int| 0 <= i < 60 ==> #[trigger] bits::bit(not_col9, i) == (i % 10 != 9),
            holds_fits(f, shape, orient, board),
            sound(r, shape, orient, board),
            subset(start, r),
            r >= start,
        ensures
            slides_stay(r, shape, orient, board),
        decreases u64::MAX - r,
    {
        let lefts: u64 = (r & not_col0) >> 1u64;
        let rights: u64 = (r & not_col9) << 1u64;
        let downs: u64 = r >> 10u64;
        let gained: u64 = (lefts | rights | downs) & f;
        let n: u64 = r | gained;
        proof {
            bits::lemma_or_grows(r, gained);
            assert forall|i: int| #[trigger] bits::bit(gained, i) == (bits::bit(f, i) && ((i + 1)
                % 10 != 0 && bits::bit(r, i + 1) || (i - 1) % 10 != 9 && bits::bit(r, i - 1)
                || bits::bit(r, i + 10))) by {
                bits::lemma_bit_and(lefts | rights | downs, f, i);
                bits::lemma_bit_or(lefts | rights, downs, i);
                bits::lemma_bit_or(lefts, rights, i);
                bits::lemma_bit_shr(r & not_col0, 1, i);
                bits::lemma_bit_and(r, not_col0, i + 1);
                bits::lemma_bit_shl(r & not_col9, 1, i);
                bits::lemma_bit_and(r, not_col9, i - 1);
                bits::lemma_bit_shr(r, 10, i);
                assert(bits::bit(r, i + 1) ==> 0 <= i + 1 < 60);
                assert(bits::bit(r, i - 1) ==> 0 <= i - 1 < 60);
            }
            assert forall|i: int| #[trigger] bits::bit(n, i) implies 0 <= i < 60 && spot_at(
                shape,
                orient,
                i,
            ).fits(board) && shapes::reachable(shape, board, spot_at(shape, orient, i)) by {
                bits::lemma_bit_or(r, gained, i);
                if !bits::bit(r, i) {
                    assert(bits::bit(gained, i));
                    if (i + 1) % 10 != 0 && bits::bit(r, i + 1) {
                        assert(bits::bit(f, i + 1));
                        lemma_slides(shape, orient, board, f, i + 1);
                        shapes::lemma_step_reachable(shape, board, spot_at(shape, orient, i + 1), 0);
                    } else if (i - 1) % 10 != 9 && bits::bit(r, i - 1) {
                        assert(bits::bit(f, i - 1));
                        lemma_slides(shape, orient, board, f, i - 1);
                        shapes::lemma_step_reachable(shape, board, spot_at(shape, orient, i - 1), 1);
                    } else {
                        assert(bits::bit(f, i + 10));
                        lemma_slides(shape, orient, board, f, i + 10);
                        shapes::lemma_step_reachable(
                            shape,
                            board,
                            spot_at(shape, orient, i + 10),
                            2,
                        );
                    }
                }
            }
        }
        if n == r {
            proof {
                assert forall|i: int, mv: int|
                    #![trigger bits::bit(r, i), shapes::step(board, spot_at(shape, orient, i), mv)]
                    bits::bit(r, i) && 0 <= mv < 3 implies bits::bit(
                    r,
                    shapes::step(board, spot_at(shape, orient, i), mv).at(),
                ) by {
                    assert(bits::bit(f, i));
                    lemma_slides(shape, orient, board, f, i);
                    bits::lemma_bit_or(r, gained, i - 1);
                    bits::lemma_bit_or(r, gained, i + 1);
                    bits::lemma_bit_or(r, gained, i - 10);
                    assert(bits::bit(gained, i - 1) ==> bits::bit(r, i - 1));
                    assert(bits::bit(gained, i + 1) ==> bits::bit(r, i + 1));
                    assert(bits::bit(gained, i - 10) ==> bits::bit(r, i - 10));
                }
            }
            break ;
        }
        proof {
            lemma_subset_or(start, r, gained);
        }
        r = n;
    }
    r
}

proof fn lemma_subset_or(a: u64, b: u64, x: u64)
    requires
        subset(a, b),
    ensures
        subset(a, b | x),
{
    assert forall|i: int| #[trigger] bits::bit(a, i) implies bits::bit(b | x, i) by {
        bits::lemma_bit_or(b, x, i);
    }
}

/// Turn from every position of `from`, each by its first kick that fits, into the target
/// orientation of which `into` is already reached.
pub(crate) fn turn_all(
    e: &BpEdge,
    from: u64,
    into: u64,
    f: u64,
    Ghost(shape): Ghost<int>,
    Ghost(orient): Ghost<int>,
    Ghost(turn): Ghost<int>,
    Ghost(board): Ghost<u64>,
) -> (r: u64)
    requires
        0 <= shape < 7,
        0 <= orient < 4,
        0 <= turn < 3,
        e.describes(shape, orient, turn),
        holds_fits(f, shape, shapes::turn_target(orient, turn), board),
        sound(from, shape, orient, board),
        sound(into, shape, shapes::turn_target(orient, turn), board),
    ensures
        sound(r, shape, shapes::turn_target(orient, turn), board),
        subset(into, r),
        turns_into(from, r, shape, orient, turn, board),
        r >= into,
{
    let ghost target = shapes::turn_target(orient, turn);
    let ghost kicks = shapes::turn_kicks(shape, orient, turn);
    let mut r: u64 = into;
    let mut rem: u64 = from;
    let mut k: usize = 0;
    while k < e.kicks.len()
        invariant
            0 <= shape < 7,
            0 <= orient < 4,
            0 <= turn < 3,
            target == shapes::turn_target(orient, turn),
            kicks == shapes::turn_kicks(shape, orient, turn),
            e.describes(shape, orient, turn),
            holds_fits(f, shape, target, board),
            sound(from, shape, orient, board),
            sound(r, shape, target, board),
            subset(into, r),
            r >= into,
            k <= kicks.len(),
            forall|i: int| #[trigger]
                bits::bit(rem, i) ==> bits::bit(from, i) && shapes::step(
                    board,
                    spot_at(shape, orient, i),
                    turn + 3,
                ) == shapes::first_fit(
                    spot_at(shape, orient, i),
                    board,
                    target,
                    kicks,
                    k as int,
                ),
            forall|i: int|
                #![trigger bits::bit(from, i)]
                bits::bit(from, i) && !bits::bit(rem, i) ==> {
                    let n = shapes::step(board, spot_at(shape, orient, i), turn + 3);
                    n.orient == target && bits::bit(r, n.at())
                },
        decreases kicks.len() - k,
    {
        let (shift, guard): (i32, u64) = e.kicks[k];
        let ghost (dc, dr) = kicks[k as int];
        proof {
            shapes::lemma_kicks_small(shape, orient, turn, k as int);
        }
        let src: u64 = rem & guard;
        let cand: u64 = if shift >= 0 {
            (src << (shift as u64)) & f
        } else {
            (src >> ((0 - shift) as u64)) & f
        };
        let back: u64 = if shift >= 0 {
            cand >> (shift as u64)
        } else {
            cand << ((0 - shift) as u64)
        };
        let ghost rem0 = rem;
        let ghost r0 = r;
        rem = rem & !back;
        r = r | cand;
        proof {
            bits::lemma_or_grows(r0, cand);
            lemma_subset_or(into, r0, cand);
            assert forall|i: int| #[trigger]
                bits::bit(cand, i) == (bits::bit(f, i) && bits::bit(src, i - shift)) by {
                if shift >= 0 {
                    bits::lemma_bit_and(src << (shift as u64), f, i);
                    bits::lemma_bit_shl(src, shift as u64, i);
                } else {
                    bits::lemma_bit_and(src >> ((0 - shift) as u64), f, i);
                    bits::lemma_bit_shr(src, (0 - shift) as u64, i);
                }
            }
            assert forall|i: int| #[trigger] bits::bit(src, i) implies 0 <= i < 60
                && bits::bit(rem0, i) && bits::bit(from, i) && 0 <= i % 10 + dc <= 9 by {
                bits::lemma_bit_and(rem0, guard, i);
            }
            // a source whose kicked spot fits is exactly one that is handed back
            assert forall|i: int| bits::bit(rem0, i) implies ({
                let s = spot_at(shape, orient, i);
                let n = s.kicked(target, kicks[k as int]);
                &&& #[trigger] bits::bit(back, i) == n.fits(board)
                &&& bits::bit(back, i) ==> n.at() == i + shift && bits::bit(cand, i + shift)
            }) by {
                let s = spot_at(shape, orient, i);
                let n = s.kicked(target, kicks[k as int]);
                assert(bits::bit(from, i));
                if shift >= 0 {
                    bits::lemma_bit_shr(cand, shift as u64, i);
                } else {
                    bits::lemma_bit_shl(cand, (0 - shift) as u64, i);
                }
                assert(bits::bit(back, i) == bits::bit(cand, i + shift));
                bits::lemma_bit_and(rem0, guard, i);
                bits::lemma_bit_range(cand, i + shift);
                assert(i + shift - shift == i);
                shapes::lemma_shape(shape, target);
                if 0 <= i % 10 + dc <= 9 {
                    assert(n.at() == i + shift);
                    if 0 <= i + shift < 60 {
                        assert(spot_at(shape, target, i + shift) == n);
                    }
                } else {
                    assert(!n.fits(board));
                }
            }
            assert forall|i: int| #[trigger] bits::bit(r, i) implies 0 <= i < 60 && spot_at(
                shape,
                target,
                i,
            ).fits(board) && shapes::reachable(shape, board, spot_at(shape, target, i)) by {
                if !bits::bit(r0, i) {
                    bits::lemma_bit_or(r0, cand, i);
                    assert(bits::bit(cand, i));
                    let j = i - shift;
                    assert(bits::bit(src, j));
                    let s = spot_at(shape, orient, j);
                    let n = s.kicked(target, kicks[k as int]);
                    assert(n.at() == i);
                    assert(n == spot_at(shape, target, i));
                    assert(n.fits(board));
                    assert(shapes::step(board, s, turn + 3) == n);
                    shapes::lemma_step_reachable(shape, board, s, turn + 3);
                }
            }
            assert forall|i: int| #[trigger] bits::bit(rem, i) implies bits::bit(from, i)
                && shapes::step(board, spot_at(shape, orient, i), turn + 3) == shapes::first_fit(
                spot_at(shape, orient, i),
                board,
                target,
                kicks,
                k + 1,
            ) by {
                bits::lemma_bit_and(rem0, !back, i);
                bits::lemma_bit_not(back, i);
                assert(bits::bit(rem0, i));
                assert(!bits::bit(back, i));
            }
            assert forall|i: int|
                #![trigger bits::bit(from, i)]
                bits::bit(from, i) && !bits::bit(rem, i) implies ({
                let n = shapes::step(board, spot_at(shape, orient, i), turn + 3);
                n.orient == target && bits::bit(r, n.at())
            }) by {
                let n = shapes::step(board, spot_at(shape, orient, i), turn + 3);
                bits::lemma_bit_and(rem0, !back, i);
                bits::lemma_bit_not(back, i);
                if bits::bit(rem0, i) {
                    assert(bits::bit(back, i));
                    assert(n == spot_at(shape, orient, i).kicked(target, kicks[k as int]));
                    bits::lemma_bit_or(r0, cand, i + shift);
                } else {
                    bits::lemma_bit_or(r0, cand, n.at());
                }
            }
        }
        k = k + 1;
    }
    r
}

} // verus!
