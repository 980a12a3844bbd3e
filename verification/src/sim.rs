//! A host to try the bot on: it deals pieces from shuffled bags and keeps a board of its own.

use vstd::prelude::*;
use crate::analysis;
use crate::bits;
use crate::board;
use crate::bot;
use crate::bot::{Bot, TbpMove};
use crate::movegen;
use crate::movegen::{mirror, placements, Placement};
use crate::physical;
use crate::physical::full_bottom_rows;
use crate::piece::Piece;
use crate::score::Op;
use crate::shapes;
use crate::tbpcoord;
use crate::tbpcoord::{decode, has_cell};

verus! {

/// The next state of the shuffler.
pub open spec fn scrambled(x: u64) -> u64 {
    let a = x ^ (x >> 12u64);
    let b = a ^ (a << 25u64);
    b ^ (b >> 27u64)
}

/// The number that the shuffler draws in a state.
pub open spec fn drawn(x: u64) -> u64 {
    (x.wrapping_mul(0x2545_F491_4F6C_DD1D)) >> 33u64
}

/// A new bag.
pub open spec fn whole_bag() -> Seq<u8> {
    seq![0, 1, 2, 3, 4, 5, 6]
}

/// What is in the bag when a piece is drawn: an empty bag is filled first.
pub open spec fn offered(left: Seq<u8>) -> Seq<u8> {
    if left.len() == 0 {
        whole_bag()
    } else {
        left
    }
}

/// A shuffler that deals bags of seven.
pub struct Bag {
    pub rng: u64,
    pub left: Vec<Piece>,
}

impl Bag {
    /// The bag holds pieces, each at most once.
    pub open spec fn wf(&self) -> bool {
        &&& self.left@.no_duplicates()
        &&& forall|i: int| 0 <= i < self.left@.len() ==> self.left@[i] < 7
        &&& self.left@.len() <= 7
    }

    /// Deal a piece: one that is in the bag, which then holds it no more.
    pub fn next(&mut self) -> (p: Piece)
        requires
            old(self).wf(),
        ensures
            final(self).wf(),
            final(self).rng == scrambled(old(self).rng),
            ({
                let bag = offered(old(self).left@);
                let i = (drawn(final(self).rng) % bag.len() as u64) as int;
                &&& 0 <= i < bag.len()
                &&& p == bag[i]
                &&& final(self).left@ == bag.update(i, bag.last()).drop_last()
            }),
            p < 7,
            offered(old(self).left@).contains(p),
            forall|q: u8| #[trigger]
                final(self).left@.contains(q) <==> offered(old(self).left@).contains(q) && q != p,
    {
        if self.left.len() == 0 {
            let mut p: u8 = 0;
            while p < 7
                invariant
                    p <= 7,
                    self.left@ =~= Seq::new(p as nat, |i: int| i as u8),
                    self.rng == old(self).rng,
                decreases 7 - p,
            {
                self.left.push(p);
                p = p + 1;
            }
            assert(self.left@ =~= whole_bag());
        }
        let ghost bag = self.left@;
        self.rng = self.rng ^ (self.rng >> 12u64);
        self.rng = self.rng ^ (self.rng << 25u64);
        self.rng = self.rng ^ (self.rng >> 27u64);
        let n: usize = self.left.len();
        let d: u64 = self.rng.wrapping_mul(0x2545_F491_4F6C_DD1D) >> 33u64;
        let i: usize = (d % n as u64) as usize;
        let p: Piece = self.left[i];
        let last: Piece = self.left[n - 1];
        self.left.set(i, last);
        self.left.pop();
        proof {
            let now = self.left@;
            assert(now =~= bag.update(i as int, bag.last()).drop_last());
            assert forall|x: int, y: int| 0 <= x < now.len() && 0 <= y < now.len() && x != y implies now[x]
                != now[y] by {
                let a = if x == i {
                    bag.len() - 1
                } else {
                    x
                };
                let b = if y == i {
                    bag.len() - 1
                } else {
                    y
                };
                assert(bag[a] != bag[b]);
            }
            assert forall|q: u8| #[trigger] now.contains(q) <==> bag.contains(q) && q != p by {
                if now.contains(q) {
                    let x = choose|x: int| 0 <= x < now.len() && now[x] == q;
                    let a = if x == i {
                        bag.len() - 1
                    } else {
                        x
                    };
                    assert(bag[a] == q);
                    assert(a != i);
                }
                if bag.contains(q) && q != p {
                    let a = choose|a: int| 0 <= a < bag.len() && bag[a] == q;
                    if a == bag.len() - 1 {
                        assert(now[i as int] == q);
                    } else {
                        assert(now[a] == q);
                    }
                }
            }
        }
        p
    }
}

/// A board: bit `10 * row + column`, from the bottom and from the left.
pub struct Phys {
    pub cells: u64,
}

impl Phys {
    /// The field of the board.
    pub fn to_engine_hash(&self) -> (h: u64)
        ensures
            h == movegen::mirrored(self.cells),
    {
        mirror(self.cells)
    }

    /// The board cell by cell, row by row from the bottom, as hosts send it.
    pub fn board_cells(&self) -> (b: [u8; 400])
        ensures
            forall|i: int|
                0 <= i < 400 ==> #[trigger] b@[i] == if i < 40 && bits::bit(self.cells, i) {
                    1u8
                } else {
                    0u8
                },
    {
        let mut b: [u8; 400] = [0u8; 400];
        let mut i: usize = 0;
        while i < 40
            invariant
                i <= 40,
                forall|k: int|
                    0 <= k < 400 ==> #[trigger] b@[k] == if k < i && bits::bit(self.cells, k) {
                        1u8
                    } else {
                        0u8
                    },
            decreases 40 - i,
        {
            proof {
                reveal(bits::bit);
            }
            if (self.cells >> (i as u64)) & 1 == 1 {
                b[i] = 1;
            }
            i = i + 1;
        }
        b
    }

    /// Fill four free cells and take out the full rows. How many rows were taken out.
    pub fn place(&mut self, cells4: [u8; 4]) -> (cleared: u32)
        requires
            forall|i: int|
                0 <= i < 4 ==> #[trigger] cells4@[i] < 40 && !bits::bit(
                    old(self).cells,
                    cells4@[i] as int,
                ),
            cells4@.no_duplicates(),
            old(self).cells < 0x100_0000_0000,
        ensures
            ({
                let full = board::with_cells(old(self).cells, cells4@);
                &&& final(self).cells == board::cleared(full)
                &&& cleared == movegen::full_rows(full, 4).len()
            }),
    {
        let ghost before = self.cells;
        let mut i: usize = 0;
        assert(cells4@.take(0) =~= Seq::<u8>::empty());
        while i < 4
            invariant
                i <= 4,
                forall|k: int| 0 <= k < 4 ==> #[trigger] cells4@[k] < 40,
                self.cells == board::with_cells(before, cells4@.take(i as int)),
            decreases 4 - i,
        {
            proof {
                assert(cells4@.take(i + 1).drop_last() =~= cells4@.take(i as int));
                assert(cells4@[i as int] < 40);
            }
            self.cells = self.cells | (1u64 << (cells4[i] as u64));
            i = i + 1;
        }
        assert(cells4@.take(4) =~= cells4@);
        let full: u64 = self.cells;
        let mut out: u64 = 0;
        let mut dst: u64 = 0;
        let mut cleared: u32 = 0;
        let mut r: u64 = 0;
        while r < 4
            invariant
                r <= 4,
                dst <= r,
                cleared <= r,
                dst == movegen::open_rows(full, r as nat).len(),
                cleared == movegen::full_rows(full, r as nat).len(),
                out == movegen::stack(full, movegen::open_rows(full, r as nat)),
            decreases 4 - r,
        {
            let row: u64 = (full >> (10 * r)) & 1023;
            assert(row == movegen::line(full, r as int));
            if row == 1023 {
                cleared = cleared + 1;
            } else {
                proof {
                    let was = movegen::open_rows(full, r as nat);
                    assert(movegen::open_rows(full, (r + 1) as nat) =~= was.push(r as int));
                    assert(was.push(r as int).drop_last() =~= was);
                }
                out = out | (row << (10 * dst));
                dst = dst + 1;
            }
            r = r + 1;
        }
        self.cells = out;
        cleared
    }
}

/* ---- dealing ---- */

/// The piece that the host deals: one deal may go wrong.
pub open spec fn dealt(p: u8, idx: int, corrupt: Option<usize>) -> u8 {
    if corrupt is Some && corrupt->0 == idx {
        ((p + 1) % 7) as u8
    } else {
        p
    }
}

/// Deal the next piece.
pub fn deal(bag: &mut Bag, idx: &mut usize, corrupt: Option<usize>) -> (p: Piece)
    requires
        old(bag).wf(),
        *old(idx) < usize::MAX,
    ensures
        final(bag).wf(),
        *final(idx) == *old(idx) + 1,
        final(bag).rng == scrambled(old(bag).rng),
        ({
            let from = offered(old(bag).left@);
            let i = (drawn(final(bag).rng) % from.len() as u64) as int;
            &&& p == dealt(from[i], *old(idx) as int, corrupt)
            &&& final(bag).left@ == from.update(i, from.last()).drop_last()
        }),
        p < 7,
{
    let mut p: Piece = bag.next();
    if let Some(at) = corrupt {
        if at == *idx {
            p = (p + 1) % 7;
        }
    }
    *idx = *idx + 1;
    p
}

/// What the host holds: the pieces to come, the one that is due first, and the piece in hold.
pub struct Hand {
    pub queue: Vec<Piece>,
    pub hold: Option<Piece>,
}

impl Hand {
    /// The piece can be placed now.
    pub open spec fn offers(&self, p: u8) -> bool {
        ||| self.queue@[0] == p
        ||| self.hold == Some(p)
        ||| self.hold is None && self.queue@.len() > 1 && self.queue@[1] == p
    }

    /// Take the piece that is placed: the one that is due, or, after a swap, the one in hold or the
    /// one behind the one that is due. Whether it could be placed; if not, nothing changes.
    pub fn take_piece(&mut self, p: Piece) -> (r: bool)
        requires
            old(self).queue@.len() > 0,
        ensures
            r == old(self).offers(p),
            !r ==> *final(self) == *old(self),
            r && old(self).queue@[0] == p ==> final(self).hold == old(self).hold
                && final(self).queue@ == old(self).queue@.skip(1),
            r && old(self).queue@[0] != p ==> final(self).hold == Some(old(self).queue@[0]),
            r && old(self).queue@[0] != p && old(self).hold is Some ==> final(self).queue@ == old(
                self,
            ).queue@.skip(1),
            r && old(self).queue@[0] != p && old(self).hold is None ==> final(self).queue@ == old(
                self,
            ).queue@.skip(2),
    {
        let ghost was = self.queue@;
        let active: Piece = self.queue[0];
        if p == active {
            self.queue.remove(0);
            assert(self.queue@ =~= was.skip(1));
            return true;
        }
        match self.hold {
            Some(h) => {
                if h != p {
                    return false;
                }
                self.hold = Some(self.queue.remove(0));
                assert(self.queue@ =~= was.skip(1));
            },
            None => {
                if self.queue.len() < 2 || self.queue[1] != p {
                    return false;
                }
                self.hold = Some(self.queue.remove(0));
                self.queue.remove(0);
                assert(self.queue@ =~= was.skip(2));
            },
        }
        true
    }
}

/* ---- moves on the board ---- */

/// The cell lies on the board.
pub open spec fn on_board(c: (int, int)) -> bool {
    0 <= c.0 < 10 && 0 <= c.1 < 4
}

/// The cells of a move on the board; none where one of them lies off the board.
pub fn landed(piece: Piece, orient: u8, x: i8, y: i8) -> (r: Option<[u8; 4]>)
    requires
        piece < 7,
    ensures
        r is Some <==> forall|i: int|
            0 <= i < 4 ==> on_board(
                #[trigger] tbpcoord::cell(piece as int, orient as int, x as int, y as int, i),
            ),
        r matches Some(cells) ==> cells@.no_duplicates() && forall|i: int|
            0 <= i < 4 ==> {
                let c = tbpcoord::cell(piece as int, orient as int, x as int, y as int, i);
                #[trigger] cells@[i] == 10 * c.1 + c.0 && cells@[i] < 40
            },
{
    let ghost (gp, go, gx, gy) = (piece as int, orient as int, x as int, y as int);
    if x < -2 || x > 12 || y < -2 || y > 6 {
        proof {
            tbpcoord::lemma_offset_small(gp, go, 0);
            assert(!on_board(tbpcoord::cell(gp, go, gx, gy, 0)));
        }
        return None;
    }
    proof {
        tbpcoord::lemma_offset_small(gp, go, 0);
        tbpcoord::lemma_offset_small(gp, go, 1);
        tbpcoord::lemma_offset_small(gp, go, 2);
        tbpcoord::lemma_offset_small(gp, go, 3);
    }
    let dec = decode(piece, orient, x, y);
    let mut cells: [u8; 4] = [0, 0, 0, 0];
    let mut i: usize = 0;
    while i < 4
        invariant
            i <= 4,
            gp == piece,
            go == orient,
            gx == x,
            gy == y,
            forall|j: int| 0 <= j < 4 ==> tbpcoord::pair(#[trigger] dec@[j]) == tbpcoord::cell(
                gp,
                go,
                gx,
                gy,
                j,
            ),
            forall|j: int| 0 <= j < i ==> on_board(#[trigger] tbpcoord::cell(gp, go, gx, gy, j)),
            forall|j: int|
                0 <= j < i ==> {
                    let c = tbpcoord::cell(gp, go, gx, gy, j);
                    #[trigger] cells@[j] == 10 * c.1 + c.0 && cells@[j] < 40
                },
        decreases 4 - i,
    {
        let (c, r): (i8, i8) = dec[i];
        assert(tbpcoord::pair(dec@[i as int]) == tbpcoord::cell(gp, go, gx, gy, i as int));
        if c < 0 || c >= 10 || r < 0 || r >= 4 {
            return None;
        }
        cells[i] = (r as u8) * 10 + c as u8;
        i = i + 1;
    }
    proof {
        assert forall|a: int, b: int| 0 <= a < 4 && 0 <= b < 4 && a != b implies cells@[a]
            != cells@[b] by {
            if a < b {
                tbpcoord::law_cells_differ(gp, go, gx, gy, a, b);
            } else {
                tbpcoord::law_cells_differ(gp, go, gx, gy, b, a);
            }
            assert(on_board(tbpcoord::cell(gp, go, gx, gy, a)));
            assert(on_board(tbpcoord::cell(gp, go, gx, gy, b)));
        }
    }
    Some(cells)
}

/// The same cells.
pub open spec fn same_places(a: Seq<(i8, i8)>, b: Seq<(i8, i8)>) -> bool {
    &&& forall|i: int| 0 <= i < a.len() ==> tbpcoord::holds(b, tbpcoord::pair(#[trigger] a[i]))
    &&& forall|i: int| 0 <= i < b.len() ==> tbpcoord::holds(a, tbpcoord::pair(#[trigger] b[i]))
}

/// The placement comes to rest on the cells, which are given without the lines sunk in the field.
pub open spec fn rests_on(pl: Placement, field: u64, piece: u8, cells: Seq<(i8, i8)>) -> bool {
    &&& shapes::lands(piece as int, movegen::mirrored(field), pl.spot(piece as int))
    &&& pl.shows(piece as int, field)
    &&& same_places(
        physical::lowered(pl.cells@, physical::sunk_rows(field, 0) as int),
        cells,
    )
}

/// The piece can come to rest on the cells.
pub open spec fn can_rest(field: u64, piece: u8, cells: Seq<(i8, i8)>) -> bool {
    exists|pl: Placement| #[trigger] rests_on(pl, field, piece, cells)
}

fn within(a: &[(i8, i8); 4], b: &[(i8, i8); 4]) -> (r: bool)
    ensures
        r <==> forall|i: int|
            0 <= i < 4 ==> tbpcoord::holds(b@, tbpcoord::pair(#[trigger] a@[i])),
{
    let mut i: usize = 0;
    while i < 4
        invariant
            i <= 4,
            forall|j: int|
                0 <= j < i ==> tbpcoord::holds(b@, tbpcoord::pair(#[trigger] a@[j])),
        decreases 4 - i,
    {
        if !has_cell(b, a[i]) {
            assert(!tbpcoord::holds(b@, tbpcoord::pair(a@[i as int])));
            return false;
        }
        i = i + 1;
    }
    true
}

/// Can the piece come to rest on the cells?
pub fn reachable(piece: Piece, field: u64, cells: &[(i8, i8); 4]) -> (r: bool)
    requires
        piece < 7,
    ensures
        r == can_rest(field, piece, cells@),
{
    let list = placements(piece as usize, field);
    let sunk: i8 = full_bottom_rows(field) as i8;
    let mut i: usize = 0;
    while i < list.len()
        invariant
            i <= list@.len(),
            piece < 7,
            0 <= sunk <= 4,
            sunk == physical::sunk_rows(field, 0),
            movegen::placements_of(piece as int, field, list@),
            forall|j: int|
                0 <= j < i ==> !rests_on(#[trigger] list@[j], field, piece, cells@),
        decreases list@.len() - i,
    {
        let pl: Placement = list[i];
        proof {
            let s = pl.spot(piece as int);
            assert(shapes::lands(piece as int, movegen::mirrored(field), list@[i as int].spot(piece as int)));
            movegen::lemma_mirrored_small(field);
            shapes::lemma_reachable_fits(piece as int, movegen::mirrored(field), s);
            physical::lemma_cells_range(pl, field, piece as int);
        }
        let there: [(i8, i8); 4] = [
            (pl.cells[0].0, pl.cells[0].1 - sunk),
            (pl.cells[1].0, pl.cells[1].1 - sunk),
            (pl.cells[2].0, pl.cells[2].1 - sunk),
            (pl.cells[3].0, pl.cells[3].1 - sunk),
        ];
        assert(there@ =~= physical::lowered(pl.cells@, sunk as int));
        if within(&there, cells) && within(cells, &there) {
            assert(rests_on(pl, field, piece, cells@));
            return true;
        }
        i = i + 1;
    }
    proof {
        if can_rest(field, piece, cells@) {
            let pl = choose|pl: Placement| #[trigger] rests_on(pl, field, piece, cells@);
            let s = pl.spot(piece as int);
            assert(shapes::lands(piece as int, movegen::mirrored(field), s));
            let j = choose|j: int| 0 <= j < list@.len() && (#[trigger] list@[j]).spot(piece as int) == s;
            let other = list@[j];
            assert forall|c: int| 0 <= c < 4 implies #[trigger] other.cells@[c] == pl.cells@[c] by {
                assert(pl.cells@[c].0 == s.cell_at(c) % 10);
                assert(other.cells@[c].0 == s.cell_at(c) % 10);
            }
            assert(other.cells@ =~= pl.cells@);
            assert(rests_on(other, field, piece, cells@));
        }
    }
    false
}

/// What the bot answers can be played: the piece comes to rest on the cells of the move.
pub proof fn law_realized_can_rest(
    field: u64,
    piece: u8,
    after: u64,
    orient: u8,
    x: i8,
    y: i8,
    cells: Seq<(i8, i8)>,
)
    requires
        piece < 7,
        physical::realizes(field, piece, after, orient, x, y),
        cells.len() == 4,
        forall|i: int|
            0 <= i < 4 ==> tbpcoord::pair(#[trigger] cells[i]) == tbpcoord::cell(
                piece as int,
                orient as int,
                x as int,
                y as int,
                i,
            ),
    ensures
        can_rest(field, piece, cells),
{
    let pl = choose|pl: Placement| #[trigger]
        physical::realizes_by(pl, field, piece, after, orient, x, y);
    let low = physical::lowered(pl.cells@, physical::sunk_rows(field, 0) as int);
    let (p, o, gx, gy) = (piece as int, orient as int, x as int, y as int);
    assert forall|i: int| 0 <= i < 4 implies tbpcoord::holds(
        cells,
        tbpcoord::pair(#[trigger] low[i]),
    ) by {
        let j = tbpcoord::law_covers_exactly(low, p, o, gx, gy, i);
        assert(tbpcoord::pair(cells[j]) == tbpcoord::cell(p, o, gx, gy, j));
    }
    assert forall|i: int| 0 <= i < 4 implies tbpcoord::holds(
        low,
        tbpcoord::pair(#[trigger] cells[i]),
    ) by {
        assert(tbpcoord::holds(low, tbpcoord::cell(p, o, gx, gy, i)));
    }
    assert(rests_on(pl, field, piece, cells));
}

/// The host follows the bot. Where the bot's field is settled and a move of it leads to the field
/// `after`, the cells of the move lie on the host's board and are free, and filling them and taking
/// out the full lines gives the board of `after`.
pub proof fn law_host_follows(
    field: u64,
    piece: u8,
    after: u64,
    orient: u8,
    x: i8,
    y: i8,
    cells: Seq<u8>,
)
    requires
        piece < 7,
        board::settled(field),
        physical::realizes(field, piece, after, orient, x, y),
        cells.len() == 4,
        forall|i: int|
            0 <= i < 4 ==> (#[trigger] cells[i]) == ({
                let c = tbpcoord::cell(piece as int, orient as int, x as int, y as int, i);
                (10 * c.1 + c.0) as u8
            }),
    ensures
        forall|i: int|
            0 <= i < 4 ==> on_board(
                #[trigger] tbpcoord::cell(piece as int, orient as int, x as int, y as int, i),
            ),
        forall|i: int|
            0 <= i < 4 ==> (#[trigger] cells[i]) < 40 && !bits::bit(
                board::board_of(field),
                cells[i] as int,
            ),
        board::cleared(board::with_cells(board::board_of(field), cells)) == board::board_of(after),
        board::settled(after),
{
    let pl = choose|pl: Placement| #[trigger]
        physical::realizes_by(pl, field, piece, after, orient, x, y);
    let k = physical::sunk_rows(field, 0) as int;
    let low = physical::lowered(pl.cells@, k);
    let (p, o, gx, gy) = (piece as int, orient as int, x as int, y as int);
    let there = board::cells_on_board(pl, k);
    board::law_board_follows(field, p, pl);
    board::lemma_lowered(field, p, pl);
    assert forall|i: int| 0 <= i < 4 implies on_board(
        #[trigger] tbpcoord::cell(p, o, gx, gy, i),
    ) && there.contains(cells[i]) by {
        assert(tbpcoord::holds(low, tbpcoord::cell(p, o, gx, gy, i)));
        let j = choose|j: int|
            0 <= j < low.len() && tbpcoord::pair(#[trigger] low[j]) == tbpcoord::cell(
                p,
                o,
                gx,
                gy,
                i,
            );
        assert(there[j] == cells[i]);
    }
    assert forall|i: int| 0 <= i < 4 implies (#[trigger] cells[i]) < 40 && !bits::bit(
        board::board_of(field),
        cells[i] as int,
    ) by {
        assert(on_board(tbpcoord::cell(p, o, gx, gy, i)));
        let j = choose|j: int| 0 <= j < there.len() && there[j] == cells[i];
        assert(there[j] < 40);
    }
    assert forall|c: u8| #[trigger] cells.contains(c) <==> there.contains(c) by {
        if cells.contains(c) {
            let i = choose|i: int| 0 <= i < cells.len() && cells[i] == c;
            assert(on_board(tbpcoord::cell(p, o, gx, gy, i)));
        }
        if there.contains(c) {
            let j = choose|j: int| 0 <= j < there.len() && there[j] == c;
            let i = tbpcoord::law_covers_exactly(low, p, o, gx, gy, j);
            assert(tbpcoord::pair(low[j]) == tbpcoord::cell(p, o, gx, gy, i));
            assert(cells[i] == c);
        }
    }
    board::law_order_of_cells(board::board_of(field), cells, there);
}

/// A suggestion can be played on the host's board, and leads there to the board of the field that
/// the bot expects.
pub proof fn law_suggestion_can_be_played<F: Fn(Op) -> u64 + Copy>(
    before: Bot<F>,
    after: Bot<F>,
    mv: TbpMove,
    cells: Seq<u8>,
)
    requires
        before.wf(),
        before.loop_state is Some,
        after.wf(),
        after.same_state(&before),
        after.loop_state == before.loop_state,
        before.moves_on(&after, before.loop_state->0, Some(mv)),
        cells.len() == 4,
        forall|i: int|
            0 <= i < 4 ==> (#[trigger] cells[i]) == ({
                let c = tbpcoord::cell(mv.piece as int, mv.orient as int, mv.x as int, mv.y as int, i);
                (10 * c.1 + c.0) as u8
            }),
    ensures
        forall|i: int|
            0 <= i < 4 ==> on_board(
                #[trigger] tbpcoord::cell(
                    mv.piece as int,
                    mv.orient as int,
                    mv.x as int,
                    mv.y as int,
                    i,
                ),
            ),
        forall|i: int|
            0 <= i < 4 ==> (#[trigger] cells[i]) < 40 && !bits::bit(
                board::board_of(before.board_hash),
                cells[i] as int,
            ),
        after.pending matches Some(c) && board::cleared(
            board::with_cells(board::board_of(before.board_hash), cells),
        ) == board::board_of(c.field_after),
{
    let ls = before.loop_state->0;
    let g = ls.vs.game();
    let c = after.pending->0;
    bot::law_board_is_settled(before);
    analysis::lemma_walked(g, g.root(), ls.path@);
    assert(after.playable(ls, c));
    assert(mv.piece < 7);
    law_host_follows(before.board_hash, mv.piece, c.field_after, mv.orient, mv.x, mv.y, cells);
}

} // verus!
