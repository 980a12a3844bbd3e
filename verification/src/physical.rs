//! From a placement in the box to the coordinates that the host speaks. In the box cleared lines
//! still lie sunk at the bottom; on the board of the host they are gone.

use vstd::prelude::*;
use crate::movegen;
use crate::movegen::{placements, Placement};
use crate::piece::Piece;
use crate::shapes;
use crate::shapes::Spot;
use crate::tbpcoord;
use crate::tbpcoord::encode;

verus! {

/// How many full rows lie at the bottom of a field, counted from row `k`.
pub open spec fn sunk_rows(field: u64, k: nat) -> nat
    decreases 4 - k,
{
    if k < 4 && movegen::line(field, k as int) == 1023 {
        sunk_rows(field, k + 1)
    } else {
        k
    }
}

/// The cells `k` rows lower.
pub open spec fn lowered(cells: Seq<(i8, i8)>, k: int) -> Seq<(i8, i8)> {
    Seq::new(cells.len(), |i: int| (cells[i].0, (cells[i].1 - k) as i8))
}

/// The first of the spots from which the field leads to `after`.
pub open spec fn first_leading(order: Seq<Spot>, field: u64, after: u64) -> Option<Spot>
    decreases order.len(),
{
    if order.len() == 0 {
        None
    } else if movegen::child_of(field, order[0]) == after {
        Some(order[0])
    } else {
        first_leading(order.drop_first(), field, after)
    }
}

/// The coordinates are those of the first placement of the piece that leads from the field to
/// `after`, in an orientation that the piece is given in.
pub open spec fn realizes(field: u64, piece: u8, after: u64, orient: u8, x: i8, y: i8) -> bool {
    exists|pl: Placement| #[trigger]
        realizes_by(pl, field, piece, after, orient, x, y)
}

pub open spec fn realizes_by(
    pl: Placement,
    field: u64,
    piece: u8,
    after: u64,
    orient: u8,
    x: i8,
    y: i8,
) -> bool {
    &&& shapes::lands(piece as int, movegen::mirrored(field), pl.spot(piece as int))
    &&& first_leading(
        movegen::rest_order(piece as int, movegen::mirrored(field)),
        field,
        after,
    ) == Some(pl.spot(piece as int))
    &&& pl.shows(piece as int, field)
    &&& pl.child_hash == after
    &&& tbpcoord::canonical(piece as int, orient as int)
    &&& tbpcoord::covers(
        lowered(pl.cells@, sunk_rows(field, 0) as int),
        piece as int,
        orient as int,
        x as int,
        y as int,
    )
}

/// The cell that a piece turns about, from the corner of its bounding box.
pub open spec fn pivot(p: int, o: int) -> (int, int) {
    if p == 0 {
        if o == 0 {
            (1, 0)
        } else if o == 1 {
            (0, 2)
        } else if o == 2 {
            (2, 0)
        } else {
            (0, 1)
        }
    } else if p == 3 {
        if o == 0 {
            (0, 0)
        } else if o == 1 {
            (0, 1)
        } else if o == 2 {
            (1, 1)
        } else {
            (1, 0)
        }
    } else {
        if o == 0 {
            (1, 0)
        } else if o == 1 {
            (0, 1)
        } else {
            (1, 1)
        }
    }
}

/// The cells of a piece in the box are its cells about its pivot.
proof fn lemma_pivot(p: int, o: int, i: int)
    requires
        0 <= p < 7,
        0 <= o < 4,
        0 <= i < 4,
    ensures
        ({
            let c = tbpcoord::cell(p, o, pivot(p, o).0, pivot(p, o).1, i);
            let w = 10 * c.1 + c.0;
            &&& 0 <= c.0 <= 3
            &&& 0 <= c.1 <= 3
            &&& c.0 <= 9 - shapes::max_col(p, o)
            &&& w == shapes::cell(p, o, 0) || w == shapes::cell(p, o, 1) || w == shapes::cell(
                p,
                o,
                2,
            ) || w == shapes::cell(p, o, 3)
        }),
{
    assert(p == 0 || p == 1 || p == 2 || p == 3 || p == 4 || p == 5 || p == 6);
    assert(o == 0 || o == 1 || o == 2 || o == 3);
    assert(i == 0 || i == 1 || i == 2 || i == 3);
}

/// Every placement can be given in the coordinates of the host.
pub proof fn law_placement_has_coordinates(pl: Placement, field: u64, piece: int, k: int)
    requires
        0 <= piece < 7,
        pl.shows(piece, field),
        pl.spot(piece).known(),
        pl.spot(piece).in_box(),
        0 <= k <= 4,
    ensures
        ({
            let o = pl.orient as int;
            let (x, y) = (pl.col + pivot(piece, o).0, pl.row - k + pivot(piece, o).1);
            let t = tbpcoord::twin(piece, o, x, y);
            &&& tbpcoord::covers(lowered(pl.cells@, k), piece, o, x, y)
            &&& tbpcoord::canonical(piece, t.0)
            &&& tbpcoord::covers(lowered(pl.cells@, k), piece, t.0, t.1, t.2)
        }),
{
    let o = pl.orient as int;
    let s = pl.spot(piece);
    let (x, y) = (pl.col + pivot(piece, o).0, pl.row - k + pivot(piece, o).1);
    let cells = lowered(pl.cells@, k);
    assert forall|i: int| 0 <= i < 4 implies tbpcoord::holds(
        cells,
        #[trigger] tbpcoord::cell(piece, o, x, y, i),
    ) by {
        lemma_pivot(piece, o, i);
        let c = tbpcoord::cell(piece, o, pivot(piece, o).0, pivot(piece, o).1, i);
        let w = 10 * c.1 + c.0;
        let j: int = if w == shapes::cell(piece, o, 0) {
            0
        } else if w == shapes::cell(piece, o, 1) {
            1
        } else if w == shapes::cell(piece, o, 2) {
            2
        } else {
            3
        };
        assert(s.cell_at(j) == 10 * (pl.row + c.1) + (pl.col + c.0));
        assert(s.cell_at(j) % 10 == pl.col + c.0);
        assert(s.cell_at(j) / 10 == pl.row + c.1);
        assert(pl.cells@[j].0 == pl.col + c.0);
        assert(pl.cells@[j].1 == pl.row + c.1);
        assert(tbpcoord::pair(cells[j]) == tbpcoord::cell(piece, o, x, y, i));
    }
    tbpcoord::law_twin(cells, piece, o, x, y);
}

/// How many full rows lie at the bottom of a field.
pub fn full_bottom_rows(h: u64) -> (k: u32)
    ensures
        k == sunk_rows(h, 0),
        k <= 4,
{
    let mut k: u32 = 0;
    while k < 4 && (h >> ((10 * k) as u64)) & 1023 == 1023
        invariant
            k <= 4,
            sunk_rows(h, 0) == sunk_rows(h, k as nat),
        ensures
            k <= 4,
            sunk_rows(h, 0) == k,
        decreases 4 - k,
    {
        k = k + 1;
    }
    k
}

/// A transition has one pair of coordinates.
pub proof fn law_coordinates_are_unique(
    field: u64,
    piece: u8,
    after: u64,
    a: (u8, i8, i8),
    b: (u8, i8, i8),
)
    requires
        piece < 7,
        realizes(field, piece, after, a.0, a.1, a.2),
        realizes(field, piece, after, b.0, b.1, b.2),
    ensures
        a == b,
{
    let p = choose|pl: Placement| #[trigger]
        realizes_by(pl, field, piece, after, a.0, a.1, a.2);
    let q = choose|pl: Placement| #[trigger]
        realizes_by(pl, field, piece, after, b.0, b.1, b.2);
    let s = p.spot(piece as int);
    assert forall|i: int| 0 <= i < 4 implies p.cells@[i] == q.cells@[i] by {
        assert(p.cells@[i].0 == s.cell_at(i) % 10 && p.cells@[i].1 == s.cell_at(i) / 10);
        assert(q.cells@[i].0 == s.cell_at(i) % 10 && q.cells@[i].1 == s.cell_at(i) / 10);
    }
    assert(p.cells@ =~= q.cells@);
    tbpcoord::law_placement_is_unique(
        lowered(p.cells@, sunk_rows(field, 0) as int),
        piece as int,
        a.0 as int,
        a.1 as int,
        a.2 as int,
        b.0 as int,
        b.1 as int,
        b.2 as int,
    );
}

proof fn lemma_first_leading(order: Seq<Spot>, field: u64, after: u64, i: int)
    requires
        0 <= i < order.len(),
        movegen::child_of(field, order[i]) == after,
        forall|j: int| 0 <= j < i ==> movegen::child_of(field, #[trigger] order[j]) != after,
    ensures
        first_leading(order, field, after) == Some(order[i]),
    decreases i,
{
    if i > 0 {
        let rest = order.drop_first();
        assert(movegen::child_of(field, order[0]) != after);
        assert forall|j: int| 0 <= j < i - 1 implies movegen::child_of(field, #[trigger] rest[j])
            != after by {
            assert(rest[j] == order[j + 1]);
        }
        lemma_first_leading(rest, field, after, i - 1);
    }
}

/// The coordinates of the first placement of the piece that leads from the field to `after`.
pub fn realize(field: u64, piece: Piece, after: u64) -> (r: Option<(u8, i8, i8)>)
    requires
        piece < 7,
    ensures
        r is Some <==> movegen::is_child(piece as int, field, after),
        r matches Some((o, x, y)) ==> realizes(field, piece, after, o, x, y),
{
    let list = placements(piece as usize, field);
    let rows: u32 = full_bottom_rows(field);
    let sunk: i8 = rows as i8;
    proof {
        movegen::law_placements_give_children(piece as int, field, list@, after);
    }
    let mut i: usize = 0;
    while i < list.len()
        invariant
            i <= list@.len(),
            piece < 7,
            0 <= sunk <= 4,
            sunk == sunk_rows(field, 0),
            movegen::placements_of(piece as int, field, list@),
            movegen::in_rest_order(piece as int, field, list@),
            forall|j: int| 0 <= j < i ==> (#[trigger] list@[j]).child_hash != after,
            movegen::is_child(piece as int, field, after) <==> exists|j: int|
                0 <= j < list@.len() && (#[trigger] list@[j]).child_hash == after,
        decreases list@.len() - i,
    {
        if list[i].child_hash == after {
            let pl: Placement = list[i];
            let ghost s = pl.spot(piece as int);
            let ghost board = movegen::mirrored(field);
            proof {
                assert(list@[i as int].child_hash == after);
                assert(shapes::lands(piece as int, board, s) && pl.shows(piece as int, field));
                movegen::lemma_mirrored_small(field);
                shapes::lemma_reachable_fits(piece as int, board, s);
                lemma_cells_range(pl, field, piece as int);
                law_placement_has_coordinates(pl, field, piece as int, sunk as int);
                let order = movegen::spots(piece as int, list@);
                assert forall|j: int| 0 <= j < i implies movegen::child_of(
                    field,
                    #[trigger] order[j],
                ) != after by {
                    assert(list@[j].child_hash != after);
                    assert(list@[j].shows(piece as int, field));
                }
                lemma_first_leading(order, field, after, i as int);
            }
            let cells: [(i8, i8); 4] = [
                (pl.cells[0].0, pl.cells[0].1 - sunk),
                (pl.cells[1].0, pl.cells[1].1 - sunk),
                (pl.cells[2].0, pl.cells[2].1 - sunk),
                (pl.cells[3].0, pl.cells[3].1 - sunk),
            ];
            assert(cells@ =~= lowered(pl.cells@, sunk as int));
            let r = encode(piece, &cells);
            proof {
                if let Some((o, x, y)) = r {
                    assert(realizes_by(pl, field, piece, after, o, x, y));
                }
            }
            return r;
        }
        i = i + 1;
    }
    None
}

pub proof fn lemma_cells_range(pl: Placement, field: u64, piece: int)
    requires
        0 <= piece < 7,
        pl.shows(piece, field),
        pl.spot(piece).known(),
        pl.spot(piece).in_box(),
    ensures
        forall|i: int|
            0 <= i < 4 ==> 0 <= (#[trigger] pl.cells@[i]).0 < 10 && 0 <= pl.cells@[i].1 < 10,
{
    assert forall|i: int| 0 <= i < 4 implies 0 <= (#[trigger] pl.cells@[i]).0 < 10 && 0
        <= pl.cells@[i].1 < 10 by {
        let s = pl.spot(piece);
        shapes::lemma_shape(piece, pl.orient as int);
        assert(0 <= shapes::cell(piece, pl.orient as int, i) < 40);
        assert(0 <= s.cell_at(i) < 100);
    }
}

} // verus!
