//! Placements in the coordinates that hosts speak: the orientation, and the cell that the piece
//! turns about. Orientations are north, east, south and west; of orientations that cover the same
//! cells only one is ever given.

use vstd::prelude::*;
use crate::piece::Piece;

verus! {

/// The cells of each piece facing north, from the cell that it turns about: to the right and up.
pub const NORTH: [[(i8, i8); 4]; 7] = [
    [(-1, 0), (0, 0), (1, 0), (2, 0)],
    [(-1, 0), (0, 0), (1, 0), (-1, 1)],
    [(-1, 0), (0, 0), (1, 0), (1, 1)],
    [(0, 0), (1, 0), (0, 1), (1, 1)],
    [(-1, 0), (0, 0), (0, 1), (1, 1)],
    [(-1, 0), (0, 0), (1, 0), (0, 1)],
    [(-1, 1), (0, 1), (0, 0), (1, 0)],
];

/// A cell turned to an orientation.
pub open spec fn turned(c: (int, int), orient: int) -> (int, int) {
    if orient == 0 {
        (c.0, c.1)
    } else if orient == 1 {
        (c.1, -c.0)
    } else if orient == 2 {
        (-c.0, -c.1)
    } else {
        (-c.1, c.0)
    }
}

/// Cell `i` of a piece facing an orientation about the cell (0, 0).
pub open spec fn offset(p: int, orient: int, i: int) -> (int, int) {
    turned((NORTH@[p]@[i].0 as int, NORTH@[p]@[i].1 as int), orient)
}

/// Cell `i` of a placement.
pub open spec fn cell(p: int, orient: int, x: int, y: int, i: int) -> (int, int) {
    (x + offset(p, orient, i).0, y + offset(p, orient, i).1)
}

/// The orientations that a piece is given in.
pub open spec fn canonical(p: int, orient: int) -> bool {
    if p == 3 {
        orient == 0
    } else if p == 0 || p == 4 || p == 6 {
        orient == 0 || orient == 3
    } else {
        0 <= orient < 4
    }
}

/// A cell in numbers without bound.
pub open spec fn pair(c: (i8, i8)) -> (int, int) {
    (c.0 as int, c.1 as int)
}

/// The four cells are those of the placement. The cells of a placement differ, so four cells that
/// hold them all hold no other.
pub open spec fn covers(cells: Seq<(i8, i8)>, p: int, orient: int, x: int, y: int) -> bool {
    forall|i: int| 0 <= i < 4 ==> holds(cells, #[trigger] cell(p, orient, x, y, i))
}

pub open spec fn holds(cells: Seq<(i8, i8)>, c: (int, int)) -> bool {
    exists|j: int| 0 <= j < cells.len() && pair(#[trigger] cells[j]) == c
}

/// A number that a coordinate can hold.
pub open spec fn holdable(v: int) -> bool {
    -128 <= v <= 127
}

/// All cells of the placement have coordinates.
pub open spec fn has_room(p: int, orient: int, x: int, y: int) -> bool {
    forall|i: int|
        0 <= i < 4 ==> holdable((#[trigger] cell(p, orient, x, y, i)).0) && holdable(
            cell(p, orient, x, y, i).1,
        )
}

pub proof fn lemma_offset_small(p: int, orient: int, i: int)
    requires
        0 <= p < 7,
        0 <= i < 4,
    ensures
        -2 <= offset(p, orient, i).0 <= 2,
        -2 <= offset(p, orient, i).1 <= 2,
{
    assert(p == 0 || p == 1 || p == 2 || p == 3 || p == 4 || p == 5 || p == 6);
    assert(i == 0 || i == 1 || i == 2 || i == 3);
}

/// The cells of a placement differ.
pub proof fn law_cells_differ(p: int, orient: int, x: int, y: int, i: int, j: int)
    requires
        0 <= p < 7,
        0 <= i < j < 4,
    ensures
        cell(p, orient, x, y, i) != cell(p, orient, x, y, j),
{
    assert(p == 0 || p == 1 || p == 2 || p == 3 || p == 4 || p == 5 || p == 6);
    assert(i == 0 || i == 1 || i == 2);
    assert(j == 1 || j == 2 || j == 3);
}

/// Four cells that hold those of a placement hold no other.
pub proof fn law_covers_exactly(
    cells: Seq<(i8, i8)>,
    p: int,
    orient: int,
    x: int,
    y: int,
    j: int,
) -> (i: int)
    requires
        0 <= p < 7,
        cells.len() == 4,
        covers(cells, p, orient, x, y),
        0 <= j < 4,
    ensures
        0 <= i < 4,
        cell(p, orient, x, y, i) == pair(cells[j]),
{
    let c0 = cell(p, orient, x, y, 0);
    let c1 = cell(p, orient, x, y, 1);
    let c2 = cell(p, orient, x, y, 2);
    let c3 = cell(p, orient, x, y, 3);
    assert(holds(cells, c0) && holds(cells, c1) && holds(cells, c2) && holds(cells, c3));
    let j0 = choose|j: int| 0 <= j < cells.len() && pair(#[trigger] cells[j]) == c0;
    let j1 = choose|j: int| 0 <= j < cells.len() && pair(#[trigger] cells[j]) == c1;
    let j2 = choose|j: int| 0 <= j < cells.len() && pair(#[trigger] cells[j]) == c2;
    let j3 = choose|j: int| 0 <= j < cells.len() && pair(#[trigger] cells[j]) == c3;
    law_cells_differ(p, orient, x, y, 0, 1);
    law_cells_differ(p, orient, x, y, 0, 2);
    law_cells_differ(p, orient, x, y, 0, 3);
    law_cells_differ(p, orient, x, y, 1, 2);
    law_cells_differ(p, orient, x, y, 1, 3);
    law_cells_differ(p, orient, x, y, 2, 3);
    assert(j == j0 || j == j1 || j == j2 || j == j3);
    if j == j0 {
        0
    } else if j == j1 {
        1
    } else if j == j2 {
        2
    } else {
        3
    }
}

/// Two placements of a piece in orientations that it is given in, one in the other, are the same.
proof fn lemma_within(p: int, o: int, x: int, y: int, o2: int, x2: int, y2: int)
    requires
        0 <= p < 7,
        canonical(p, o),
        canonical(p, o2),
        forall|i: int| 0 <= i < 4 ==> one_of(p, o2, x2, y2, #[trigger] cell(p, o, x, y, i)),
    ensures
        o == o2,
        x == x2,
        y == y2,
{
    assert(one_of(p, o2, x2, y2, cell(p, o, x, y, 0)));
    assert(one_of(p, o2, x2, y2, cell(p, o, x, y, 1)));
    assert(one_of(p, o2, x2, y2, cell(p, o, x, y, 2)));
    assert(one_of(p, o2, x2, y2, cell(p, o, x, y, 3)));
    assert(p == 0 || p == 1 || p == 2 || p == 3 || p == 4 || p == 5 || p == 6);
    assert(o == 0 || o == 1 || o == 2 || o == 3);
    assert(o2 == 0 || o2 == 1 || o2 == 2 || o2 == 3);
}

/// The cell is one of the placement.
pub open spec fn one_of(p: int, o: int, x: int, y: int, c: (int, int)) -> bool {
    c == cell(p, o, x, y, 0) || c == cell(p, o, x, y, 1) || c == cell(p, o, x, y, 2) || c == cell(
        p,
        o,
        x,
        y,
        3,
    )
}

/// Four cells are those of at most one placement in an orientation that the piece is given in.
pub proof fn law_placement_is_unique(
    cells: Seq<(i8, i8)>,
    p: int,
    o: int,
    x: int,
    y: int,
    o2: int,
    x2: int,
    y2: int,
)
    requires
        0 <= p < 7,
        cells.len() == 4,
        canonical(p, o),
        canonical(p, o2),
        covers(cells, p, o, x, y),
        covers(cells, p, o2, x2, y2),
    ensures
        o == o2,
        x == x2,
        y == y2,
{
    assert forall|i: int| 0 <= i < 4 implies one_of(p, o2, x2, y2, #[trigger] cell(p, o, x, y, i)) by {
        let c = cell(p, o, x, y, i);
        assert(holds(cells, c));
        let j = choose|j: int| 0 <= j < cells.len() && pair(#[trigger] cells[j]) == c;
        let t = law_covers_exactly(cells, p, o2, x2, y2, j);
        assert(t == 0 || t == 1 || t == 2 || t == 3);
    }
    lemma_within(p, o, x, y, o2, x2, y2);
}

/// The orientation in which a piece that faces `orient` is given, and the cell that it then turns
/// about.
pub open spec fn twin(p: int, orient: int, x: int, y: int) -> (int, int, int) {
    if canonical(p, orient) {
        (orient, x, y)
    } else if p == 3 {
        if orient == 1 {
            (0, x, y - 1)
        } else if orient == 2 {
            (0, x - 1, y - 1)
        } else {
            (0, x - 1, y)
        }
    } else if p == 0 {
        if orient == 2 {
            (0, x - 1, y)
        } else {
            (3, x, y - 1)
        }
    } else {
        if orient == 2 {
            (0, x, y - 1)
        } else {
            (3, x + 1, y)
        }
    }
}

/// Every placement has a twin in an orientation that the piece is given in, with the same cells.
pub proof fn law_twin(cells: Seq<(i8, i8)>, p: int, orient: int, x: int, y: int)
    requires
        0 <= p < 7,
        0 <= orient < 4,
        covers(cells, p, orient, x, y),
    ensures
        ({
            let t = twin(p, orient, x, y);
            canonical(p, t.0) && covers(cells, p, t.0, t.1, t.2)
        }),
{
    let t = twin(p, orient, x, y);
    assert(p == 0 || p == 1 || p == 2 || p == 3 || p == 4 || p == 5 || p == 6);
    assert forall|i: int| 0 <= i < 4 implies holds(cells, #[trigger] cell(p, t.0, t.1, t.2, i)) by {
        let c = cell(p, t.0, t.1, t.2, i);
        assert(i == 0 || i == 1 || i == 2 || i == 3);
        assert(one_of(p, orient, x, y, c));
        assert(holds(cells, cell(p, orient, x, y, 0)));
        assert(holds(cells, cell(p, orient, x, y, 1)));
        assert(holds(cells, cell(p, orient, x, y, 2)));
        assert(holds(cells, cell(p, orient, x, y, 3)));
    }
}

/// The cell that a piece turns about is one of its cells.
proof fn lemma_anchor(p: int, orient: int, x: int, y: int)
    requires
        0 <= p < 7,
    ensures
        one_of(p, orient, x, y, (x, y)),
{
    assert(p == 0 || p == 1 || p == 2 || p == 3 || p == 4 || p == 5 || p == 6);
}

fn rot(c: (i8, i8), orient: u8) -> (r: (i8, i8))
    requires
        -2 <= c.0 <= 2,
        -2 <= c.1 <= 2,
    ensures
        pair(r) == turned(pair(c), orient as int),
{
    match orient {
        0 => (c.0, c.1),
        1 => (c.1, -c.0),
        2 => (-c.0, -c.1),
        _ => (-c.1, c.0),
    }
}

/// The orientations that a piece is given in, in order.
pub fn canonical_orients(piece: Piece) -> (r: Vec<u8>)
    ensures
        forall|i: int, j: int| 0 <= i < j < r@.len() ==> r@[i] < r@[j],
        forall|o: u8| #[trigger] r@.contains(o) <==> canonical(piece as int, o as int),
{
    let mut r: Vec<u8> = Vec::new();
    r.push(0);
    assert(r@[0] == 0);
    if piece == 3 {
    } else if piece == 0 || piece == 4 || piece == 6 {
        r.push(3);
        assert(r@[1] == 3);
    } else {
        r.push(1);
        r.push(2);
        r.push(3);
        assert(r@[1] == 1 && r@[2] == 2 && r@[3] == 3);
    }
    assert(r@[0] == 0);
    r
}

/// The cells of a placement.
pub fn decode(piece: Piece, orient: u8, x: i8, y: i8) -> (r: [(i8, i8); 4])
    requires
        piece < 7,
        has_room(piece as int, orient as int, x as int, y as int),
    ensures
        forall|i: int|
            0 <= i < 4 ==> pair(#[trigger] r@[i]) == cell(
                piece as int,
                orient as int,
                x as int,
                y as int,
                i,
            ),
{
    let a = wide_cell(piece, orient, x, y, 0);
    let b = wide_cell(piece, orient, x, y, 1);
    let c = wide_cell(piece, orient, x, y, 2);
    let d = wide_cell(piece, orient, x, y, 3);
    [
        (a.0 as i8, a.1 as i8),
        (b.0 as i8, b.1 as i8),
        (c.0 as i8, c.1 as i8),
        (d.0 as i8, d.1 as i8),
    ]
}

/// Cell `i` of a placement, wherever it lies.
fn wide_cell(piece: Piece, orient: u8, x: i8, y: i8, i: usize) -> (c: (i16, i16))
    requires
        piece < 7,
        i < 4,
    ensures
        (c.0 as int, c.1 as int) == cell(
            piece as int,
            orient as int,
            x as int,
            y as int,
            i as int,
        ),
{
    proof {
        lemma_offset_small(piece as int, 0, i as int);
        lemma_offset_small(piece as int, orient as int, i as int);
    }
    let (dx, dy): (i8, i8) = rot(NORTH[piece as usize][i], orient);
    (x as i16 + dx as i16, y as i16 + dy as i16)
}

/// Whether the cell is one of the four.
pub(crate) fn has_cell(cells: &[(i8, i8); 4], c: (i8, i8)) -> (r: bool)
    ensures
        r == holds(cells@, pair(c)),
{
    let mut j: usize = 0;
    while j < 4
        invariant
            j <= 4,
            forall|k: int| 0 <= k < j ==> pair(#[trigger] cells@[k]) != pair(c),
        decreases 4 - j,
    {
        if cells[j].0 == c.0 && cells[j].1 == c.1 {
            assert(pair(cells@[j as int]) == pair(c));
            return true;
        }
        j = j + 1;
    }
    false
}

/// Whether the cells are those of the placement.
fn is_placement(piece: Piece, orient: u8, x: i8, y: i8, cells: &[(i8, i8); 4]) -> (r: bool)
    requires
        piece < 7,
    ensures
        r == covers(cells@, piece as int, orient as int, x as int, y as int),
{
    let mut i: usize = 0;
    while i < 4
        invariant
            i <= 4,
            piece < 7,
            forall|k: int|
                0 <= k < i ==> holds(
                    cells@,
                    #[trigger] cell(piece as int, orient as int, x as int, y as int, k),
                ),
        decreases 4 - i,
    {
        let c: (i16, i16) = wide_cell(piece, orient, x, y, i);
        let ghost want = cell(piece as int, orient as int, x as int, y as int, i as int);
        let fits: bool = -128 <= c.0 && c.0 <= 127 && -128 <= c.1 && c.1 <= 127;
        if !fits || !has_cell(cells, (c.0 as i8, c.1 as i8)) {
            assert(!holds(cells@, want)) by {
                if holds(cells@, want) {
                    let j = choose|j: int|
                        0 <= j < cells@.len() && pair(#[trigger] cells@[j]) == want;
                    assert(holds(cells@, pair(cells@[j])));
                }
            }
            return false;
        }
        i = i + 1;
    }
    true
}

/// The orientation and the cell that the piece turns about, from the cells of a placement.
pub fn encode(piece: Piece, cells: &[(i8, i8); 4]) -> (r: Option<(u8, i8, i8)>)
    requires
        piece < 7,
    ensures
        r matches Some((o, x, y)) ==> canonical(piece as int, o as int) && covers(
            cells@,
            piece as int,
            o as int,
            x as int,
            y as int,
        ),
        r is None ==> forall|o: int, x: int, y: int|
            canonical(piece as int, o) ==> !#[trigger] covers(cells@, piece as int, o, x, y),
{
    let ghost p = piece as int;
    let orients = canonical_orients(piece);
    let mut i: usize = 0;
    while i < orients.len()
        invariant
            i <= orients@.len(),
            piece < 7,
            p == piece,
            forall|o: u8| #[trigger] orients@.contains(o) <==> canonical(p, o as int),
            forall|k: int, x: int, y: int|
                0 <= k < i ==> !#[trigger] covers(cells@, p, orients@[k] as int, x, y),
        decreases orients@.len() - i,
    {
        let o: u8 = orients[i];
        assert(orients@.contains(o));
        let mut a: usize = 0;
        while a < 4
            invariant
                a <= 4,
                piece < 7,
                p == piece,
                canonical(p, o as int),
                forall|k: int|
                    0 <= k < a ==> !covers(
                        cells@,
                        p,
                        o as int,
                        (#[trigger] cells@[k]).0 as int,
                        cells@[k].1 as int,
                    ),
            decreases 4 - a,
        {
            let (ax, ay): (i8, i8) = cells[a];
            if is_placement(piece, o, ax, ay, cells) {
                return Some((o, ax, ay));
            }
            a = a + 1;
        }
        proof {
            assert forall|x: int, y: int| !#[trigger] covers(cells@, p, o as int, x, y) by {
                if covers(cells@, p, o as int, x, y) {
                    lemma_anchor(p, o as int, x, y);
                    assert(holds(cells@, cell(p, o as int, x, y, 0)));
                    assert(holds(cells@, cell(p, o as int, x, y, 1)));
                    assert(holds(cells@, cell(p, o as int, x, y, 2)));
                    assert(holds(cells@, cell(p, o as int, x, y, 3)));
                    assert(holds(cells@, (x, y)));
                    let k = choose|k: int| 0 <= k < cells@.len() && pair(#[trigger] cells@[k]) == (x, y);
                    assert(cells@[k].0 == x && cells@[k].1 == y);
                }
            }
        }
        i = i + 1;
    }
    proof {
        assert forall|o: int, x: int, y: int|
            canonical(p, o) implies !#[trigger] covers(cells@, p, o, x, y) by {
            let u: u8 = o as u8;
            assert(orients@.contains(u));
            let k = choose|k: int| 0 <= k < orients@.len() && orients@[k] == u;
            assert(!covers(cells@, p, orients@[k] as int, x, y));
        }
    }
    None
}

/// What is decoded is encoded again: as it was where the piece is given in that orientation, else as
/// its twin.
pub proof fn law_round_trip(
    cells: Seq<(i8, i8)>,
    p: int,
    orient: int,
    x: int,
    y: int,
    o: int,
    ax: int,
    ay: int,
)
    requires
        0 <= p < 7,
        0 <= orient < 4,
        cells.len() == 4,
        forall|i: int| 0 <= i < 4 ==> pair(#[trigger] cells[i]) == cell(p, orient, x, y, i),
        canonical(p, o),
        covers(cells, p, o, ax, ay),
    ensures
        (o, ax, ay) == twin(p, orient, x, y),
        canonical(p, orient) ==> (o, ax, ay) == (orient, x, y),
{
    assert forall|i: int| 0 <= i < 4 implies holds(cells, #[trigger] cell(p, orient, x, y, i)) by {
        assert(pair(cells[i]) == cell(p, orient, x, y, i));
    }
    law_twin(cells, p, orient, x, y);
    let t = twin(p, orient, x, y);
    law_placement_is_unique(cells, p, o, ax, ay, t.0, t.1, t.2);
}

/* ---- orientations ---- */

/// Each orientation is the one before it turned a quarter clockwise about the cell of the placement,
/// and that cell is always one of the four.
pub proof fn law_orientations_turn(p: int, orient: int, x: int, y: int, i: int)
    requires
        0 <= p < 7,
        0 <= orient < 4,
        0 <= i < 4,
    ensures
        cell(p, (orient + 1) % 4, x, y, i) == (
            x + (cell(p, orient, x, y, i).1 - y),
            y - (cell(p, orient, x, y, i).0 - x),
        ),
        exists|j: int| 0 <= j < 4 && #[trigger] cell(p, orient, x, y, j) == (x, y),
{
    assert(p == 0 || p == 1 || p == 2 || p == 3 || p == 4 || p == 5 || p == 6);
    assert(orient == 0 || orient == 1 || orient == 2 || orient == 3);
    assert(i == 0 || i == 1 || i == 2 || i == 3);
    assert(cell(p, orient, x, y, 0) == (x, y) || cell(p, orient, x, y, 1) == (x, y) || cell(
        p,
        orient,
        x,
        y,
        2,
    ) == (x, y));
}

/// The square is given facing north only. The bar, S and Z look the same facing south as facing north,
/// and facing east as facing west: they are given facing north or west. All other pieces are given
/// as they are.
pub proof fn law_given_orientations(p: int, orient: int)
    requires
        0 <= p < 7,
        0 <= orient < 4,
    ensures
        canonical(p, 0),
        orient == 3 ==> (canonical(p, orient) <==> p != 3),
        orient == 1 || orient == 2 ==> (canonical(p, orient) <==> p == 1 || p == 2 || p == 5),
        !canonical(p, orient) && p != 3 ==> forall|x: int, y: int|
            ({
                let t = #[trigger] twin(p, orient, x, y);
                t.0 == (orient + 2) % 4
            }),
        p == 3 ==> forall|x: int, y: int| (#[trigger] twin(p, orient, x, y)).0 == 0,
{
}

} // verus!
