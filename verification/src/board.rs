//! The board of the host and the field of the box. On the board a full line is taken out; in the
//! box it sinks to the bottom and stays. Either way the lines that are left are the same.

use vstd::prelude::*;
use crate::bits;
use crate::movegen;
use crate::movegen::Placement;
use crate::physical;
use crate::shapes;

verus! {

/// The board of the host: the lines of the field that are not full.
pub open spec fn board_of(field: u64) -> u64 {
    cleared(movegen::mirrored(field))
}

/// The board without its full lines.
pub open spec fn cleared(b: u64) -> u64 {
    movegen::stack(b, movegen::open_rows(b, 4))
}

/// The board with the cells filled.
pub open spec fn with_cells(board: u64, cells: Seq<u8>) -> u64
    decreases cells.len(),
{
    if cells.len() == 0 {
        board
    } else {
        with_cells(board, cells.drop_last()) | (1u64 << (cells.last() as u64))
    }
}

/// Full lines lie nowhere but at the bottom.
pub open spec fn settled(field: u64) -> bool {
    forall|r: int|
        physical::sunk_rows(field, 0) <= r < 4 ==> #[trigger] movegen::line(field, r) != 1023
}

/// The cells of a placement on the board, which lacks `k` lines of the field.
pub open spec fn cells_on_board(pl: Placement, k: int) -> Seq<u8> {
    Seq::new(4, |i: int| (10 * (pl.cells@[i].1 - k) + pl.cells@[i].0) as u8)
}

/* ---- boards as lines ---- */

/// The lines below row `n` that are not full.
spec fn open_lines(b: u64, n: nat) -> Seq<u64>
    decreases n,
{
    if n == 0 {
        seq![]
    } else if movegen::line(b, n - 1) == 1023 {
        open_lines(b, (n - 1) as nat)
    } else {
        open_lines(b, (n - 1) as nat).push(movegen::line(b, n - 1))
    }
}

/// The board made of the lines, from the bottom up.
spec fn pile(ls: Seq<u64>) -> u64
    decreases ls.len(),
{
    if ls.len() == 0 {
        0
    } else {
        pile(ls.drop_last()) | (ls.last() << ((10 * (ls.len() - 1)) as u64))
    }
}

/// A line has ten cells.
spec fn thin(l: u64) -> bool {
    forall|c: int| 10 <= c ==> !#[trigger] bits::bit(l, c)
}

proof fn lemma_line_bit(b: u64, r: int, c: int)
    requires
        0 <= r < 4,
    ensures
        bits::bit(movegen::line(b, r), c) == (0 <= c < 10 && bits::bit(b, 10 * r + c)),
{
    broadcast use bits::group_bits;

    bits::lemma_bit_low_ten(c);
}

proof fn lemma_line_thin(b: u64, r: int)
    requires
        0 <= r < 4,
    ensures
        thin(movegen::line(b, r)),
{
    assert forall|c: int| 10 <= c implies !#[trigger] bits::bit(movegen::line(b, r), c) by {
        lemma_line_bit(b, r, c);
    }
}

/// A line is full when all of its cells are filled.
proof fn lemma_full_line(b: u64, r: int)
    requires
        0 <= r < 4,
    ensures
        movegen::line(b, r) == 1023 <==> forall|c: int|
            0 <= c < 10 ==> #[trigger] bits::bit(b, 10 * r + c),
{
    let l = movegen::line(b, r);
    if l == 1023 {
        assert forall|c: int| 0 <= c < 10 implies #[trigger] bits::bit(b, 10 * r + c) by {
            lemma_line_bit(b, r, c);
            bits::lemma_bit_low_ten(c);
        }
    }
    if forall|c: int| 0 <= c < 10 ==> #[trigger] bits::bit(b, 10 * r + c) {
        assert forall|c: int| 0 <= c < 64 implies bits::bit(l, c) == bits::bit(1023, c) by {
            lemma_line_bit(b, r, c);
            bits::lemma_bit_low_ten(c);
            if 0 <= c < 10 {
                assert(bits::bit(b, 10 * r + c));
            }
        }
        bits::lemma_bits_equal(l, 1023);
    }
}

/// Mirroring keeps full lines.
proof fn lemma_full_line_mirrored(b: u64, r: int)
    requires
        0 <= r < 4,
    ensures
        movegen::line(movegen::mirrored(b), r) == 1023 <==> movegen::line(b, r) == 1023,
{
    let m = movegen::mirrored(b);
    lemma_full_line(b, r);
    lemma_full_line(m, r);
    assert forall|c: int| 0 <= c < 10 implies #[trigger] bits::bit(m, 10 * r + c) == bits::bit(
        b,
        10 * r + (9 - c),
    ) by {
        movegen::lemma_mirrored(b, 10 * r + c);
    }
    if movegen::line(m, r) == 1023 {
        assert forall|c: int| 0 <= c < 10 implies #[trigger] bits::bit(b, 10 * r + c) by {
            assert(bits::bit(m, 10 * r + (9 - c)));
        }
    }
    if movegen::line(b, r) == 1023 {
        assert forall|c: int| 0 <= c < 10 implies #[trigger] bits::bit(m, 10 * r + c) by {
            assert(bits::bit(b, 10 * r + (9 - c)));
        }
    }
}

proof fn lemma_pile_bit(ls: Seq<u64>, j: int)
    requires
        ls.len() <= 4,
        forall|i: int| 0 <= i < ls.len() ==> thin(#[trigger] ls[i]),
    ensures
        bits::bit(pile(ls), j) == (0 <= j < 10 * ls.len() && bits::bit(ls[j / 10], j % 10)),
    decreases ls.len(),
{
    broadcast use bits::group_bits;

    if ls.len() > 0 {
        let n = ls.len() - 1;
        assert forall|i: int| 0 <= i < ls.drop_last().len() implies thin(
            #[trigger] ls.drop_last()[i],
        ) by {
            assert(thin(ls[i]));
        }
        lemma_pile_bit(ls.drop_last(), j);
        assert(thin(ls[n]));
        if 10 * n <= j < 10 * n + 10 {
            assert(j / 10 == n && j % 10 == j - 10 * n);
        } else if j >= 10 * n + 10 {
            assert(!bits::bit(ls[n], j - 10 * n));
        }
    }
}

proof fn lemma_line_of_pile(ls: Seq<u64>, i: int)
    requires
        ls.len() <= 4,
        forall|k: int| 0 <= k < ls.len() ==> thin(#[trigger] ls[k]),
        0 <= i < 4,
    ensures
        movegen::line(pile(ls), i) == if i < ls.len() {
            ls[i]
        } else {
            0
        },
{
    broadcast use bits::group_bits;

    let want: u64 = if i < ls.len() {
        ls[i]
    } else {
        0
    };
    assert forall|c: int| 0 <= c < 64 implies bits::bit(movegen::line(pile(ls), i), c)
        == bits::bit(want, c) by {
        lemma_line_bit(pile(ls), i, c);
        lemma_pile_bit(ls, 10 * i + c);
        if c < 10 {
            assert((10 * i + c) / 10 == i && (10 * i + c) % 10 == c);
        } else if i < ls.len() {
            assert(thin(ls[i]));
        }
    }
    bits::lemma_bits_equal(movegen::line(pile(ls), i), want);
}

/// Empty lines on top make no difference.
proof fn lemma_pile_empty_line(ls: Seq<u64>)
    requires
        ls.len() < 4,
    ensures
        pile(ls.push(0)) == pile(ls),
{
    broadcast use bits::group_bits;

    let more = ls.push(0);
    assert(more.drop_last() =~= ls);
    assert forall|j: int| 0 <= j < 64 implies bits::bit(pile(more), j) == bits::bit(pile(ls), j) by {}
    bits::lemma_bits_equal(pile(more), pile(ls));
}

/// The lines of the given rows.
spec fn picked(b: u64, rows: Seq<int>) -> Seq<u64> {
    Seq::new(rows.len(), |i: int| movegen::line(b, rows[i]))
}

proof fn lemma_stack(b: u64, rows: Seq<int>)
    ensures
        movegen::stack(b, rows) == pile(picked(b, rows)),
    decreases rows.len(),
{
    if rows.len() > 0 {
        lemma_stack(b, rows.drop_last());
        assert(picked(b, rows).drop_last() =~= picked(b, rows.drop_last()));
    }
}

/// The open rows and their lines.
proof fn lemma_open_rows(b: u64, n: nat)
    requires
        n <= 4,
    ensures
        picked(b, movegen::open_rows(b, n)) == open_lines(b, n),
        movegen::full_rows(b, n).len() + movegen::open_rows(b, n).len() == n,
        forall|i: int|
            0 <= i < movegen::full_rows(b, n).len() ==> 0 <= (#[trigger] movegen::full_rows(
                b,
                n,
            )[i]) < 4 && movegen::line(b, movegen::full_rows(b, n)[i]) == 1023,
        forall|i: int|
            0 <= i < movegen::open_rows(b, n).len() ==> 0 <= (#[trigger] movegen::open_rows(
                b,
                n,
            )[i]) < 4 && movegen::line(b, movegen::open_rows(b, n)[i]) != 1023,
    decreases n,
{
    if n > 0 {
        lemma_open_rows(b, (n - 1) as nat);
        let was = movegen::open_rows(b, (n - 1) as nat);
        if movegen::line(b, n - 1) != 1023 {
            assert(picked(b, was.push(n - 1)) =~= picked(b, was).push(movegen::line(b, n - 1)));
        }
    }
}

proof fn lemma_open_lines_thin(b: u64, n: nat)
    requires
        n <= 4,
    ensures
        open_lines(b, n).len() <= n,
        forall|i: int| 0 <= i < open_lines(b, n).len() ==> thin(#[trigger] open_lines(b, n)[i]),
    decreases n,
{
    if n > 0 {
        lemma_open_lines_thin(b, (n - 1) as nat);
        lemma_line_thin(b, n - 1);
    }
}

proof fn lemma_cleared(b: u64)
    ensures
        cleared(b) == pile(open_lines(b, 4)),
{
    lemma_open_rows(b, 4);
    lemma_stack(b, movegen::open_rows(b, 4));
}

/// The lines of a board whose full lines have sunk.
proof fn lemma_sunk_line(b: u64, i: int)
    requires
        0 <= i < 4,
    ensures
        movegen::full_rows(b, 4).len() + open_lines(b, 4).len() == 4,
        movegen::line(movegen::sunk(b), i) == if i < movegen::full_rows(b, 4).len() {
            1023
        } else {
            open_lines(b, 4)[i - movegen::full_rows(b, 4).len()]
        },
        i >= movegen::full_rows(b, 4).len() ==> open_lines(b, 4)[i - movegen::full_rows(
            b,
            4,
        ).len()] != 1023,
        movegen::sunk(b) < 1u64 << 40,
{
    let order = movegen::sink_order(b);
    let ls = picked(b, order);
    lemma_open_rows(b, 4);
    lemma_stack(b, order);
    assert forall|k: int| 0 <= k < ls.len() implies thin(#[trigger] ls[k]) by {
        lemma_line_thin(b, order[k]);
    }
    lemma_line_of_pile(ls, i);
    let full = movegen::full_rows(b, 4);
    if i >= full.len() {
        assert(open_lines(b, 4)[i - full.len()] == picked(b, movegen::open_rows(b, 4))[i
            - full.len()]);
    }
    assert forall|j: int| 40 <= j implies !bits::bit(pile(ls), j) by {
        lemma_pile_bit(ls, j);
    }
    bits::lemma_bits_below(pile(ls), 40);
}

/// Sinking the full lines keeps the others.
proof fn lemma_sunk_open_lines(b: u64, n: nat)
    requires
        n <= 4,
    ensures
        open_lines(movegen::sunk(b), n) == open_lines(b, 4).take(
            if n < movegen::full_rows(b, 4).len() {
                0
            } else {
                n - movegen::full_rows(b, 4).len()
            },
        ),
    decreases n,
{
    let all = open_lines(b, 4);
    let full = movegen::full_rows(b, 4).len() as int;
    if n == 0 {
        assert(open_lines(movegen::sunk(b), 0) =~= all.take(0));
    } else {
        lemma_sunk_open_lines(b, (n - 1) as nat);
        lemma_sunk_line(b, n - 1);
        if n - 1 >= full {
            assert(all.take(n - full) =~= all.take(n - 1 - full).push(all[n - 1 - full]));
        }
    }
}

/// Clearing a board before or after its full lines have sunk is the same.
pub proof fn law_sinking_keeps_lines(b: u64)
    ensures
        cleared(movegen::sunk(b)) == cleared(b),
{
    lemma_sunk_open_lines(b, 4);
    lemma_sunk_line(b, 0);
    lemma_cleared(b);
    lemma_cleared(movegen::sunk(b));
    assert(open_lines(b, 4).take(open_lines(b, 4).len() as int) =~= open_lines(b, 4));
}

proof fn lemma_with_cells(board: u64, cells: Seq<u8>, j: int)
    requires
        forall|i: int| 0 <= i < cells.len() ==> (#[trigger] cells[i]) < 40,
    ensures
        bits::bit(with_cells(board, cells), j) == (bits::bit(board, j) || exists|i: int|
            0 <= i < cells.len() && (#[trigger] cells[i]) == j),
    decreases cells.len(),
{
    broadcast use bits::group_bits;

    if cells.len() > 0 {
        let less = cells.drop_last();
        assert forall|i: int| 0 <= i < less.len() implies (#[trigger] less[i]) < 40 by {
            assert(cells[i] < 40);
        }
        lemma_with_cells(board, less, j);
        let n = cells.len() - 1;
        assert(cells[n] < 40);
        bits::lemma_bit_one(cells.last() as u64, j);
        if exists|i: int| 0 <= i < less.len() && (#[trigger] less[i]) == j {
            let i = choose|i: int| 0 <= i < less.len() && (#[trigger] less[i]) == j;
            assert(cells[i] == j);
        }
        if exists|i: int| 0 <= i < cells.len() && (#[trigger] cells[i]) == j {
            let i = choose|i: int| 0 <= i < cells.len() && (#[trigger] cells[i]) == j;
            if i < n {
                assert(less[i] == j);
            }
        }
    }
}

/// The bottom rows of a field are full as far as they are counted.
proof fn lemma_sunk_rows(field: u64, k: nat)
    requires
        k <= 4,
    ensures
        k <= physical::sunk_rows(field, k) <= 4,
        forall|r: int|
            k <= r < physical::sunk_rows(field, k) ==> #[trigger] movegen::line(field, r) == 1023,
    decreases 4 - k,
{
    if k < 4 && movegen::line(field, k as int) == 1023 {
        lemma_sunk_rows(field, k + 1);
    }
}

/// The count of full rows at the bottom, told from the rows.
proof fn lemma_sunk_rows_are(field: u64, k: nat, n: nat)
    requires
        k <= n <= 4,
        forall|r: int| k <= r < n ==> #[trigger] movegen::line(field, r) == 1023,
        n < 4 ==> movegen::line(field, n as int) != 1023,
    ensures
        physical::sunk_rows(field, k) == n,
    decreases n - k,
{
    if k < n {
        assert(movegen::line(field, k as int) == 1023);
        lemma_sunk_rows_are(field, k + 1, n);
    }
}

/// The open lines of a settled board are those above the full ones.
proof fn lemma_settled_lines(b: u64, k: int, n: nat)
    requires
        0 <= k <= 4,
        n <= 4,
        forall|r: int| 0 <= r < k ==> #[trigger] movegen::line(b, r) == 1023,
        forall|r: int| k <= r < 4 ==> #[trigger] movegen::line(b, r) != 1023,
    ensures
        n <= k ==> open_lines(b, n).len() == 0,
        n >= k ==> open_lines(b, n) == Seq::new(
            (n - k) as nat,
            |i: int| movegen::line(b, k + i),
        ),
    decreases n,
{
    if n > 0 {
        lemma_settled_lines(b, k, (n - 1) as nat);
        assert(n - 1 < k ==> movegen::line(b, n - 1) == 1023);
        assert(n - 1 >= k ==> movegen::line(b, n - 1) != 1023);
        if n > k {
            assert(open_lines(b, n) =~= Seq::new(
                (n - k) as nat,
                |i: int| movegen::line(b, k + i),
            ));
        } else if n == k {
            assert(open_lines(b, n) =~= Seq::new(0, |i: int| movegen::line(b, k + i)));
        }
    } else if k == 0 {
        assert(open_lines(b, 0) =~= Seq::new(0, |i: int| movegen::line(b, k + i)));
    }
}

/// A board that lacks the `k` bottom lines of another, all of them full, has the same open lines.
proof fn lemma_lower_lines(b: u64, low: u64, k: int, n: nat)
    requires
        0 <= k <= 4,
        n <= 4 - k,
        forall|r: int| 0 <= r < k ==> #[trigger] movegen::line(b, r) == 1023,
        forall|r: int| 0 <= r < 4 - k ==> #[trigger] movegen::line(low, r) == movegen::line(
            b,
            k + r,
        ),
    ensures
        open_lines(low, n) == open_lines(b, (k + n) as nat),
    decreases n,
{
    if n == 0 {
        lemma_no_open_lines(b, k as nat);
        assert(open_lines(low, 0) =~= open_lines(b, k as nat));
    } else {
        lemma_lower_lines(b, low, k, (n - 1) as nat);
        assert(movegen::line(low, n - 1) == movegen::line(b, k + (n - 1)));
    }
}

proof fn lemma_no_open_lines(b: u64, k: nat)
    requires
        forall|r: int| 0 <= r < k ==> #[trigger] movegen::line(b, r) == 1023,
    ensures
        open_lines(b, k).len() == 0,
    decreases k,
{
    if k > 0 {
        lemma_no_open_lines(b, (k - 1) as nat);
        assert(movegen::line(b, k - 1) == 1023);
    }
}

/// Empty rows on top make no difference.
proof fn lemma_top_rows_empty(low: u64, m: nat, n: nat)
    requires
        m <= n <= 4,
        forall|r: int| m <= r < 4 ==> #[trigger] movegen::line(low, r) == 0,
    ensures
        pile(open_lines(low, n)) == pile(open_lines(low, m)),
    decreases n,
{
    if m < n {
        lemma_top_rows_empty(low, m, (n - 1) as nat);
        assert(movegen::line(low, n - 1) == 0);
        lemma_open_lines_thin(low, (n - 1) as nat);
        lemma_pile_empty_line(open_lines(low, (n - 1) as nat));
    }
}

/* ---- a placement on both ---- */

/// The cells of a resting piece, counted on the board that lacks `k` full lines of the field.
proof fn lemma_cells_on_board(field: u64, piece: int, pl: Placement, k: int)
    requires
        0 <= piece < 7,
        shapes::lands(piece, movegen::mirrored(field), pl.spot(piece)),
        pl.shows(piece, field),
        0 <= k <= 4,
        forall|r: int|
            0 <= r < k ==> #[trigger] movegen::line(movegen::mirrored(field), r) == 1023,
    ensures
        forall|i: int|
            0 <= i < 4 ==> {
                &&& 10 * k <= #[trigger] pl.spot(piece).cell_at(i) < 40
                &&& cells_on_board(pl, k)[i] == pl.spot(piece).cell_at(i) - 10 * k
                &&& !bits::bit(movegen::mirrored(field), pl.spot(piece).cell_at(i))
            },
        cells_on_board(pl, k).no_duplicates(),
{
    let b = movegen::mirrored(field);
    let s = pl.spot(piece);
    movegen::lemma_mirrored_small(field);
    shapes::lemma_reachable_fits(piece, b, s);
    shapes::lemma_shape(s.shape, s.orient);
    assert forall|i: int| 0 <= i < 4 implies {
        &&& 10 * k <= #[trigger] s.cell_at(i) < 40
        &&& cells_on_board(pl, k)[i] == s.cell_at(i) - 10 * k
        &&& !bits::bit(b, s.cell_at(i))
    } by {
        let at = s.cell_at(i);
        assert(0 <= shapes::cell(s.shape, s.orient, i) <= shapes::cell(s.shape, s.orient, 3));
        assert(0 <= at < 40);
        assert(!bits::bit(b, at));
        if at < 10 * k {
            let r = at / 10;
            assert(movegen::line(b, r) == 1023);
            lemma_full_line(b, r);
            assert(bits::bit(b, 10 * r + at % 10));
        }
        assert(pl.cells@[i].0 == at % 10 && pl.cells@[i].1 == at / 10);
    }
    assert forall|i: int, j: int| 0 <= i < 4 && 0 <= j < 4 && i != j implies cells_on_board(
        pl,
        k,
    )[i] != cells_on_board(pl, k)[j] by {
        assert(s.cell_at(i) - 10 * k == cells_on_board(pl, k)[i]);
        assert(s.cell_at(j) - 10 * k == cells_on_board(pl, k)[j]);
        assert(i == 0 || i == 1 || i == 2 || i == 3);
        assert(j == 0 || j == 1 || j == 2 || j == 3);
    }
}

/// The cells of a placement on the board, as pairs and as positions.
pub proof fn lemma_lowered(field: u64, piece: int, pl: Placement)
    requires
        0 <= piece < 7,
        settled(field),
        shapes::lands(piece, movegen::mirrored(field), pl.spot(piece)),
        pl.shows(piece, field),
    ensures
        ({
            let k = physical::sunk_rows(field, 0) as int;
            let low = physical::lowered(pl.cells@, k);
            forall|i: int|
                0 <= i < 4 ==> {
                    &&& 0 <= (#[trigger] low[i]).0 < 10
                    &&& 0 <= low[i].1 < 4
                    &&& cells_on_board(pl, k)[i] == 10 * low[i].1 + low[i].0
                }
        }),
{
    let k = physical::sunk_rows(field, 0) as int;
    let low = physical::lowered(pl.cells@, k);
    lemma_board_bit(field, k, 0);
    lemma_cells_on_board(field, piece, pl, k);
    assert forall|i: int| 0 <= i < 4 implies {
        &&& 0 <= (#[trigger] low[i]).0 < 10
        &&& 0 <= low[i].1 < 4
        &&& cells_on_board(pl, k)[i] == 10 * low[i].1 + low[i].0
    } by {
        let at = pl.spot(piece).cell_at(i);
        assert(10 * k <= at < 40);
        assert(pl.cells@[i].0 == at % 10 && pl.cells@[i].1 == at / 10);
    }
}

/// The board of a settled field is the field without its full lines at the bottom.
proof fn lemma_board_bit(field: u64, k: int, j: int)
    requires
        settled(field),
        k == physical::sunk_rows(field, 0),
    ensures
        0 <= k <= 4,
        bits::bit(board_of(field), j) == (0 <= j && bits::bit(
            movegen::mirrored(field),
            j + 10 * k,
        )),
        forall|r: int|
            0 <= r < k ==> #[trigger] movegen::line(movegen::mirrored(field), r) == 1023,
{
    broadcast use bits::group_bits;

    let b = movegen::mirrored(field);
    lemma_sunk_rows(field, 0);
    assert forall|r: int| 0 <= r < k implies #[trigger] movegen::line(b, r) == 1023 by {
        lemma_full_line_mirrored(field, r);
        assert(movegen::line(field, r) == 1023);
    }
    assert forall|r: int| k <= r < 4 implies #[trigger] movegen::line(b, r) != 1023 by {
        lemma_full_line_mirrored(field, r);
        assert(movegen::line(field, r) != 1023);
    }
    lemma_settled_lines(b, k, 4);
    lemma_cleared(b);
    lemma_open_lines_thin(b, 4);
    let ls = open_lines(b, 4);
    assert(ls =~= Seq::new((4 - k) as nat, |i: int| movegen::line(b, k + i)));
    lemma_pile_bit(ls, j);
    if 0 <= j < 10 * (4 - k) {
        assert(ls[j / 10] == movegen::line(b, k + j / 10));
        lemma_line_bit(b, k + j / 10, j % 10);
        assert(10 * (k + j / 10) + j % 10 == j + 10 * k);
    } else if j >= 0 {
        movegen::lemma_mirrored(field, j + 10 * k);
    }
}

/// A field stays settled, and the board of the host follows it: filling the cells of a placement on
/// the board and taking out the full lines gives the board of the field that the placement leads to.
pub proof fn law_board_follows(field: u64, piece: int, pl: Placement)
    requires
        0 <= piece < 7,
        settled(field),
        shapes::lands(piece, movegen::mirrored(field), pl.spot(piece)),
        pl.shows(piece, field),
    ensures
        ({
            let cells = cells_on_board(pl, physical::sunk_rows(field, 0) as int);
            &&& cells.no_duplicates()
            &&& forall|i: int|
                0 <= i < 4 ==> (#[trigger] cells[i]) < 40 && !bits::bit(
                    board_of(field),
                    cells[i] as int,
                )
            &&& cleared(with_cells(board_of(field), cells)) == board_of(pl.child_hash)
        }),
        board_of(field) < 1u64 << 40,
        settled(pl.child_hash),
{
    broadcast use bits::group_bits;

    let k = physical::sunk_rows(field, 0) as int;
    let b = movegen::mirrored(field);
    let s = pl.spot(piece);
    let cells = cells_on_board(pl, k);
    let board = board_of(field);
    let filled = b | s.word();
    let full = with_cells(board, cells);
    lemma_board_bit(field, k, 0);
    lemma_cells_on_board(field, piece, pl, k);
    movegen::lemma_mirrored_small(field);
    shapes::lemma_reachable_fits(piece, b, s);
    assert(s.cell_at(3) < 40);
    assert forall|i: int| 0 <= i < 4 implies (#[trigger] cells[i]) < 40 && !bits::bit(
        board,
        cells[i] as int,
    ) by {
        assert(10 * k <= s.cell_at(i) < 40);
        lemma_board_bit(field, k, cells[i] as int);
    }
    assert forall|j: int| 40 <= j implies !bits::bit(board, j) by {
        lemma_board_bit(field, k, j);
        movegen::lemma_mirrored(field, j + 10 * k);
    }
    bits::lemma_bits_below(board, 40);
    assert forall|i: int| 0 <= i < 4 implies 0 <= #[trigger] s.cell_at(i) < 40 by {}
    // The board after the placement is the box after it, without the `k` lines at the bottom.
    assert forall|j: int| 0 <= j implies #[trigger] bits::bit(full, j) == bits::bit(
        filled,
        j + 10 * k,
    ) by {
        lemma_board_bit(field, k, j);
        lemma_with_cells(board, cells, j);
        movegen::lemma_word(s, j + 10 * k);
        if exists|i: int| 0 <= i < 4 && (#[trigger] cells[i]) == j {
            let i = choose|i: int| 0 <= i < 4 && (#[trigger] cells[i]) == j;
            assert(s.cell_at(i) == j + 10 * k);
        }
        if exists|i: int| 0 <= i < 4 && #[trigger] s.cell_at(i) == j + 10 * k {
            let i = choose|i: int| 0 <= i < 4 && #[trigger] s.cell_at(i) == j + 10 * k;
            assert(cells[i] == j);
        }
    }
    assert forall|r: int| 0 <= r < k implies #[trigger] movegen::line(filled, r) == 1023 by {
        assert(movegen::line(b, r) == 1023);
        lemma_full_line(b, r);
        lemma_full_line(filled, r);
        assert forall|c: int| 0 <= c < 10 implies #[trigger] bits::bit(filled, 10 * r + c) by {
            assert(bits::bit(b, 10 * r + c));
        }
    }
    assert forall|r: int| 0 <= r < 4 - k implies #[trigger] movegen::line(full, r)
        == movegen::line(filled, k + r) by {
        assert forall|c: int| 0 <= c < 64 implies bits::bit(movegen::line(full, r), c)
            == bits::bit(movegen::line(filled, k + r), c) by {
            lemma_line_bit(full, r, c);
            lemma_line_bit(filled, k + r, c);
            if c < 10 {
                assert(bits::bit(full, 10 * r + c) == bits::bit(filled, 10 * r + c + 10 * k));
            }
        }
        bits::lemma_bits_equal(movegen::line(full, r), movegen::line(filled, k + r));
    }
    assert forall|r: int| 4 - k <= r < 4 implies #[trigger] movegen::line(full, r) == 0 by {
        assert forall|c: int| 0 <= c < 64 implies bits::bit(movegen::line(full, r), c)
            == bits::bit(0, c) by {
            lemma_line_bit(full, r, c);
            if c < 10 {
                let j = 10 * r + c;
                assert(bits::bit(full, j) == bits::bit(filled, j + 10 * k));
                movegen::lemma_mirrored(field, j + 10 * k);
                movegen::lemma_word(s, j + 10 * k);
            }
        }
        bits::lemma_bits_equal(movegen::line(full, r), 0);
    }
    lemma_lower_lines(filled, full, k, (4 - k) as nat);
    lemma_top_rows_empty(full, (4 - k) as nat, 4);
    lemma_cleared(full);
    lemma_cleared(filled);
    // The field that the placement leads to is the same box with its full lines sunk.
    let low = movegen::sunk(filled);
    lemma_sunk_line(filled, 0);
    movegen::law_mirror_involution(low);
    law_sinking_keeps_lines(filled);
    lemma_sunk_settled(filled);
}

/// A field whose full lines have sunk is settled.
proof fn lemma_sunk_settled(b: u64)
    ensures
        settled(movegen::mirrored(movegen::sunk(b))),
{
    let low = movegen::sunk(b);
    let field = movegen::mirrored(low);
    let n = movegen::full_rows(b, 4).len();
    assert forall|r: int| 0 <= r < 4 implies (#[trigger] movegen::line(field, r) == 1023 <==> r
        < n) by {
        lemma_sunk_line(b, r);
        lemma_full_line_mirrored(low, r);
    }
    lemma_sunk_line(b, 0);
    lemma_sunk_rows_are(field, 0, n);
}

/// Every field that a placement leads to is settled.
pub proof fn law_children_are_settled(shape: int, field: u64, child: u64)
    requires
        movegen::is_child(shape, field, child),
    ensures
        settled(child),
{
    let s = choose|s: shapes::Spot| #[trigger]
        shapes::lands(shape, movegen::mirrored(field), s) && child == movegen::child_of(field, s);
    lemma_sunk_settled(movegen::mirrored(field) | s.word());
}

/// The empty field is settled, and its board is empty.
pub proof fn law_empty_is_settled()
    ensures
        settled(0),
        board_of(0) == 0,
{
    broadcast use bits::group_bits;

    assert forall|r: int| 0 <= r < 4 implies #[trigger] movegen::line(0, r) != 1023 by {
        lemma_full_line(0, r);
        assert(!bits::bit(0, 10 * r + 0));
    }
    lemma_sunk_rows(0, 0);
    assert forall|j: int| 0 <= j < 64 implies bits::bit(board_of(0), j) == bits::bit(0, j) by {
        lemma_board_bit(0, physical::sunk_rows(0, 0) as int, j);
        movegen::lemma_mirrored(0, j + 10 * physical::sunk_rows(0, 0));
    }
    bits::lemma_bits_equal(board_of(0), 0);
}

/// The order in which cells are filled does not matter.
pub proof fn law_order_of_cells(board: u64, a: Seq<u8>, b: Seq<u8>)
    requires
        forall|i: int| 0 <= i < a.len() ==> (#[trigger] a[i]) < 40,
        forall|i: int| 0 <= i < b.len() ==> (#[trigger] b[i]) < 40,
        forall|c: u8| #[trigger] a.contains(c) <==> b.contains(c),
    ensures
        with_cells(board, a) == with_cells(board, b),
{
    assert forall|j: int| 0 <= j < 64 implies bits::bit(with_cells(board, a), j) == bits::bit(
        with_cells(board, b),
        j,
    ) by {
        lemma_with_cells(board, a, j);
        lemma_with_cells(board, b, j);
        if exists|i: int| 0 <= i < a.len() && (#[trigger] a[i]) == j {
            let i = choose|i: int| 0 <= i < a.len() && (#[trigger] a[i]) == j;
            assert(a.contains(a[i]));
            assert(b.contains(a[i]));
            let t = choose|t: int| 0 <= t < b.len() && b[t] == a[i];
            assert(b[t] == j);
        }
        if exists|i: int| 0 <= i < b.len() && (#[trigger] b[i]) == j {
            let i = choose|i: int| 0 <= i < b.len() && (#[trigger] b[i]) == j;
            assert(b.contains(b[i]));
            assert(a.contains(b[i]));
            let t = choose|t: int| 0 <= t < a.len() && a[t] == b[i];
            assert(a[t] == j);
        }
    }
    bits::lemma_bits_equal(with_cells(board, a), with_cells(board, b));
}

/* ---- how lines move ---- */

/// The rows of `low` are those of `b` in the order given: full rows before the others, and rows of
/// the same kind as they were.
pub open spec fn rows_moved(b: u64, low: u64, order: Seq<int>) -> bool {
    &&& order.len() == 4
    &&& order.no_duplicates()
    &&& forall|i: int| 0 <= i < 4 ==> 0 <= (#[trigger] order[i]) < 4 && movegen::line(low, i)
        == movegen::line(b, order[i])
    &&& forall|i: int, j: int|
        0 <= i < j < 4 && movegen::line(b, #[trigger] order[j]) == 1023 ==> movegen::line(
            b,
            #[trigger] order[i],
        ) == 1023
    &&& forall|i: int, j: int|
        0 <= i < j < 4 && (movegen::line(b, #[trigger] order[i]) == 1023) == (movegen::line(
            b,
            #[trigger] order[j],
        ) == 1023) ==> order[i] < order[j]
}

proof fn lemma_rows_ascend(b: u64, n: nat)
    requires
        n <= 4,
    ensures
        forall|i: int, j: int|
            0 <= i < j < movegen::full_rows(b, n).len() ==> #[trigger] movegen::full_rows(b, n)[i]
                < #[trigger] movegen::full_rows(b, n)[j],
        forall|i: int| 0 <= i < movegen::full_rows(b, n).len() ==> movegen::full_rows(b, n)[i] < n,
        forall|i: int, j: int|
            0 <= i < j < movegen::open_rows(b, n).len() ==> #[trigger] movegen::open_rows(b, n)[i]
                < #[trigger] movegen::open_rows(b, n)[j],
        forall|i: int| 0 <= i < movegen::open_rows(b, n).len() ==> movegen::open_rows(b, n)[i] < n,
    decreases n,
{
    if n > 0 {
        let m = (n - 1) as nat;
        lemma_rows_ascend(b, m);
        let (full, open) = (movegen::full_rows(b, m), movegen::open_rows(b, m));
        assert(forall|i: int, j: int| 0 <= i < j < full.len() ==> full[i] < full[j]);
        assert(forall|i: int| 0 <= i < full.len() ==> full[i] < m);
        assert(forall|i: int, j: int| 0 <= i < j < open.len() ==> open[i] < open[j]);
        assert(forall|i: int| 0 <= i < open.len() ==> open[i] < m);
    }
}

/// When full rows sink, each row of the board keeps its cells, full rows go below the others, and
/// otherwise the rows keep their order.
pub proof fn law_full_rows_sink(b: u64)
    ensures
        exists|order: Seq<int>| rows_moved(b, movegen::sunk(b), order),
{
    let order = movegen::sink_order(b);
    let full = movegen::full_rows(b, 4);
    let open = movegen::open_rows(b, 4);
    lemma_open_rows(b, 4);
    lemma_rows_ascend(b, 4);
    assert forall|i: int| 0 <= i < 4 implies 0 <= (#[trigger] order[i]) < 4 && movegen::line(
        movegen::sunk(b),
        i,
    ) == movegen::line(b, order[i]) && (movegen::line(b, order[i]) == 1023) == (i < full.len()) by {
        lemma_sunk_line(b, i);
        if i < full.len() {
            assert(order[i] == full[i]);
        } else {
            assert(order[i] == open[i - full.len()]);
            assert(picked(b, open)[i - full.len()] == open_lines(b, 4)[i - full.len()]);
        }
    }
    assert forall|i: int, j: int|
        0 <= i < j < 4 && (movegen::line(b, #[trigger] order[i]) == 1023) == (movegen::line(
            b,
            #[trigger] order[j],
        ) == 1023) implies order[i] < order[j] by {
        if j < full.len() {
            assert(full[i] < full[j]);
        } else {
            assert(open[i - full.len()] < open[j - full.len()]);
        }
    }
    assert(rows_moved(b, movegen::sunk(b), order));
}

/// When full rows are taken out, the others come down in their order, and empty rows fill up from
/// above.
pub proof fn law_full_rows_are_taken_out(b: u64)
    ensures
        exists|rows: Seq<int>|
            {
                &&& rows.len() <= 4
                &&& forall|i: int, j: int|
                    0 <= i < j < rows.len() ==> #[trigger] rows[i] < #[trigger] rows[j]
                &&& forall|r: int|
                    0 <= r < 4 ==> (#[trigger] movegen::line(b, r) != 1023 <==> rows.contains(r))
                &&& forall|i: int|
                    0 <= i < rows.len() ==> movegen::line(cleared(b), i) == movegen::line(
                        b,
                        #[trigger] rows[i],
                    )
                &&& forall|i: int|
                    rows.len() <= i < 4 ==> #[trigger] movegen::line(cleared(b), i) == 0
            },
{
    let rows = movegen::open_rows(b, 4);
    lemma_open_rows(b, 4);
    lemma_rows_ascend(b, 4);
    lemma_cleared(b);
    lemma_open_lines_thin(b, 4);
    assert forall|i: int| 0 <= i < 4 implies #[trigger] movegen::line(cleared(b), i) == if i
        < rows.len() {
        movegen::line(b, rows[i])
    } else {
        0
    } by {
        lemma_line_of_pile(open_lines(b, 4), i);
        if i < rows.len() {
            assert(picked(b, rows)[i] == open_lines(b, 4)[i]);
        }
    }
    assert forall|r: int| 0 <= r < 4 implies (#[trigger] movegen::line(b, r) != 1023
        <==> rows.contains(r)) by {
        if movegen::line(b, r) != 1023 {
            lemma_row_listed(b, 4, r);
        }
        if rows.contains(r) {
            let i = choose|i: int| 0 <= i < rows.len() && rows[i] == r;
            assert(movegen::line(b, rows[i]) != 1023);
        }
    }
}

proof fn lemma_row_listed(b: u64, n: nat, r: int)
    requires
        0 <= r < n <= 4,
        movegen::line(b, r) != 1023,
    ensures
        movegen::open_rows(b, n).contains(r),
    decreases n,
{
    let was = movegen::open_rows(b, (n - 1) as nat);
    let now = movegen::open_rows(b, n);
    if r == n - 1 {
        assert(now.last() == r);
    } else {
        lemma_row_listed(b, (n - 1) as nat, r);
        let i = choose|i: int| 0 <= i < was.len() && was[i] == r;
        assert(now[i] == r);
    }
}

} // verus!
