use pcbot_wasm::graph::{MAX_HASH, TWO_LINE_HASH};
use pcbot_wasm::movebits::colguard;
use pcbot_wasm::movegen::{mirror, placements, sink_lines, MoveGen, Piece};
use pcbot_wasm::physical::{full_bottom_rows, realize};
use pcbot_wasm::tbpcoord::{canonical_orients, decode, encode};

fn children(shape: usize, hash: u64) -> Vec<u64> {
    let mut mg = MoveGen::new();
    let mut out = vec![123u64];
    mg.children(shape, hash, &mut out);
    out
}

fn by_placements(shape: usize, hash: u64) -> Vec<u64> {
    let mut v: Vec<u64> = placements(shape, hash).iter().map(|p| p.child_hash).collect();
    v.sort();
    v.dedup();
    v
}

#[test]
fn mirroring_swaps_columns() {
    assert_eq!(mirror(1), 1 << 9);
    assert_eq!(mirror(1 << 13), 1 << 16);
    assert_eq!(MoveGen::new().mirror_hash(0x3ff), 0x3ff);
    for b in [0u64, 1, 0x12_3456_789a, MAX_HASH, 0x407] {
        assert_eq!(mirror(mirror(b)), b);
    }
}

#[test]
fn full_lines_sink() {
    // A full second row goes below the first.
    assert_eq!(sink_lines(5 | (1023 << 10)), 1023 | (5 << 10));
    assert_eq!(sink_lines(1023 | (7 << 10) | (1023 << 20)), 1023 | (1023 << 10) | (7 << 20));
    assert_eq!(sink_lines(MAX_HASH), MAX_HASH);
    assert_eq!(sink_lines(0), 0);
}

#[test]
fn squares_on_an_empty_field() {
    let list = children(3, 0);
    assert_eq!(list.len(), 9);
    for c in 0..9u64 {
        let want = (0b11u64 << c) | (0b11u64 << (c + 10));
        assert!(list.contains(&want));
    }
    assert!(list.windows(2).all(|w| w[0] < w[1]));
    // Each of the four orientations is a placement of its own.
    assert_eq!(placements(3, 0).len(), 36);
}

#[test]
fn bars_on_an_empty_field() {
    let list = children(0, 0);
    assert_eq!(list.len(), 7 + 10);
    assert!(list.contains(&0b1111));
    assert!(list.contains(&(1 | (1 << 10) | (1 << 20) | (1 << 30))));
}

#[test]
fn both_generators_agree() {
    let fields = [0u64, 0x407, 0x641f, 0xc07c1f, 0x4c3fdff, 0x1cc7ffff, 0x7ddf7ffff, 0x3fdff7ffff, MAX_HASH];
    for &f in fields.iter() {
        for shape in 0..7 {
            assert_eq!(children(shape, f), by_placements(shape, f), "{} {:x}", shape, f);
        }
    }
}

#[test]
fn nothing_fits_a_full_box() {
    for shape in 0..7 {
        assert!(children(shape, MAX_HASH).is_empty());
        assert!(placements(shape, MAX_HASH).is_empty());
    }
}

#[test]
fn last_piece_fills_the_box() {
    // All but the two rightmost cells of the lower two rows, with two lines done above.
    let board = (0xffu64) | (0xffu64 << 10);
    let hash = mirror(sink_lines(board | (1023 << 20) | (1023 << 30)));
    assert!(children(3, hash).contains(&MAX_HASH));
    let low = mirror(board);
    assert!(children(3, low).contains(&TWO_LINE_HASH));
}

#[test]
fn placements_tell_their_cells() {
    for shape in 0..7usize {
        for pl in placements(shape, 0x407) {
            let mut board = mirror(0x407);
            for &(c, r) in pl.cells.iter() {
                let bit = 1u64 << (10 * r as u64 + c as u64);
                assert_eq!(board & bit, 0);
                board |= bit;
            }
            assert_eq!(mirror(sink_lines(board)), pl.child_hash);
        }
    }
}

#[test]
fn pieces_move_and_turn() {
    let t = Piece { shape: 5, col: 3, row: 4, orient: 0 };
    assert!(!t.collides(0));
    assert!(t.in_bounds());
    assert_eq!(t.left(0).col, 2);
    assert_eq!(t.right(0).col, 4);
    assert_eq!(t.down(0).row, 3);
    assert_eq!(t.cw(0).orient, 1);
    assert_eq!(t.ccw(0).orient, 3);
    assert_eq!(t.half(0).orient, 2);
    assert_eq!(t.pack(), 5 * 256 + 3 * 16 + 4);
    let wall = Piece { shape: 5, col: 0, row: 0, orient: 0 };
    assert_eq!(wall.left(0).col, 0);
    assert_eq!(wall.down(0).row, 0);
    assert!(wall.can_place(0));
    assert_eq!(wall.as_bits(), 0b111 | (1 << 11));
    assert_eq!(wall.place(0), 0b111 | (1 << 11));
    assert!(!t.can_place(0));
}

#[test]
fn full_rows_at_the_bottom_are_counted() {
    assert_eq!(full_bottom_rows(0), 0);
    assert_eq!(full_bottom_rows(0x3ff), 1);
    assert_eq!(full_bottom_rows(TWO_LINE_HASH), 2);
    assert_eq!(full_bottom_rows(MAX_HASH), 4);
    assert_eq!(full_bottom_rows(0x3ff << 10), 0);
}

#[test]
fn transitions_have_coordinates() {
    assert_eq!(realize(0, 2, 0x407), Some((0, 8, 0)));
    assert_eq!(realize(0x407, 3, 0x641f), Some((0, 5, 0)));
    // One line is done here, so rows count from the second one.
    assert_eq!(realize(0x4c3fdff, 4, 0x1cc7ffff), Some((0, 1, 1)));
    assert_eq!(realize(0x7ddf7ffff, 1, 0x3fdff7ffff), Some((2, 3, 2)));
    assert_eq!(realize(0x3fdff7ffff, 1, MAX_HASH), Some((1, 0, 1)));
    assert_eq!(realize(0, 2, 0x408), None);
}

#[test]
fn every_placement_has_coordinates() {
    for shape in 0..7u8 {
        for pl in placements(shape as usize, 0xc07dff) {
            let (o, x, y) = realize(0xc07dff, shape, pl.child_hash).unwrap();
            assert!(canonical_orients(shape).contains(&o));
            assert_eq!(encode(shape, &decode(shape, o, x, y)), Some((o, x, y)));
        }
    }
}

#[test]
fn cells_of_no_placement_do_not_encode() {
    assert_eq!(encode(0, &[(0, 0), (1, 0), (2, 0), (4, 0)]), None);
    assert_eq!(encode(3, &[(0, 0), (1, 0), (2, 0), (3, 0)]), None);
}

#[test]
fn coordinates_of_known_cells() {
    assert_eq!(decode(5, 0, 4, 1), [(3, 1), (4, 1), (5, 1), (4, 2)]);
    assert_eq!(decode(5, 1, 4, 1), [(4, 2), (4, 1), (4, 0), (5, 1)]);
    assert_eq!(decode(0, 3, 0, 1), [(0, 0), (0, 1), (0, 2), (0, 3)]);
}

#[test]
fn columns_are_guarded() {
    for dc in -12i32..=12 {
        let m = colguard(dc);
        for i in 0..64i32 {
            let want = i < 60 && 0 <= i % 10 + dc && i % 10 + dc <= 9;
            assert_eq!(m >> i & 1 == 1, want, "{} {}", dc, i);
        }
    }
    assert_eq!(colguard(0), (1 << 60) - 1);
    assert_eq!(colguard(10), 0);
    assert_eq!(colguard(-10), 0);
    assert_eq!(colguard(i32::MAX), 0);
    assert_eq!(colguard(i32::MIN), 0);
}

#[test]
fn placements_come_in_a_fixed_order() {
    let list = placements(3, 0);
    let spots: Vec<(u8, i8, i8)> = list.iter().map(|p| (p.orient, p.col, p.row)).collect();
    assert_eq!(
        spots[..6],
        [(2, 8, 0), (1, 8, 0), (1, 7, 0), (3, 7, 0), (3, 6, 0), (2, 6, 0)]
    );
    assert_eq!(spots[34..], [(2, 7, 0), (0, 8, 0)]);
    let again = placements(3, 0);
    assert_eq!(list.len(), again.len());
    for (a, b) in list.iter().zip(again.iter()) {
        assert_eq!((a.orient, a.col, a.row, a.cells), (b.orient, b.col, b.row, b.cells));
    }
}
