use pcbot_wasm::bot::{Bot, TbpMove, ORIENT_NAMES};
use pcbot_wasm::graph::MAX_HASH;
use pcbot_wasm::init::{init_bytes, init_embedded, init_from, piece_of, InitError};
use pcbot_wasm::physical::full_bottom_rows;
use pcbot_wasm::probe::{build, walk};
use pcbot_wasm::proj::{ProjFilter, CELLS, PROJ_BYTES, PROJ_FILE_LEN};
use pcbot_wasm::score::{greater, Contribution, Op};
use pcbot_wasm::sim::{deal, landed, reachable, Bag, Hand, Phys};
use pcbot_wasm::tbpcoord::decode;
use pcbot_wasm::values::ValueTable;

fn contribution(c: Contribution) -> f32 {
    match c {
        Contribution::Count(n) => n as f32 / 5040f32,
        Contribution::Value(w) => f32::from_bits(w),
        Contribution::Step { low, high, step } => {
            let (lo, hi) = (f32::from_bits(low), f32::from_bits(high));
            lo + step as f32 * ((hi - lo) / 4095.0)
        },
    }
}

fn calc(op: Op) -> u64 {
    match op {
        Op::Plus(a, b) => (f64::from_bits(a) + f64::from_bits(b)).to_bits(),
        Op::Over(a, n) => (f64::from_bits(a) / n as f64).to_bits(),
        Op::Worth(c) => (1.0 + contribution(c) as f64).to_bits(),
        Op::Store(a) => a,
    }
}

type Player = Bot<fn(Op) -> u64>;

const CALC: fn(Op) -> u64 = calc;

/// The fields of one perfect clear.
const LINE: [u64; 10] = [
    0x407, 0x641f, 0xc07c1f, 0xc07dff, 0x4c3fdff, 0x1cc7ffff, 0xdcf7ffff, 0x7ddf7ffff, 0x3fdff7ffff,
    0xffffffffff,
];

/// The deals that it is played with.
const DEALS: [u8; 11] = [0, 2, 3, 6, 5, 4, 1, 3, 2, 1, 6];

fn filter_for(fields: &[u64]) -> Vec<u8> {
    let mut data = vec![0u8; PROJ_FILE_LEN];
    data[..8].copy_from_slice(b"PCPRJ11\0");
    for &f in fields {
        for i in 0..11 {
            let mut v = 0usize;
            for (j, &c) in CELLS[i].iter().enumerate() {
                v |= ((f >> c & 1) as usize) << j;
            }
            data[16 + i * PROJ_BYTES + v / 8] |= 1 << (v % 8);
        }
    }
    data
}

fn steps_blob() -> Vec<u8> {
    let n = 1_120_140usize;
    let mut b = b"L0Q12V1\0".to_vec();
    b.extend_from_slice(&0.0f32.to_le_bytes());
    b.extend_from_slice(&1.0f32.to_le_bytes());
    b.extend_from_slice(&(n as u64).to_le_bytes());
    b.resize(24 + n / 2 * 3, 0);
    b
}

fn empty_table() -> Vec<u8> {
    let mut b = b"L0U16V1\0".to_vec();
    b.extend_from_slice(&0u64.to_le_bytes());
    b
}

fn player() -> Player {
    let proj = ProjFilter::from_bytes(filter_for(&LINE)).unwrap();
    Bot::new(proj, ValueTable::from_bytes(&steps_blob()).unwrap(), CALC)
}

fn idle() -> Player {
    let proj = ProjFilter::from_bytes(filter_for(&LINE)).unwrap();
    Bot::new(proj, ValueTable::from_bytes(&empty_table()).unwrap(), CALC)
}

#[test]
fn a_perfect_clear_is_played() {
    let mut bot = player();
    let mut host = Hand { queue: DEALS[..7].to_vec(), hold: None };
    let mut phys = Phys { cells: 0 };
    assert!(bot.start(None, &DEALS[..7], &phys.board_cells(), 0));
    let want = [
        (2, 0, 8, 0), (3, 0, 5, 0), (6, 0, 7, 1), (0, 0, 2, 0), (5, 0, 3, 1), (4, 0, 1, 1),
        (3, 0, 8, 1), (2, 2, 6, 2), (1, 2, 3, 2), (1, 1, 0, 1),
    ];
    let mut lines = 0;
    for (n, w) in want.iter().enumerate() {
        let mv = bot.suggest().expect(&bot.last_error);
        assert_eq!(mv, TbpMove { piece: w.0, orient: w.1, x: w.2, y: w.3 });
        assert!(host.take_piece(mv.piece));
        let field = phys.to_engine_hash();
        assert_eq!(full_bottom_rows(field), 0);
        assert!(reachable(mv.piece, field, &decode(mv.piece, mv.orient, mv.x, mv.y)));
        let cells = landed(mv.piece, mv.orient, mv.x, mv.y).unwrap();
        lines += phys.place(cells);
        bot.play();
        if n < 9 {
            assert_eq!(bot.board_hash, LINE[n]);
            assert_eq!(full_bottom_rows(bot.board_hash), lines);
            assert_eq!(phys.to_engine_hash(), bot.board_hash >> (10 * lines));
        }
        if n < 4 {
            bot.new_piece(DEALS[7 + n]);
            host.queue.push(DEALS[7 + n]);
        }
        assert_eq!(bot.hold, host.hold);
        assert_eq!(bot.queue, host.queue);
    }
    assert_eq!(lines, 4);
    assert_eq!(phys.cells, 0);
    assert_eq!(bot.board_hash, 0);
    assert_eq!(bot.placed_cnt, 10);
    assert!(bot.loop_state.is_none());
    assert!(!bot.out_of_book);
    // The next loop has no previews yet.
    assert!(bot.suggest().is_none());
    assert_eq!(
        bot.last_error,
        "need 6 previews beyond the engine hold at a PC boundary (have 0); set Next pieces to 6"
    );
    assert!(bot.out_of_book);
}

#[test]
fn late_deals_are_averaged_over() {
    // No reveal is dealt before it has to be placed.
    let mut bot = player();
    assert!(bot.start(None, &DEALS[..7], &[0; 400], 0));
    for n in 0..6 {
        assert!(bot.suggest().is_some(), "{} {}", n, bot.last_error);
        bot.play();
        assert_eq!(bot.board_hash, LINE[n]);
    }
    assert!(bot.suggest().is_none());
    assert_eq!(bot.last_error, "reveal underrun: 6 placements consume 1 reveal(s) but only 0 delivered");
}

#[test]
fn deals_too_far_ahead_are_not_read() {
    let mut a = player();
    let mut b = player();
    assert!(a.start(None, &DEALS[..7], &[0; 400], 0));
    assert!(b.start(None, &DEALS[..7], &[0; 400], 0));
    // Wrong deals beyond what the placements have opened change nothing.
    b.new_piece(3);
    b.new_piece(3);
    b.new_piece(3);
    assert_eq!(a.suggest(), b.suggest());
    a.play();
    b.play();
    a.new_piece(3);
    assert_eq!(a.suggest(), b.suggest());
    b.play();
    assert!(b.suggest().is_none());
    assert_eq!(
        b.last_error,
        "bag desync: reveal h2=O not in remaining bag 1110111 (boundary_dealt=7)"
    );
}

#[test]
fn dead_reveals_are_told() {
    let mut bot = player();
    assert!(bot.start(None, &DEALS[..7], &[0; 400], 0));
    assert!(bot.suggest().is_some());
    bot.play();
    // The line needs a square first.
    bot.new_piece(0);
    assert!(bot.suggest().is_none());
    assert_eq!(
        bot.last_error,
        "dead reveal: no PC continuation after [I] at depth 1 (over 1 reveal completion(s))"
    );
    assert!(bot.out_of_book);
    assert!(bot.suggest().is_none());
}

#[test]
fn deals_that_are_no_bag_are_refused() {
    let mut bot = idle();
    assert!(bot.start(None, &[0, 2, 3, 6, 5, 4, 4], &[0; 400], 0));
    assert!(bot.suggest().is_none());
    assert_eq!(bot.last_error, "deals 0..7 [ILOZTSS] are not a 7-bag permutation");
    assert!(bot.out_of_book);
}

#[test]
fn a_loop_without_worth_is_refused() {
    let mut bot = idle();
    assert!(bot.start(None, &DEALS[..7], &[0; 400], 0));
    assert!(bot.suggest().is_none());
    assert_eq!(bot.last_error, "boundary unsolvable (root value 0)");
}

#[test]
fn boards_out_of_the_loop_are_refused() {
    let mut bot = idle();
    let mut cells = [0u8; 400];
    cells[0] = 1;
    cells[19] = 2;
    assert!(bot.start(None, &DEALS[..7], &cells, 0));
    assert_eq!(bot.board_hash, (1 << 9) | (1 << 10));
    assert!(bot.suggest().is_none());
    assert_eq!(
        bot.last_error,
        "non-empty board without an active loop (host sent a non-empty board, or a PC completion \
         desynced): board[r0..r3]=#........./.........#/........../.......... placed=0"
    );
    cells[40] = 1;
    assert!(!bot.start(None, &DEALS[..7], &cells, 0));
    assert!(bot.out_of_book);
    assert_eq!(bot.last_error, "board has cells above row 3");
    assert!(bot.suggest().is_none());
}

#[test]
fn previews_are_needed() {
    let mut bot = idle();
    assert!(bot.suggest().is_none());
    assert_eq!(bot.last_error, "empty queue at boundary");
    assert!(!bot.out_of_book);
    assert!(bot.start(None, &DEALS[..6], &[0; 400], 0));
    assert!(bot.suggest().is_none());
    assert_eq!(
        bot.last_error,
        "need 6 previews beyond the engine hold at a PC boundary (have 5); set Next pieces to 6"
    );
    // With a piece in hold six in the queue are enough.
    assert!(bot.start(Some(0), &DEALS[1..7], &[0; 400], 0));
    assert_eq!(bot.stream, DEALS[..7].to_vec());
    assert!(bot.suggest().is_none());
    assert_eq!(bot.last_error, "boundary unsolvable (root value 0)");
}

#[test]
fn a_held_piece_takes_the_first_deal() {
    let mut bot = player();
    assert!(bot.start(Some(DEALS[0]), &DEALS[1..7], &[0; 400], 0));
    assert_eq!(bot.suggest(), Some(TbpMove { piece: 2, orient: 0, x: 8, y: 0 }));
    bot.play();
    assert_eq!(bot.hold, Some(0));
    assert_eq!(bot.queue, DEALS[2..7].to_vec());
}

#[test]
fn a_resync_mends_the_stream() {
    let mut bot = idle();
    assert!(bot.start(None, &DEALS[..7], &[0; 400], 0));
    let mut cells = [0u8; 400];
    cells[0] = 1;
    assert!(bot.start(None, &DEALS[..5], &cells, 0));
    assert_eq!(bot.last_error, "");
    assert_eq!(bot.stream, DEALS[..7].to_vec());
    assert!(bot.start(None, &[6, 6], &cells, 0));
    assert_eq!(bot.last_error, "resync queue mismatch; stream tail rebuilt");
    assert_eq!(bot.stream, vec![6, 6]);
}

#[test]
fn play_without_a_suggestion_changes_nothing() {
    let mut bot = idle();
    assert!(bot.start(None, &DEALS[..7], &[0; 400], 0));
    bot.play();
    assert_eq!(bot.placed_cnt, 0);
    assert_eq!(bot.queue, DEALS[..7].to_vec());
    bot.new_piece(4);
    assert_eq!(bot.queue.last(), Some(&4));
    assert_eq!(bot.stream.len(), 8);
    bot.stop();
    assert!(bot.pending.is_none());
}

#[test]
fn stop_drops_the_loop() {
    let mut bot = player();
    assert!(bot.start(None, &DEALS[..7], &[0; 400], 0));
    assert!(bot.suggest().is_some());
    assert!(bot.loop_state.is_some());
    bot.stop();
    assert!(bot.loop_state.is_none());
    bot.play();
    assert_eq!(bot.placed_cnt, 0);
}

#[test]
fn solved_loops_are_walked() {
    let proj = ProjFilter::from_bytes(filter_for(&LINE)).unwrap();
    let table = ValueTable::from_bytes(&steps_blob()).unwrap();
    let visible = [DEALS[1], DEALS[2], DEALS[3], DEALS[4], DEALS[5], DEALS[6]];
    let vs = build(&proj, &table, CALC, DEALS[0], visible, 127);
    assert!(greater(vs.root_value, 0));
    assert_eq!(vs.missing_keys, 0);
    assert_eq!(walk(&vs, [DEALS[7], DEALS[8], DEALS[9], DEALS[10]]), Ok(1));
    let end = walk(&vs, [0, 1, 2, 3]).unwrap_err();
    assert_eq!((end.depth, end.field), (1, LINE[0]));
}

#[test]
fn orientations_have_names() {
    assert_eq!(ORIENT_NAMES, ["north", "east", "south", "west"]);
    assert_eq!(LINE[9], MAX_HASH);
}

/* ---- the host ---- */

#[test]
fn bags_are_shuffled_as_ever() {
    let mut bag = Bag { rng: 1, left: Vec::new() };
    let got: Vec<u8> = (0..14).map(|_| bag.next()).collect();
    assert_eq!(got, vec![2, 6, 5, 0, 1, 4, 3, 1, 5, 0, 4, 2, 3, 6]);
}

#[test]
fn one_deal_goes_wrong() {
    let mut bag = Bag { rng: 1, left: Vec::new() };
    let mut idx = 0;
    let got: Vec<u8> = (0..7).map(|_| deal(&mut bag, &mut idx, Some(1))).collect();
    assert_eq!(got, vec![2, 0, 5, 0, 1, 4, 3]);
    assert_eq!(idx, 7);
}

#[test]
fn hosts_swap_with_the_hold() {
    let mut h = Hand { queue: vec![1, 2, 3], hold: None };
    assert!(!h.take_piece(3));
    assert_eq!((h.queue.clone(), h.hold), (vec![1, 2, 3], None));
    assert!(h.take_piece(2));
    assert_eq!((h.queue.clone(), h.hold), (vec![3], Some(1)));
    assert!(!h.take_piece(6));
    assert!(h.take_piece(1));
    assert_eq!((h.queue.clone(), h.hold), (vec![], Some(3)));
    let mut h = Hand { queue: vec![5, 4], hold: Some(0) };
    assert!(h.take_piece(5));
    assert_eq!((h.queue, h.hold), (vec![4], Some(0)));
}

#[test]
fn hosts_take_out_full_lines() {
    let mut phys = Phys { cells: 0b11_1111 | (1 << 12) };
    assert_eq!(phys.place([6, 7, 8, 9]), 1);
    assert_eq!(phys.cells, 1 << 2);
    assert_eq!(phys.to_engine_hash(), 1 << 7);
    let b = phys.board_cells();
    assert_eq!(b.iter().filter(|c| **c != 0).count(), 1);
    assert_eq!(b[2], 1);
    assert_eq!(phys.place([0, 1, 10, 11]), 0);
    assert_eq!(phys.cells, 0b111 | (0b11 << 10));
}

#[test]
fn cells_fill_in_any_order() {
    for order in [[6u8, 7, 8, 9], [9, 8, 7, 6], [8, 6, 9, 7]] {
        let mut phys = Phys { cells: 0b11_1111 | (1 << 12) };
        assert_eq!(phys.place(order), 1);
        assert_eq!(phys.cells, 1 << 2);
    }
}

#[test]
fn a_loop_can_begin_in_the_middle_of_a_bag() {
    // Three pieces of the bag are left, and the last preview is none of them.
    let proj = ProjFilter::from_bytes(filter_for(&LINE)).unwrap();
    let table = ValueTable::from_bytes(&steps_blob()).unwrap();
    let vs = build(&proj, &table, CALC, 0, [2, 3, 6, 5, 4, 1], 0b011_0001);
    assert_eq!(vs.missing_keys, 0);
    assert_eq!(vs.leaf_count, 42);
    assert!(vs.nodes_pruned <= vs.nodes_total);
}

#[test]
fn moves_off_the_board_do_not_land() {
    assert_eq!(landed(3, 0, 0, 0), Some([0, 1, 10, 11]));
    assert_eq!(landed(3, 0, 9, 0), None);
    assert_eq!(landed(3, 0, 0, 3), None);
    assert_eq!(landed(0, 0, 0, 0), None);
    assert_eq!(landed(5, 0, -128, 127), None);
}

#[test]
fn only_resting_places_are_reachable() {
    assert!(reachable(3, 0, &[(0, 0), (1, 0), (0, 1), (1, 1)]));
    assert!(reachable(3, 0, &[(1, 1), (0, 1), (1, 0), (0, 0)]));
    assert!(!reachable(3, 0, &[(0, 1), (1, 1), (0, 2), (1, 2)]));
    assert!(!reachable(0, 0, &[(0, 0), (1, 0), (0, 1), (1, 1)]));
}

/* ---- setting up ---- */

/// A zlib blob with the bytes as they are.
fn zlib(data: &[u8]) -> Vec<u8> {
    let mut out = vec![0x78, 0x01];
    let mut chunks = data.chunks(65535).peekable();
    if data.is_empty() {
        out.extend_from_slice(&[1, 0, 0, 0xff, 0xff]);
    }
    while let Some(c) = chunks.next() {
        out.push(if chunks.peek().is_none() { 1 } else { 0 });
        out.extend_from_slice(&(c.len() as u16).to_le_bytes());
        out.extend_from_slice(&(!(c.len() as u16)).to_le_bytes());
        out.extend_from_slice(c);
    }
    let (mut a, mut b) = (1u32, 0u32);
    for &x in data {
        a = (a + x as u32) % 65521;
        b = (b + a) % 65521;
    }
    out.extend_from_slice(&((b << 16) | a).to_be_bytes());
    out
}

fn extra_blob() -> Vec<u8> {
    let mut data = vec![0u8; 16 + 8 + PROJ_BYTES];
    data[..8].copy_from_slice(b"PCPRJX1\0");
    data[8] = 1;
    for r in 0..4 {
        data[16 + 2 * r] = 0b1111;
    }
    data[24] = 1;
    data
}

#[test]
fn a_bot_is_set_up_from_blobs() {
    let r = init_embedded(&zlib(&filter_for(&LINE)), &zlib(&empty_table()), &zlib(&extra_blob()), CALC);
    let bot = r.ok().unwrap();
    assert_eq!(bot.proj.data, filter_for(&LINE));
    assert_eq!(bot.proj.extra.len(), 1);
    assert_eq!(bot.proj.extra[0].0, [15, 15, 15, 15]);
    assert_eq!(bot.table.len(), 0);
    assert!(bot.stream.is_empty() && bot.queue.is_empty() && bot.hold.is_none());
    assert_eq!(bot.last_error, "");
}

#[test]
fn damaged_blobs_are_told_apart() {
    let good = zlib(&filter_for(&LINE));
    let table = zlib(&empty_table());
    let code = |r: Result<Player, InitError>| r.err().map(|e| e.code());
    assert_eq!(code(init_embedded(&[1, 2, 3], &table, &[], CALC)), Some(-3));
    assert_eq!(code(init_embedded(&good, &[1, 2, 3], &[], CALC)), Some(-4));
    assert_eq!(code(init_embedded(&zlib(b"short"), &table, &[], CALC)), Some(-1));
    assert_eq!(code(init_embedded(&good, &zlib(b"no table at all, no."), &[], CALC)), Some(-2));
    assert_eq!(code(init_embedded(&good, &table, &[9, 9], CALC)), None);
    let mut bad = good.clone();
    let n = bad.len();
    bad[n - 1] ^= 1;
    assert_eq!(code(init_embedded(&bad, &table, &[], CALC)), Some(-3));
}

#[test]
fn projections_are_attached_where_they_are_any() {
    let bot = init_from(filter_for(&LINE), &empty_table(), &zlib(&extra_blob()), CALC).ok().unwrap();
    assert_eq!(bot.proj.extra.len(), 1);
    assert!(bot.proj.is_sound());
    let bot = init_from(filter_for(&LINE), &empty_table(), &[0], CALC).ok().unwrap();
    assert_eq!(bot.proj.extra.len(), 0);
    let mut wide = extra_blob();
    for r in 0..4 {
        wide[16 + 2 * r] = 0xff;
    }
    let bot = init_bytes(filter_for(&LINE), Some(wide), &empty_table(), CALC).ok().unwrap();
    assert_eq!(bot.proj.extra.len(), 1);
    assert!(!bot.proj.is_sound());
    let cut = extra_blob()[..1000].to_vec();
    let bot = init_bytes(filter_for(&LINE), Some(cut), &empty_table(), CALC).ok().unwrap();
    assert_eq!(bot.proj.extra.len(), 0);
    let bot = init_bytes(filter_for(&LINE), None, &empty_table(), CALC).ok().unwrap();
    assert_eq!(bot.proj.extra.len(), 0);
    assert!(matches!(init_bytes(vec![], None, &empty_table(), CALC), Err(InitError::BadFilter)));
    assert!(matches!(init_bytes(filter_for(&LINE), None, &[], CALC), Err(InitError::BadValues)));
}

#[test]
fn a_filter_without_room_is_not_searched() {
    let mut wide = extra_blob();
    for r in 0..4 {
        wide[16 + 2 * r] = 0xff;
    }
    let mut bot = init_bytes(filter_for(&LINE), Some(wide), &empty_table(), CALC).ok().unwrap();
    assert!(bot.start(None, &DEALS[..7], &[0; 400], 0));
    assert!(!bot.is_ready());
    // No search is needed where there are too few previews, or where the deals are no bag.
    assert!(bot.start(None, &DEALS[..6], &[0; 400], 0));
    assert!(bot.is_ready());
    assert!(bot.suggest().is_none() && bot.out_of_book);
    assert!(bot.is_ready());
    assert!(bot.start(Some(0), &[1, 2, 3, 4, 5, 5], &[0; 400], 0));
    assert!(bot.is_ready());
    assert!(bot.suggest().is_none());
    assert_eq!(bot.last_error, "deals 0..7 [IJLOSTT] are not a 7-bag permutation");
    let mut bot = player();
    assert!(bot.start(None, &DEALS[..7], &[0; 400], 0));
    assert!(bot.is_ready());
}

#[test]
fn a_new_game_forgets_the_last() {
    let mut a = player();
    assert!(a.start(None, &DEALS[..7], &[0; 400], 0));
    assert!(a.suggest().is_some());
    a.play();
    a.new_piece(0);
    assert!(a.suggest().is_none());
    assert!(a.out_of_book);
    let mut b = player();
    for bot in [&mut a, &mut b] {
        assert!(bot.start(Some(0), &DEALS[1..7], &[0; 400], 3));
        assert_eq!(bot.stream, DEALS[..7].to_vec());
        assert_eq!(bot.queue, DEALS[1..7].to_vec());
        assert_eq!((bot.placed_cnt, bot.board_hash, bot.hold), (0, 0, Some(0)));
        assert!(!bot.out_of_book && bot.last_error.is_empty());
        assert!(bot.loop_state.is_none() && bot.pending.is_none());
    }
    assert_eq!(a.suggest(), b.suggest());
}

#[test]
fn pieces_have_numbers() {
    assert_eq!(piece_of(0), Some(0));
    assert_eq!(piece_of(6), Some(6));
    assert_eq!(piece_of(7), None);
    assert_eq!(piece_of(-1), None);
}
