use pcbot_wasm::choice::enumerate_reveals;
use pcbot_wasm::dag::FnEdges;
use pcbot_wasm::graph::{MAX_HASH, TWO_LINE_HASH};
use pcbot_wasm::piece::FULL_BAG;
use pcbot_wasm::probe::{walk, DeadEnd};
use pcbot_wasm::score::{Op, ONE};
use pcbot_wasm::value_search::{value_search, SearchInput, VsResult};
use pcbot_wasm::values::ResetEval;

fn calc(op: Op) -> u64 {
    match op {
        Op::Plus(a, b) => (f64::from_bits(a) + f64::from_bits(b)).to_bits(),
        Op::Over(a, n) => (f64::from_bits(a) / n as f64).to_bits(),
        Op::Worth(_) => ONE,
        Op::Store(a) => a,
    }
}

type Found = VsResult<fn(Op) -> u64>;

fn solve(hold: u8, visible: [u8; 6], mask: u8, f: impl Fn(u64, u8) -> Vec<u64>) -> Found {
    let reset = ResetEval::new(None, calc as fn(Op) -> u64);
    let mut edges = FnEdges::new(f);
    value_search(SearchInput { hold, visible, mask, reset }, &mut edges)
}

fn near(word: u64, want: f64) -> bool {
    (f64::from_bits(word) - want).abs() < 1e-12
}

/// Ten placements to a full box, whatever the pieces.
fn easy(h: u64, _p: u8) -> Vec<u64> {
    if h < 9 {
        vec![h + 1]
    } else if h == 9 {
        vec![MAX_HASH]
    } else {
        vec![]
    }
}

/// The tenth piece must be a bar, and no other may be.
fn bar_last(h: u64, p: u8) -> Vec<u64> {
    if h < 9 && p != 0 {
        vec![h + 1]
    } else if h == 9 && p == 0 {
        vec![MAX_HASH]
    } else {
        vec![]
    }
}

#[test]
fn a_loop_that_cannot_fail_is_worth_one() {
    let vs = solve(0, [1, 2, 3, 4, 5, 6], FULL_BAG, easy);
    assert_eq!(vs.root_value, ONE);
    assert_eq!(vs.leaf_count, 840);
    assert_eq!(vs.missing_keys, 0);
    assert_eq!(vs.nodes_total, vs.nodes_pruned);
    assert_eq!(vs.two_line_field(), TWO_LINE_HASH);
}

#[test]
fn a_loop_that_cannot_be_won_is_worth_nothing() {
    let vs = solve(0, [1, 2, 3, 4, 5, 6], FULL_BAG, |h: u64, _p: u8| {
        if h < 12 { vec![h + 1] } else { vec![] }
    });
    assert_eq!(vs.root_value, 0);
    assert_eq!(vs.nodes_pruned, 0);
    assert!(vs.nodes_total > 10);
}

#[test]
fn a_loop_that_needs_a_bar_is_worth_its_chance() {
    // Four of the seven pieces of the bag are revealed.
    let vs = solve(1, [1; 6], FULL_BAG, bar_last);
    assert!(near(vs.root_value, 4.0 / 7.0));
    // The bar is one of two left in the bag, so it comes; a second one as third reveal is one too many.
    let vs = solve(1, [1; 6], 0b000_0011, bar_last);
    assert!(near(vs.root_value, 6.0 / 7.0));
    // It is not: it can only be the third or the fourth reveal.
    let vs = solve(1, [1; 6], 0b110_0000, bar_last);
    assert!(near(vs.root_value, 2.0 / 7.0));
}

#[test]
fn an_empty_bag_is_a_full_one() {
    let vs = solve(1, [1; 6], 0, bar_last);
    assert!(near(vs.root_value, 4.0 / 7.0));
}

#[test]
fn two_lines_end_a_loop() {
    let vs = solve(0, [1, 2, 3, 4, 5, 6], FULL_BAG, |h: u64, _p: u8| {
        if h < 4 { vec![h + 1] } else if h == 4 { vec![TWO_LINE_HASH] } else { vec![] }
    });
    assert_eq!(vs.root_value, ONE);
    let node = vs.analyze(&[0, 0, 0, 0, 0], [0, 1, 2, 3]);
    assert_eq!(node.terminal, 2);
    assert_eq!(node.depth, 5);
    assert_eq!(node.field, TWO_LINE_HASH);
    assert!(node.cands.is_empty());
    assert_eq!(node.path_steps.len(), 5);
    assert_eq!(walk(&vs, [0, 1, 2, 3]), Ok(2));
}

#[test]
fn the_better_placement_ranks_first() {
    // From field 1 on, the left way needs the bar last; the right way cannot fail.
    let f = |h: u64, p: u8| -> Vec<u64> {
        if h == 0 {
            vec![1, 101]
        } else if h < 100 {
            bar_last(h, p)
        } else if h < 109 {
            vec![h + 1]
        } else if h == 109 {
            vec![MAX_HASH]
        } else {
            vec![]
        }
    };
    let vs = solve(1, [1; 6], FULL_BAG, f);
    assert_eq!(vs.root_value, ONE);
    let node = vs.analyze(&[], [0, 1, 2, 3]);
    assert_eq!(node.terminal, 0);
    assert_eq!(node.cands.len(), 2);
    assert_eq!(node.cands[0].field_after, 101);
    assert!(node.cands[0].best);
    assert_eq!(node.cands[0].score, ONE);
    assert_eq!(node.cands[1].field_after, 1);
    assert!(!node.cands[1].best);
    assert!(near(node.cands[1].score, 4.0 / 7.0));
    assert_eq!(node.best_score, ONE);
    assert_eq!(node.active, 1);
    assert_eq!(node.reveal_options[0], vec![0, 1, 2, 3, 4, 5, 6]);
    assert_eq!(node.reveal_options[1], vec![1, 2, 3, 4, 5, 6]);
    assert_eq!(node.visible, [1; 6]);
}

#[test]
fn scores_follow_what_was_revealed() {
    let vs = solve(1, [1; 6], FULL_BAG, bar_last);
    // Before any reveal is seen.
    assert!(near(vs.analyze(&[], [0, 1, 2, 3]).best_score, 4.0 / 7.0));
    // The bar came first: the loop is won.
    assert_eq!(vs.analyze(&[0], [0, 1, 2, 3]).best_score, ONE);
    // It did not: three of six are left.
    assert!(near(vs.analyze(&[0], [1, 2, 3, 4]).best_score, 3.0 / 6.0));
    assert!(near(vs.analyze(&[0, 0, 0], [1, 2, 3, 0]).best_score, 1.0 / 4.0));
    // All four are seen and the bar is not among them.
    let node = vs.analyze(&[0, 0, 0, 0], [1, 2, 3, 4]);
    assert_eq!(node.terminal, 3);
    assert_eq!(node.best_score, 0);
}

#[test]
fn unseen_reveals_do_not_change_scores() {
    let vs = solve(1, [1; 6], FULL_BAG, bar_last);
    for n in 0..4usize {
        let path = vec![0usize; n];
        let mut a = [1u8, 2, 3, 4];
        let first = vs.analyze(&path, a);
        for tail in [[0u8, 5, 6, 4], [6, 0, 5, 2], [5, 6, 4, 0]] {
            for i in n..4 {
                a[i] = tail[i];
            }
            let other = vs.analyze(&path, a);
            assert_eq!(first.cands.len(), other.cands.len());
            for (x, y) in first.cands.iter().zip(other.cands.iter()) {
                assert_eq!((x.edge, x.score, x.placed, x.best), (y.edge, y.score, y.placed, y.best));
            }
        }
    }
}

#[test]
fn the_bar_is_held_until_the_end() {
    let vs = solve(1, [1; 6], FULL_BAG, bar_last);
    let h = [2u8, 0, 5, 4];
    assert_eq!(walk(&vs, h), Ok(1));
    // With the bar due, only the hold is placed.
    let node = vs.analyze(&[0, 0, 0, 0, 0, 0], h);
    assert_eq!(node.depth, 6);
    assert_eq!(node.active, 2);
    assert_eq!(node.terminal, 0);
    let e = node.cands[0].edge;
    let next = vs.analyze(&[0, 0, 0, 0, 0, 0, e], h);
    assert_eq!(next.active, 0);
    assert_eq!(next.cands.len(), 1);
    assert_eq!(next.cands[0].hold_after, 0);
}

#[test]
fn walks_end_where_nothing_is_left() {
    let vs = solve(1, [1; 6], FULL_BAG, bar_last);
    let end = walk(&vs, [1, 2, 3, 4]);
    assert_eq!(
        end,
        Err(DeadEnd { depth: 4, field: 4, hold: 1, active: 1, best_score: 0, cands: 1 })
    );
    // A reveal that the bag does not allow leaves no score.
    let vs = solve(1, [1; 6], 0b100_0000, bar_last);
    let end = walk(&vs, [5, 2, 0, 1]).unwrap_err();
    assert_eq!((end.depth, end.best_score), (1, 0));
}

#[test]
fn sequences_of_reveals_are_ranked() {
    let vs = solve(1, [1; 6], FULL_BAG, easy);
    assert_eq!(vs.full_leaf([0, 1, 2, 3]), Some(0));
    assert_eq!(vs.full_leaf([0, 1, 2, 4]), Some(1));
    assert_eq!(vs.full_leaf([6, 5, 4, 3]), Some(839));
    assert_eq!(vs.full_leaf([0, 0, 1, 2]), None);
    let vs = solve(1, [1; 6], 0b000_1000, easy);
    assert_eq!(vs.leaf_count, 210);
    assert_eq!(vs.full_leaf([3, 0, 1, 2]), Some(0));
    assert_eq!(vs.full_leaf([0, 1, 2, 3]), None);
}

#[test]
fn paths_stop_at_missing_placements() {
    let vs = solve(1, [1; 6], FULL_BAG, easy);
    let node = vs.analyze(&[0, 7, 0], [0, 1, 2, 3]);
    assert_eq!(node.depth, 1);
    assert_eq!(node.path_steps.len(), 1);
    assert_eq!(node.path_steps[0].field_before, 0);
    assert_eq!(node.path_steps[0].field_after, 1);
}

#[test]
fn ways_to_go_on_are_listed_in_order() {
    let mut out = Vec::new();
    enumerate_reveals([4, 0, 0, 0], 1, 2, 0b000_0101, &mut out);
    assert_eq!(out, vec![[4, 0, 2, 0], [4, 2, 0, 0]]);
    let mut all = Vec::new();
    enumerate_reveals([0; 4], 0, 4, FULL_BAG, &mut all);
    assert_eq!(all.len(), 840);
    assert_eq!(all[0], [0, 1, 2, 3]);
    assert_eq!(all[839], [6, 5, 4, 3]);
    let mut one = Vec::new();
    enumerate_reveals([3, 5, 0, 0], 2, 2, 0b100_0000, &mut one);
    assert_eq!(one, vec![[3, 5, 6, 0]]);
}

#[test]
fn the_best_first_placement_attains_the_value() {
    for mask in [FULL_BAG, 0b000_0011, 0b110_0000, 0b100_0001] {
        let vs = solve(1, [1; 6], mask, bar_last);
        let mut all = Vec::new();
        enumerate_reveals([0; 4], 0, 4, mask, &mut all);
        for h in all.iter().step_by(17) {
            assert_eq!(vs.analyze(&[], *h).best_score, vs.root_value);
        }
    }
}

#[test]
fn long_paths_that_end_early_are_analysed() {
    let vs = solve(1, [1; 6], FULL_BAG, easy);
    // The bag does not allow these reveals, but the path ends before they are placed.
    let node = vs.analyze(&[0, 0, 99, 0, 0, 0, 0, 0], [3, 3, 3, 3]);
    assert_eq!(node.depth, 2);
    assert_eq!(node.path_steps.len(), 2);
}
