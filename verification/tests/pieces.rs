use pcbot_wasm::hidden::{canonical_mask, get_hidden, pieces_in_mask, prefix_pack, set_hidden};
use pcbot_wasm::piece::{
    after_reveal, has, mask_to_string, piece_char, piece_from_char, pieces, FULL_BAG, PIECE_COUNT,
};
use pcbot_wasm::score::{ask, greater, none_left, Op, ONE};
use pcbot_wasm::table::Table;
use pcbot_wasm::text::{push_decimal, push_number};

#[test]
fn letters_and_pieces_go_together() {
    let letters = ['I', 'J', 'L', 'O', 'S', 'T', 'Z'];
    assert_eq!(PIECE_COUNT, 7);
    for p in 0u8..7 {
        assert_eq!(piece_char(p), letters[p as usize]);
        assert_eq!(piece_from_char(letters[p as usize]), Some(p));
    }
    assert_eq!(piece_from_char('i'), None);
    assert_eq!(piece_from_char('X'), None);
}

#[test]
fn bag_loses_the_piece_that_is_drawn() {
    assert_eq!(after_reveal(FULL_BAG, 0), 0b111_1110);
    assert_eq!(after_reveal(0b100_0001, 6), 0b000_0001);
    assert!(has(0b100_0001, 6));
    assert!(!has(after_reveal(0b100_0001, 6), 6));
}

#[test]
fn last_draw_fills_the_bag() {
    assert_eq!(after_reveal(0b000_1000, 3), FULL_BAG);
    let mut mask = FULL_BAG;
    for p in 0u8..7 {
        mask = after_reveal(mask, p);
    }
    assert_eq!(mask, FULL_BAG);
}

#[test]
fn pieces_of_a_bag_ascend() {
    assert_eq!(pieces(0b101_0010), vec![1, 4, 6]);
    assert_eq!(pieces(FULL_BAG), vec![0, 1, 2, 3, 4, 5, 6]);
    assert_eq!(pieces_in_mask(0b000_0001), vec![0]);
    assert_eq!(mask_to_string(0b101_0010), "JSZ");
}

#[test]
fn no_bag_stands_for_a_full_one() {
    assert_eq!(canonical_mask(0), FULL_BAG);
    assert_eq!(canonical_mask(0b10), 0b10);
}

#[test]
fn reveals_pack_three_bits_each() {
    let mut pack = 0u16;
    for (i, p) in [5u8, 0, 6, 3].iter().enumerate() {
        pack = set_hidden(pack, i as u8, *p);
    }
    assert_eq!(pack, 5 + 6 * 64 + 3 * 512);
    for (i, p) in [5u8, 0, 6, 3].iter().enumerate() {
        assert_eq!(get_hidden(pack, i as u8), *p);
    }
    assert_eq!(prefix_pack(pack, 1), 5);
    assert_eq!(prefix_pack(pack, 3), 5 + 6 * 64);
    assert_eq!(prefix_pack(pack, 4), pack);
}

#[test]
fn scores_compare_as_numbers() {
    let words = [
        f64::NEG_INFINITY, -2.5, -1.0, -0.0, 0.0, 1e-300, 0.5, 1.0, 1.5, 700.0, f64::INFINITY,
        f64::NAN,
    ];
    for a in words {
        for b in words {
            assert_eq!(greater(a.to_bits(), b.to_bits()), a > b, "{} {}", a, b);
        }
        assert_eq!(none_left(a.to_bits()), a <= 0.0, "{}", a);
    }
    assert_eq!(ONE, 1.0f64.to_bits());
}

#[test]
fn arithmetic_is_asked_of_the_caller() {
    let f = |op: Op| match op {
        Op::Plus(a, b) => a.max(b),
        Op::Over(a, n) => a / n,
        Op::Worth(_) => 7,
        Op::Store(a) => a,
    };
    assert_eq!(ask(&f, Op::Plus(12, 10)), 12);
    assert_eq!(ask(&f, Op::Plus(3, 10)), 10);
    assert_eq!(ask(&f, Op::Over(12, 10)), 1);
}

#[test]
fn places_of_a_packed_sequence_are_written_over() {
    assert_eq!(set_hidden(0b111_111, 0, 1), 0b111_001);
    assert_eq!(set_hidden(0xFFFF, 3, 2), 0b1_111_010_111_111_111);
    assert_eq!(set_hidden(0, 1, 0xFF), 0xFF << 3);
    assert_eq!(get_hidden(0b101_000_000_000_000, 4), 5);
    assert_eq!(get_hidden(0xFFFF, 5), 1);
    assert_eq!(prefix_pack(0xFFFF, 0), 0);
    assert_eq!(prefix_pack(0xFFFF, 2), 0x3F);
    assert_eq!(prefix_pack(0xFFFF, 4), 0xFFF);
    assert_eq!(prefix_pack(0xFFFF, 5), 0x7FFF);
}

#[test]
fn numbers_are_written_out() {
    let mut s = String::new();
    push_decimal(&mut s, 0);
    push_decimal(&mut s, 1120140);
    assert_eq!(s, "01120140");
    let mut t = String::new();
    push_number(&mut t, 0b10_1001, 2, 7);
    assert_eq!(t, "0101001");
}

#[test]
fn table_gives_back_what_was_put_in() {
    let mut t: Table<u32> = Table::new();
    assert_eq!(t.len(), 0);
    assert_eq!(t.get(5), None);
    t.insert(5, 50);
    t.insert(u64::MAX, 51);
    t.insert(7, 52);
    assert_eq!(t.len(), 3);
    assert_eq!(t.get(5), Some(&50));
    assert_eq!(t.get(u64::MAX), Some(&51));
    assert_eq!(t.get(7), Some(&52));
    assert_eq!(t.get(6), None);
    t.insert(5, 99);
    assert_eq!(t.len(), 3);
    assert_eq!(t.get(5), Some(&99));
    assert_eq!(t.key(0), 5);
    assert_eq!(t.key(2), 7);
}

#[test]
fn table_holds_many_keys() {
    let mut t: Table<u64> = Table::new();
    for i in 0..5000u64 {
        t.insert(i * i * 77, i);
    }
    assert_eq!(t.len(), 5000);
    for i in 0..5000u64 {
        assert_eq!(t.get(i * i * 77), Some(&i));
    }
    assert_eq!(t.get(1), None);
}
