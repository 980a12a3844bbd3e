use pcbot_wasm::piece::FULL_BAG;
use pcbot_wasm::score::{Contribution, Op, ONE};
use pcbot_wasm::values::{boundary_key, enumerate_sorted_keys, ResetEval, TableError, ValueTable};

fn contribution(c: Contribution) -> f32 {
    match c {
        Contribution::Count(n) => n as f32 / 5040f32,
        Contribution::Value(w) => f32::from_bits(w),
        Contribution::Step { low, high, step } => {
            let (lo, hi) = (f32::from_bits(low), f32::from_bits(high));
            lo + step as f32 * ((hi - lo) / 4095.0)
        },
    }
}

fn calc(op: Op) -> u64 {
    match op {
        Op::Plus(a, b) => (f64::from_bits(a) + f64::from_bits(b)).to_bits(),
        Op::Over(a, n) => (f64::from_bits(a) / n as f64).to_bits(),
        Op::Worth(c) => (1.0 + contribution(c) as f64).to_bits(),
        Op::Store(a) => a,
    }
}

fn steps_blob(low: f32, high: f32, step: impl Fn(usize) -> u16) -> Vec<u8> {
    let n = 1_120_140usize;
    let mut b = b"L0Q12V1\0".to_vec();
    b.extend_from_slice(&low.to_le_bytes());
    b.extend_from_slice(&high.to_le_bytes());
    b.extend_from_slice(&(n as u64).to_le_bytes());
    for i in (0..n).step_by(2) {
        let (x, y) = (step(i), step(i + 1));
        b.push(x as u8);
        b.push((x >> 8) as u8 | ((y & 15) << 4) as u8);
        b.push((y >> 4) as u8);
    }
    b
}

#[test]
fn keys_of_known_states() {
    assert_eq!(boundary_key(0, [0; 6], 0), 0);
    assert_eq!(boundary_key(6, [1, 0, 0, 0, 0, 0], 127), (6 << 24) | (127 << 17) | 1);
    assert_eq!(boundary_key(2, [0, 1, 2, 3, 4, 5], 64), (2 << 24) | (64 << 17) | (7 + 2 * 49 + 3 * 343 + 4 * 2401 + 5 * 16807));
}

#[test]
fn all_keys_are_listed_in_order() {
    let keys = enumerate_sorted_keys();
    assert_eq!(keys.len(), 1_120_140);
    assert!(keys.windows(2).all(|w| w[0] < w[1]));
    // Six of a new bag, and the seventh left over.
    assert!(keys.binary_search(&boundary_key(2, [0, 1, 2, 3, 4, 5], 64)).is_ok());
    // The piece that is left over cannot have come already.
    assert!(keys.binary_search(&boundary_key(2, [0, 1, 2, 3, 4, 5], 1)).is_err());
    assert!(keys.binary_search(&boundary_key(2, [0, 0, 2, 3, 4, 5], 64)).is_err());
}

#[test]
fn counts_are_looked_up() {
    let mut b = b"L0U16V1\0".to_vec();
    b.extend_from_slice(&3u64.to_le_bytes());
    for (k, v) in [(5u32, 100u16), (9, 5040), (4_000_000_000, 1)] {
        b.extend_from_slice(&k.to_le_bytes());
        b.extend_from_slice(&v.to_le_bytes());
    }
    let t = ValueTable::from_bytes(&b).unwrap();
    assert_eq!(t.len(), 3);
    assert_eq!(t.get(5), Some(Contribution::Count(100)));
    assert_eq!(t.get(9), Some(Contribution::Count(5040)));
    assert_eq!(t.get(4_000_000_000), Some(Contribution::Count(1)));
    assert_eq!(t.get(6), None);
}

#[test]
fn values_are_looked_up() {
    let mut b = b"L0F32V1\0".to_vec();
    b.extend_from_slice(&2u64.to_le_bytes());
    for (k, v) in [(7u32, 1.5f32), (8, -0.25)] {
        b.extend_from_slice(&k.to_le_bytes());
        b.extend_from_slice(&v.to_le_bytes());
    }
    let t = ValueTable::from_bytes(&b).unwrap();
    assert_eq!(t.get(7), Some(Contribution::Value(1.5f32.to_bits())));
    assert_eq!(t.get(8), Some(Contribution::Value((-0.25f32).to_bits())));
    assert_eq!(t.get(0), None);
}

#[test]
fn steps_cover_every_key() {
    let b = steps_blob(0.5, 2.5, |i| (i % 4096) as u16);
    let t = ValueTable::from_bytes(&b).unwrap();
    let keys = enumerate_sorted_keys();
    assert_eq!(t.len(), keys.len());
    for i in [0usize, 1, 2, 4095, 4096, 700_001, 1_120_139] {
        let want = Contribution::Step {
            low: 0.5f32.to_bits(),
            high: 2.5f32.to_bits(),
            step: (i % 4096) as u16,
        };
        assert_eq!(t.get(keys[i]), Some(want));
    }
    assert_eq!(t.get(0), None);
}

#[test]
fn bad_tables_are_refused() {
    fn refused(b: &[u8]) -> TableError {
        match ValueTable::from_bytes(b) {
            Ok(_) => panic!(),
            Err(e) => e,
        }
    }
    assert_eq!(refused(b"L0U16V1").message(), "value table too short");
    assert_eq!(refused(b"nothing of the sort").message(), "unknown value table magic");
    let mut b = b"L0U16V1\0".to_vec();
    b.extend_from_slice(&2u64.to_le_bytes());
    b.push(0);
    assert_eq!(refused(&b).message(), "u16 value table size mismatch: 17 bytes for 2 records");
    b[..8].copy_from_slice(b"L0F32V1\0");
    assert_eq!(refused(&b).message(), "f32 value table size mismatch: 17 bytes for 2 records");
    let mut q = b"L0Q12V1\0".to_vec();
    assert!(matches!(refused(&q), TableError::TooShort));
    q.extend_from_slice(&[0; 8]);
    assert!(matches!(refused(&q), TableError::TooShort));
    q.extend_from_slice(&2u64.to_le_bytes());
    assert_eq!(refused(&q).message(), "q12 size mismatch: 24 bytes for 2 values");
    q.extend_from_slice(&[0; 3]);
    assert_eq!(refused(&q).message(), "q12 count 2 != enumerated key count 1120140");
}

#[test]
fn parts_of_a_key_may_overlap() {
    assert_eq!(boundary_key(1, [255; 6], 255), (1 << 24) | (255 << 17) | 5_000_040);
    assert_eq!(boundary_key(255, [0, 0, 0, 0, 0, 8], 128), (255 << 24) | (8 * 16807));
}

#[test]
fn without_a_table_a_loop_is_worth_one() {
    let mut r = ResetEval::new(None, calc);
    assert_eq!(r.w4(3, FULL_BAG), ONE);
    assert_eq!(r.w2(3, 0, [1, 2, 3, 4], 0b110_0001), ONE);
    assert_eq!(r.missing_keys, 0);
}

#[test]
fn resets_are_means_over_the_bag() {
    // The lowest bit of the hold tells the states apart.
    let keys = enumerate_sorted_keys();
    let b = steps_blob(0.0, 4095.0, |i| if i < 1_120_140 { (keys[i] >> 24) as u16 } else { 0 });
    let t = ValueTable::from_bytes(&b).unwrap();
    let mut r = ResetEval::new(Some(&t), calc);
    for hold in 0..7u8 {
        assert_eq!(f64::from_bits(r.w4(hold, FULL_BAG)), 1.0 + hold as f64);
        assert_eq!(f64::from_bits(r.w4(hold, 0b001_1000)), 1.0 + hold as f64);
    }
    assert_eq!(f64::from_bits(r.w2(4, 0, [1, 2, 3, 4], 0b110_0000)), 5.0);
    assert_eq!(r.missing_keys, 0);
}

#[test]
fn two_line_reset_averages_one_reveal() {
    // q5 and the four reveals leave pieces 5 and 6; one of the two states has another value.
    let a = boundary_key(4, [0, 1, 2, 3, 4, 5], 0b100_0000);
    let c = boundary_key(4, [0, 1, 2, 3, 4, 6], 0b010_0000);
    let mut rows = [(a, 0.5f32), (c, 1.5f32)];
    rows.sort_by_key(|r| r.0);
    let mut b = b"L0F32V1\0".to_vec();
    b.extend_from_slice(&2u64.to_le_bytes());
    for (k, v) in rows {
        b.extend_from_slice(&k.to_le_bytes());
        b.extend_from_slice(&v.to_le_bytes());
    }
    let t = ValueTable::from_bytes(&b).unwrap();
    let mut r = ResetEval::new(Some(&t), calc);
    assert_eq!(f64::from_bits(r.w2(4, 0, [1, 2, 3, 4], 0b110_0000)), 2.0);
    assert_eq!(r.missing_keys, 0);
}

#[test]
fn missing_states_are_counted_once_a_hold_and_bag() {
    let mut b = b"L0U16V1\0".to_vec();
    b.extend_from_slice(&0u64.to_le_bytes());
    let t = ValueTable::from_bytes(&b).unwrap();
    let mut r = ResetEval::new(Some(&t), calc);
    assert_eq!(r.w4(0, FULL_BAG), 0);
    assert_eq!(r.missing_keys, 5040);
    assert_eq!(r.w4(0, FULL_BAG), 0);
    assert_eq!(r.missing_keys, 5040);
    assert_eq!(r.w2(4, 0, [1, 2, 3, 4], 0b110_0000), 0);
    assert_eq!(r.missing_keys, 5042);
}
