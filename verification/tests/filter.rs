use pcbot_wasm::graph::MAX_HASH;
use pcbot_wasm::probe::{read_source, scan};
use pcbot_wasm::proj::{ProjError, ProjFilter, CELLS, PROJ_BYTES, PROJ_FILE_LEN};

fn gathered(x: u64, cells: &[u8]) -> usize {
    let mut v = 0usize;
    for (j, &c) in cells.iter().enumerate() {
        v |= ((x >> c & 1) as usize) << j;
    }
    v
}

/// A filter that marks these fields.
fn filter_for(fields: &[u64]) -> Vec<u8> {
    let mut data = vec![0u8; PROJ_FILE_LEN];
    data[..8].copy_from_slice(b"PCPRJ11\0");
    for &f in fields {
        for i in 0..11 {
            let v = gathered(f, &CELLS[i]);
            data[16 + i * PROJ_BYTES + v / 8] |= 1 << (v % 8);
        }
    }
    data
}

/// One projection onto the middle columns of all rows.
fn extra_for(mask: u16, fields: &[u64]) -> Vec<u8> {
    let mut data = vec![0u8; 16 + 8 + PROJ_BYTES];
    data[..8].copy_from_slice(b"PCPRJX1\0");
    data[8] = 1;
    let mut cells: Vec<u8> = Vec::new();
    for r in 0..4u8 {
        data[16 + 2 * r as usize] = mask as u8;
        data[17 + 2 * r as usize] = (mask >> 8) as u8;
        for c in 0..10u8 {
            if mask >> c & 1 != 0 {
                cells.push(10 * r + c);
            }
        }
    }
    for &f in fields {
        let v = gathered(f, &cells);
        data[24 + v / 8] |= 1 << (v % 8);
    }
    data
}

#[test]
fn marked_fields_pass() {
    let fields = [0u64, 0x407, 0x641f, 0xc07dff, 0x1cc7ffff];
    let f = ProjFilter::from_bytes(filter_for(&fields)).unwrap();
    for x in fields {
        assert!(f.maybe(x));
    }
    assert!(!f.maybe(0x40e));
    assert!(!f.maybe(0xf));
}

#[test]
fn cells_must_come_in_fours() {
    let mut data = vec![0xffu8; PROJ_FILE_LEN];
    data[..8].copy_from_slice(b"PCPRJ11\0");
    let f = ProjFilter::from_bytes(data).unwrap();
    assert!(f.maybe(0));
    assert!(f.maybe(0b1111));
    assert!(f.maybe(MAX_HASH));
    assert!(!f.maybe(0b111));
    assert!(!f.maybe(0b11111));
}

#[test]
fn one_projection_is_enough_to_drop() {
    let mut data = vec![0xffu8; PROJ_FILE_LEN];
    data[..8].copy_from_slice(b"PCPRJ11\0");
    let v = gathered(0b1111, &CELLS[4]);
    data[16 + 4 * PROJ_BYTES + v / 8] &= !(1 << (v % 8));
    let f = ProjFilter::from_bytes(data).unwrap();
    assert!(!f.maybe(0b1111));
    assert!(f.maybe(0b1111_0000_0000));
}

#[test]
fn bad_filters_are_refused() {
    let short = ProjFilter::from_bytes(b"PCPRJ".to_vec());
    match short {
        Err(e) => {
            assert_eq!(e.message(), "bad proj filter: len 5 magic [80, 67, 80, 82, 74]");
            assert!(matches!(e, ProjError::BadFilter { len: 5, .. }));
        },
        Ok(_) => panic!(),
    }
    let mut data = vec![0u8; PROJ_FILE_LEN];
    data[..8].copy_from_slice(b"PCPRJ12\0");
    let r = ProjFilter::from_bytes(data);
    assert!(matches!(r, Err(ProjError::BadFilter { len: 1441808, .. })));
}

#[test]
fn extra_projections_narrow() {
    let fields = [0u64, 0x407, 0x641f];
    let mut f = ProjFilter::from_bytes(filter_for(&fields)).unwrap();
    let extra = extra_for(0b1_1111_0000, &[0x407]);
    assert!(f.maybe(0x641f));
    assert!(matches!(f.attach_extra(&extra), Ok(1)));
    assert!(f.maybe(0x407));
    assert!(!f.maybe(0x641f));
    assert!(!f.maybe(0x40e));
}

#[test]
fn columns_beyond_the_box_are_empty() {
    let mut f = ProjFilter::from_bytes(filter_for(&[0x407, 0])).unwrap();
    // Cells 0 and 9 of the bottom row, then two columns that do not exist, then cell 0 of the next.
    let mut data = vec![0u8; 16 + 8 + PROJ_BYTES];
    data[..8].copy_from_slice(b"PCPRJX1\0");
    data[8] = 1;
    data[16..18].copy_from_slice(&0b1110_0000_0001u16.to_le_bytes());
    data[18] = 1;
    // 0x407 fills cells 0, 1, 2 and 10.
    data[24] = 1;
    data[24 + 0b1_0001 / 8] |= 1 << (0b1_0001 % 8);
    assert!(f.attach_extra(&data).is_ok());
    assert!(f.is_sound());
    assert!(f.maybe(0x407));
    assert!(f.maybe(0));
    data[24 + 0b1_0001 / 8] = 0;
    assert!(f.attach_extra(&data).is_ok());
    assert!(!f.maybe(0x407));
    assert!(f.maybe(0));
}

#[test]
fn bad_extras_are_refused() {
    let mut f = ProjFilter::from_bytes(filter_for(&[0])).unwrap();
    let e = f.attach_extra(b"PCPRJX2\0aaaaaaaa").unwrap_err();
    assert_eq!(e.message(), "bad PCPRJX1 magic");
    assert!(f.attach_extra(b"PCPRJX1\0").is_err());
    let mut cut = extra_for(0b1_1111_0000, &[0]);
    cut.pop();
    let e = f.attach_extra(&cut).unwrap_err();
    assert_eq!(e.message(), "bad PCPRJX1 len 131095 (n=1)");
    assert_eq!(f.extra.len(), 0);
    assert!(f.is_sound());
}

#[test]
fn projections_need_room() {
    // Forty cells have no room in a bit set; four times five have.
    let mut f = ProjFilter::from_bytes(filter_for(&[0])).unwrap();
    assert!(matches!(f.attach_extra(&extra_for(0b1_1111_0000, &[0])), Ok(1)));
    assert!(f.is_sound());
    let mut wide = extra_for(0, &[]);
    for r in 0..4 {
        wide[16 + 2 * r..18 + 2 * r].copy_from_slice(&0x3ffu16.to_le_bytes());
    }
    assert!(matches!(f.attach_extra(&wide), Ok(1)));
    assert_eq!(f.extra.len(), 2);
    assert!(!f.is_sound());
    // Columns that do not exist take no room where no cell comes after them.
    let mut f = ProjFilter::from_bytes(filter_for(&[0])).unwrap();
    let mut odd = extra_for(0, &[]);
    odd[16..24].copy_from_slice(&[0xff, 0x03, 0xff, 0x03, 0, 0xfc, 0, 0xfc]);
    assert!(matches!(f.attach_extra(&odd), Ok(1)));
    assert!(f.is_sound());
    assert!(!f.maybe(0));
    odd[24] = 1;
    f.extra.clear();
    assert!(f.attach_extra(&odd).is_ok());
    assert!(f.maybe(0));
    // The first three rows leave no word for the last.
    let mut f = ProjFilter::from_bytes(filter_for(&[0])).unwrap();
    odd[16..24].copy_from_slice(&[0, 0xfc, 0xff, 0xff, 0xff, 0xff, 0, 0]);
    assert!(f.attach_extra(&odd).is_ok());
    assert!(!f.is_sound());
}

#[test]
fn dropped_fields_are_counted() {
    let fields = [0u64, 0x407, 0x641f];
    let base = ProjFilter::from_bytes(filter_for(&fields)).unwrap();
    let mut ext = ProjFilter::from_bytes(filter_for(&fields)).unwrap();
    assert!(ext.attach_extra(&extra_for(0b1_1111_0000, &[0x407])).is_ok());
    let r = scan(&base, &ext, &[0x407, 0x641f, 0x40e, 0, 0x641f]);
    assert_eq!(r.base_missed, 1);
    let both = [0x407u64, 0x641f, 0x40e, 0, 0x641f].iter().filter(|x| !ext.maybe(**x)).count();
    assert_eq!(both, r.base_missed + r.extra_missed);
    assert_eq!(r.samples[0], 0x641f);
    assert_eq!(r.samples.len(), r.extra_missed);
    let many = vec![0x641fu64; 20];
    let r = scan(&base, &ext, &many);
    assert_eq!((r.base_missed, r.extra_missed, r.samples.len()), (0, 20, 8));
}

#[test]
fn lists_of_fields_are_read() {
    let mut b = b"PCFLDSR1".to_vec();
    b.extend_from_slice(&2u64.to_le_bytes());
    b.extend_from_slice(&[0x07, 0x04, 0, 0, 0]);
    b.extend_from_slice(&[0xff, 0xff, 0xff, 0xff, 0xff]);
    assert_eq!(read_source(&b), Some(vec![0x407, MAX_HASH]));
    b.push(9);
    assert_eq!(read_source(&b), Some(vec![0x407, MAX_HASH]));
    b.truncate(25);
    assert_eq!(read_source(&b), None);
    b[0] = 0;
    assert_eq!(read_source(&b), None);
    assert_eq!(read_source(b"PCFLDSR1"), None);
}
