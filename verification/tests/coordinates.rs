use pcbot_wasm::tbpcoord::{canonical_orients, decode, encode};

// Every canonical (piece, orientation) at a range of anchors must round-trip
// decode -> encode -> same (orientation, anchor). Catches offset/rotation typos.
#[test]
fn roundtrip_canonical() {
    for piece in 0u8..7 {
        for &o in canonical_orients(piece).iter() {
            for x in 2..8i8 {
                for y in 2..8i8 {
                    let cells = decode(piece, o, x, y);
                    let got = encode(piece, &cells).expect("must encode");
                    assert_eq!(got, (o, x, y), "piece {} orient {} anchor ({},{})", piece, o, x, y);
                }
            }
        }
    }
}

// A NON-canonical orientation's cells must encode to its canonical twin, never to itself.
// (S/Z/I: east->west, south->north; O: everything->north.)
#[test]
fn noncanonical_maps_to_canonical() {
    for piece in [0u8, 3, 4, 6] {
        let canon: std::collections::HashSet<u8> = canonical_orients(piece).iter().copied().collect();
        for o in 0u8..4 {
            if canon.contains(&o) {
                continue;
            }
            let cells = decode(piece, o, 5, 5);
            let (eo, _, _) = encode(piece, &cells).expect("must encode");
            assert!(canon.contains(&eo), "piece {} orient {} encoded to non-canonical {}", piece, o, eo);
        }
    }
}

#[test]
fn placements_reach_the_last_coordinates() {
    let cells = decode(0, 0, 125, 127);
    assert!(cells.contains(&(127, 127)) && cells.contains(&(124, 127)));
    assert_eq!(encode(0, &cells), Some((0, 125, 127)));
    let cells = decode(0, 0, -127, -128);
    assert!(cells.contains(&(-128, -128)) && cells.contains(&(-125, -128)));
    assert_eq!(encode(0, &cells), Some((0, -127, -128)));
    assert_eq!(encode(0, &[(127, 127), (-128, -128), (127, -128), (-128, 127)]), None);
    assert_eq!(encode(3, &[(127, 127), (-128, 127), (127, -128), (-128, -128)]), None);
}
