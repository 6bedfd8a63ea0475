use postflop::cards::{board_index, flop_from_str, flop_to_bytes};

#[test]
fn test_flop_from_str() {
    let tests = [("Qs Jh 2h", [2, 38, 43]), ("Td9d6h", [18, 29, 33])];
    for test in tests {
        assert_eq!(flop_from_str(test.0).unwrap(), test.1);
    }
}

#[test]
fn flop_parse_rejects_bad_input() {
    assert!(flop_from_str("").is_err());
    assert!(flop_from_str("Qs Jh").is_err());
    assert!(flop_from_str("Qs Jh 2x").is_err());
    assert!(flop_from_str("Xs Jh 2h").is_err());
    assert!(flop_from_str("QsQs2h").is_err());
    assert!(flop_from_str("Qs Jh 2h extra").is_err());
}

#[test]
fn flop_print_parse_round_trip() {
    for a in 0u8..52 {
        for b in (a + 1)..52 {
            for c in (b + 1)..52 {
                if (a + b + c) % 7 != 0 {
                    continue; // sample the space
                }
                let bytes = flop_to_bytes(&[a, b, c]);
                let s = std::str::from_utf8(&bytes).unwrap();
                assert_eq!(flop_from_str(s).unwrap(), [a, b, c]);
            }
        }
    }
    let bytes = flop_to_bytes(&[18, 29, 33]);
    assert_eq!(std::str::from_utf8(&bytes).unwrap(), "6h9dTd");
}

#[test]
fn board_index_is_triangular() {
    // ascending over all pairs, hitting every slot exactly once
    let mut seen = vec![false; 1326];
    for t in 0u8..52 {
        for r in (t + 1)..52 {
            let i = board_index(t, r);
            assert!(!seen[i]);
            seen[i] = true;
            assert_eq!(board_index(r, t), i);
        }
    }
}
