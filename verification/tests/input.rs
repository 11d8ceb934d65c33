use shogi_engine::input::{parse_board, parse_hands};
use shogi_engine::tt::{TranspositionTable, TT_ALPHA, TT_BETA, TT_EXACT};

#[test]
fn short_inputs_are_padded() {
    let b = parse_board(&[1, -2, 3]);
    assert_eq!(&b[..3], &[1, -2, 3]);
    assert!(b[3..].iter().all(|&v| v == 0));
    let (s, g) = parse_hands(&[1, 2], &[]);
    assert_eq!(s, [1, 2, 0, 0, 0, 0, 0, 0]);
    assert_eq!(g, [0; 8]);
}

#[test]
fn long_inputs_are_cut() {
    let flat: Vec<i8> = (0..100).map(|i| (i % 19) as i8).collect();
    let b = parse_board(&flat);
    assert_eq!(&b[..], &flat[..81]);
    let (s, g) = parse_hands(&[9; 12], &[1, 2, 3, 4, 5, 6, 7, 8, 9]);
    assert_eq!(s, [9; 8]);
    assert_eq!(g, [1, 2, 3, 4, 5, 6, 7, 8]);
}

#[test]
fn flag_constants() {
    assert_eq!(TranspositionTable::FLAG_EXACT, TT_EXACT);
    assert_eq!(TranspositionTable::FLAG_ALPHA, TT_ALPHA);
    assert_eq!(TranspositionTable::FLAG_BETA, TT_BETA);
    assert_eq!((TT_EXACT, TT_ALPHA, TT_BETA), (0, 1, 2));
}
