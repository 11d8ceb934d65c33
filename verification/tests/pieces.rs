use shogi_engine::types::{
    abs_piece, base_type, board_get, board_set, hand_index, hand_piece_type, is_promoted,
    piece_owner, piece_value, promote_piece, unpromote_piece, Board, GameVariant, ShogiMove, FU,
    GI, HI, HM, KA, KE, KI, KO, KY, NG, NIN, NK, NY, OU, RY, TO, UM, WK, MOVE_TYPE_DROP,
    MOVE_TYPE_MOVE, MOVE_TYPE_PROMOTE_NIN, MOVE_TYPE_ABORT_NIN,
};

#[test]
fn hand_index_covers_hand_kinds() {
    assert_eq!(hand_index(HI), Some(0));
    assert_eq!(hand_index(KA), Some(1));
    assert_eq!(hand_index(KI), Some(2));
    assert_eq!(hand_index(GI), Some(3));
    assert_eq!(hand_index(KE), Some(4));
    assert_eq!(hand_index(KY), Some(5));
    assert_eq!(hand_index(FU), Some(6));
    assert_eq!(hand_index(HM), Some(7));
    assert_eq!(hand_index(OU), None);
    assert_eq!(hand_index(TO), None);
    assert_eq!(hand_index(0), None);
    for i in 0..8 {
        assert_eq!(hand_index(hand_piece_type(i)), Some(i));
    }
}

#[test]
fn promotion_tables_invert() {
    for p in [FU, KY, KE, GI, KA, HI, KO] {
        let q = promote_piece(p).unwrap();
        assert_eq!(unpromote_piece(q), Some(p));
    }
    assert_eq!(promote_piece(FU), Some(TO));
    assert_eq!(promote_piece(KO), Some(WK));
    assert_eq!(promote_piece(KI), None);
    assert_eq!(promote_piece(OU), None);
    assert_eq!(unpromote_piece(RY), Some(HI));
    assert_eq!(unpromote_piece(NIN), None);
}

#[test]
fn base_type_and_promoted_flag() {
    assert_eq!(base_type(-UM), KA);
    assert_eq!(base_type(NG), GI);
    assert_eq!(base_type(-KI), KI);
    assert_eq!(base_type(0), 0);
    assert!(is_promoted(-TO));
    assert!(is_promoted(WK));
    assert!(!is_promoted(KI));
    assert!(!is_promoted(-NIN));
}

#[test]
fn piece_values() {
    assert_eq!(piece_value(FU), 100);
    assert_eq!(piece_value(OU), 10000);
    assert_eq!(piece_value(WK), 1200);
    assert_eq!(piece_value(NIN), 650);
    assert_eq!(piece_value(NY), 400);
    assert_eq!(piece_value(NK), 410);
    assert_eq!(piece_value(0), 0);
    assert_eq!(piece_value(-FU), 0);
}

#[test]
fn owner_and_kind_of_square_values() {
    assert_eq!(piece_owner(5), 1);
    assert_eq!(piece_owner(-5), -1);
    assert_eq!(piece_owner(0), 0);
    assert_eq!(abs_piece(-7), 7);
    assert_eq!(abs_piece(7), 7);
    assert_eq!(abs_piece(i8::MIN), i8::MIN);
}

#[test]
fn board_read_after_write() {
    let mut b: Board = [0i8; 81];
    board_set(&mut b, 4, 5, -RY);
    assert_eq!(board_get(&b, 4, 5), -RY);
    assert_eq!(b[41], -RY);
    assert_eq!(board_get(&b, 5, 4), 0);
}

#[test]
fn variant_from_u8() {
    assert_eq!(GameVariant::from_u8(1), GameVariant::Ouke);
    assert_eq!(GameVariant::from_u8(0), GameVariant::Normal);
    assert_eq!(GameVariant::from_u8(7), GameVariant::Normal);
}

#[test]
fn move_constructors() {
    let m = ShogiMove::new_move(6, 4, 5, 4, false);
    assert_eq!(m.move_type, MOVE_TYPE_MOVE);
    assert_eq!((m.fr, m.fc, m.tr, m.tc, m.promote, m.piece), (6, 4, 5, 4, false, 0));
    let d = ShogiMove::new_drop(KI, 3, 3);
    assert_eq!(d.move_type, MOVE_TYPE_DROP);
    assert_eq!((d.fr, d.fc, d.piece), (255, 255, KI));
    assert_eq!(ShogiMove::new_promote_nin(2, 2).move_type, MOVE_TYPE_PROMOTE_NIN);
    assert_eq!(ShogiMove::new_abort_nin(2, 2).move_type, MOVE_TYPE_ABORT_NIN);
}
