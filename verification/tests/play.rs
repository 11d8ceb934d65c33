use shogi_engine::apply::{add_capture_to_hand, apply_move};
use shogi_engine::eval::evaluate;
use shogi_engine::types::{
    Board, GameVariant, Hand, ShogiMove, FU, GI, HI, HM, KA, KE, KI, KO, KY, NIN, OU, SENTE, GOTE,
    TO, UM, WK, RY,
};

fn empty() -> Board {
    [0i8; 81]
}

fn put(b: &mut Board, r: usize, c: usize, v: i8) {
    b[r * 9 + c] = v;
}

fn initial() -> Board {
    let mut b = empty();
    let back = [KY, KE, GI, KI, OU, KI, GI, KE, KY];
    for c in 0..9 {
        put(&mut b, 0, c, -back[c]);
        put(&mut b, 8, c, back[c]);
        put(&mut b, 2, c, -FU);
        put(&mut b, 6, c, FU);
    }
    put(&mut b, 1, 1, -HI);
    put(&mut b, 1, 7, -KA);
    put(&mut b, 7, 1, KA);
    put(&mut b, 7, 7, HI);
    b
}

const NO_HAND: Hand = [0u8; 8];

#[test]
fn captures_go_to_hand_as_base_kind() {
    let mut h: Hand = [0u8; 8];
    add_capture_to_hand(-UM, &mut h, GameVariant::Normal);
    assert_eq!(h, [0, 1, 0, 0, 0, 0, 0, 0]);
    add_capture_to_hand(TO, &mut h, GameVariant::Normal);
    assert_eq!(h[6], 1);
    add_capture_to_hand(0, &mut h, GameVariant::Normal);
    add_capture_to_hand(-OU, &mut h, GameVariant::Normal);
    assert_eq!(h, [0, 1, 0, 0, 0, 0, 1, 0]);
}

#[test]
fn ouke_captures() {
    let mut h: Hand = [0u8; 8];
    add_capture_to_hand(-NIN, &mut h, GameVariant::Ouke);
    add_capture_to_hand(-HM, &mut h, GameVariant::Ouke);
    assert_eq!(h[2], 2);
    add_capture_to_hand(-KO, &mut h, GameVariant::Ouke);
    add_capture_to_hand(-WK, &mut h, GameVariant::Ouke);
    assert_eq!(h, [0, 0, 2, 0, 0, 0, 0, 0]);
    // In the normal game HM counts for itself and WK for KO, which has no slot.
    let mut n: Hand = [0u8; 8];
    add_capture_to_hand(-HM, &mut n, GameVariant::Normal);
    add_capture_to_hand(-WK, &mut n, GameVariant::Normal);
    assert_eq!(n, [0, 0, 0, 0, 0, 0, 0, 1]);
}

#[test]
fn board_move_with_capture_and_promotion() {
    let mut b = empty();
    put(&mut b, 3, 4, GI);
    put(&mut b, 2, 4, -KE);
    let m = ShogiMove::new_move(3, 4, 2, 4, true);
    let (nb, sh, gh) = apply_move(&b, &m, &NO_HAND, &NO_HAND, SENTE, GameVariant::Normal);
    assert_eq!(nb[3 * 9 + 4], 0);
    assert_eq!(nb[2 * 9 + 4], 12); // NG
    assert_eq!(sh[4], 1);
    assert_eq!(gh, NO_HAND);
    let plain = ShogiMove::new_move(3, 4, 2, 4, false);
    let (nb2, _, _) = apply_move(&b, &plain, &NO_HAND, &NO_HAND, SENTE, GameVariant::Normal);
    assert_eq!(nb2[2 * 9 + 4], GI);
}

#[test]
fn gote_promotes_to_negative_piece() {
    let mut b = empty();
    put(&mut b, 5, 0, -HI);
    let m = ShogiMove::new_move(5, 0, 7, 0, true);
    let (nb, _, _) = apply_move(&b, &m, &NO_HAND, &NO_HAND, GOTE, GameVariant::Normal);
    assert_eq!(nb[7 * 9], -RY);
}

#[test]
fn drop_uses_a_hand_piece() {
    let b = empty();
    let mut gh: Hand = [0u8; 8];
    gh[2] = 2;
    let m = ShogiMove::new_drop(KI, 4, 4);
    let (nb, sh, ngh) = apply_move(&b, &m, &NO_HAND, &gh, GOTE, GameVariant::Normal);
    assert_eq!(nb[40], -KI);
    assert_eq!(ngh[2], 1);
    assert_eq!(sh, NO_HAND);
    // With none held the count stays at zero.
    let (_, sh2, _) = apply_move(&b, &m, &NO_HAND, &gh, SENTE, GameVariant::Normal);
    assert_eq!(sh2, NO_HAND);
}

#[test]
fn nin_promotion_and_abort() {
    let mut b = empty();
    put(&mut b, 7, 4, KI);
    let (nb, _, _) =
        apply_move(&b, &ShogiMove::new_promote_nin(7, 4), &NO_HAND, &NO_HAND, SENTE, GameVariant::Ouke);
    assert_eq!(nb[7 * 9 + 4], NIN);
    let (nb2, _, _) =
        apply_move(&nb, &ShogiMove::new_abort_nin(7, 4), &NO_HAND, &NO_HAND, SENTE, GameVariant::Ouke);
    assert_eq!(nb2[7 * 9 + 4], KI);
}

#[test]
fn initial_position_evaluates_to_zero() {
    assert_eq!(evaluate(&initial(), &NO_HAND, &NO_HAND, GameVariant::Normal), 0);
}

#[test]
fn evaluation_terms() {
    let mut b = empty();
    put(&mut b, 4, 0, FU); // 100 + (6 - 4) * 2
    put(&mut b, 8, 7, OU); // 10000 - 3 * 5
    put(&mut b, 1, 4, -OU); // -(10000)
    assert_eq!(evaluate(&b, &NO_HAND, &NO_HAND, GameVariant::Normal), 104 - 15);
    let mut sh: Hand = [0u8; 8];
    sh[0] = 1; // HI: 700 * 85 / 100 = 595
    let mut gh: Hand = [0u8; 8];
    gh[6] = 3; // FU: 85 each
    assert_eq!(evaluate(&b, &sh, &gh, GameVariant::Normal), 104 - 15 + 595 - 255);
}

#[test]
fn ko_and_nin_terms() {
    let mut b = empty();
    put(&mut b, 2, 2, KO); // 400 + 6 * 15
    put(&mut b, 2, 6, -KO); // -(400 + 2 * 15)
    assert_eq!(evaluate(&b, &NO_HAND, &NO_HAND, GameVariant::Normal), 490 - 430);
    let mut n = empty();
    put(&mut n, 0, 0, NIN); // front off the board: 650 - 200
    put(&mut n, 5, 5, NIN);
    put(&mut n, 4, 5, FU); // blocked: 650 - 150; pawn 100 + 4
    assert_eq!(evaluate(&n, &NO_HAND, &NO_HAND, GameVariant::Ouke), 450 + 500 + 104);
    assert_eq!(evaluate(&n, &NO_HAND, &NO_HAND, GameVariant::Normal), 650 + 650 + 104);
}

#[test]
fn king_away_from_the_centre_file_is_penalised() {
    let mut centre = empty();
    put(&mut centre, 8, 4, OU);
    let mut edge = empty();
    put(&mut edge, 8, 0, OU);
    assert_eq!(evaluate(&centre, &NO_HAND, &NO_HAND, GameVariant::Normal), 10000);
    assert_eq!(evaluate(&edge, &NO_HAND, &NO_HAND, GameVariant::Normal), 9980);
}
