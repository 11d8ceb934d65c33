use shogi_engine::check::{find_king, is_checkmate_position, is_in_check, is_legal_move};
use shogi_engine::movegen::{
    can_promote_to_nin, get_all_legal_moves, get_drop_squares, get_piece_moves, has_nifu,
    must_promote, should_ask_promote,
};
use shogi_engine::types::{
    Board, GameVariant, Hand, ShogiMove, FU, GI, HI, KA, KE, KI, KO, KY, NIN, OU, SENTE, GOTE, TO,
    WK, HM,
};

fn empty() -> Board {
    [0i8; 81]
}

fn put(b: &mut Board, r: usize, c: usize, v: i8) {
    b[r * 9 + c] = v;
}

fn initial() -> Board {
    let mut b = empty();
    let back = [KY, KE, GI, KI, OU, KI, GI, KE, KY];
    for c in 0..9 {
        put(&mut b, 0, c, -back[c]);
        put(&mut b, 8, c, back[c]);
        put(&mut b, 2, c, -FU);
        put(&mut b, 6, c, FU);
    }
    put(&mut b, 1, 1, -HI);
    put(&mut b, 1, 7, -KA);
    put(&mut b, 7, 1, KA);
    put(&mut b, 7, 7, HI);
    b
}

const NO_HAND: Hand = [0u8; 8];

#[test]
fn pawn_steps_forward() {
    let mut b = empty();
    put(&mut b, 6, 4, FU);
    assert_eq!(get_piece_moves(FU, 6, 4, &b), vec![(5, 4)]);
    put(&mut b, 2, 4, -FU);
    assert_eq!(get_piece_moves(-FU, 2, 4, &b), vec![(3, 4)]);
}

#[test]
fn lance_slides_until_blocked() {
    let mut b = empty();
    put(&mut b, 8, 0, KY);
    put(&mut b, 5, 0, -FU);
    assert_eq!(get_piece_moves(KY, 8, 0, &b), vec![(7, 0), (6, 0), (5, 0)]);
    put(&mut b, 5, 0, FU);
    assert_eq!(get_piece_moves(KY, 8, 0, &b), vec![(7, 0), (6, 0)]);
}

#[test]
fn knight_jumps() {
    let b = empty();
    assert_eq!(get_piece_moves(KE, 4, 4, &b), vec![(2, 3), (2, 5)]);
    assert_eq!(get_piece_moves(-KE, 4, 4, &b), vec![(6, 3), (6, 5)]);
    assert_eq!(get_piece_moves(KE, 1, 0, &b), Vec::<(usize, usize)>::new());
}

#[test]
fn bishop_and_rook_in_the_centre() {
    let b = empty();
    assert_eq!(get_piece_moves(KA, 4, 4, &b).len(), 16);
    assert_eq!(get_piece_moves(HI, 4, 4, &b).len(), 16);
    assert_eq!(get_piece_moves(WK, 4, 4, &b).len(), 32);
    let first: Vec<(usize, usize)> = get_piece_moves(HI, 4, 4, &b).into_iter().take(4).collect();
    assert_eq!(first, vec![(3, 4), (2, 4), (1, 4), (0, 4)]);
}

#[test]
fn gold_and_silver_steps() {
    let b = empty();
    assert_eq!(get_piece_moves(KI, 4, 4, &b), vec![(3, 3), (3, 4), (3, 5), (4, 3), (4, 5), (5, 4)]);
    assert_eq!(get_piece_moves(TO, 4, 4, &b).len(), 6);
    assert_eq!(get_piece_moves(GI, 4, 4, &b), vec![(3, 3), (3, 4), (3, 5), (5, 3), (5, 5)]);
    assert_eq!(get_piece_moves(-GI, 4, 4, &b), vec![(5, 3), (5, 4), (5, 5), (3, 3), (3, 5)]);
}

#[test]
fn ko_reaches_three_squares() {
    let mut b = empty();
    assert_eq!(get_piece_moves(KO, 4, 4, &b).len(), 24);
    put(&mut b, 3, 4, FU);
    put(&mut b, 5, 4, -FU);
    // Up is blocked at once; down stops on the capture.
    assert_eq!(get_piece_moves(KO, 4, 4, &b).len(), 24 - 3 - 2);
}

#[test]
fn king_and_nin() {
    let b = empty();
    assert_eq!(get_piece_moves(OU, 0, 0, &b), vec![(0, 1), (1, 0), (1, 1)]);
    assert_eq!(get_piece_moves(HM, 4, 4, &b).len(), 8);
    assert!(get_piece_moves(NIN, 4, 4, &b).is_empty());
    assert!(get_piece_moves(0, 4, 4, &b).is_empty());
}

#[test]
fn promotion_rules() {
    assert!(must_promote(FU, 0));
    assert!(!must_promote(FU, 1));
    assert!(must_promote(KE, 1));
    assert!(must_promote(-KY, 8));
    assert!(must_promote(-KE, 7));
    assert!(!must_promote(GI, 0));
    assert!(should_ask_promote(GI, 3, 2));
    assert!(should_ask_promote(HI, 1, 5));
    assert!(!should_ask_promote(KI, 1, 0));
    assert!(should_ask_promote(-FU, 5, 6));
    assert!(!should_ask_promote(-FU, 4, 5));
}

#[test]
fn nifu_detection() {
    let mut b = empty();
    put(&mut b, 6, 3, FU);
    assert!(has_nifu(&b, 3, SENTE));
    assert!(!has_nifu(&b, 3, GOTE));
    assert!(!has_nifu(&b, 4, SENTE));
}

#[test]
fn drop_squares_respect_rank_and_nifu() {
    let mut b = empty();
    put(&mut b, 8, 4, OU);
    put(&mut b, 0, 4, -OU);
    put(&mut b, 6, 2, FU);
    let sq = get_drop_squares(&b, FU, SENTE, &NO_HAND, &NO_HAND, GameVariant::Normal);
    // 81 squares, minus 2 kings and the pawn, minus the 8 empty squares of
    // the first rank, minus the 7 other empty squares of column 2.
    assert_eq!(sq.len(), 81 - 3 - 8 - 7);
    assert!(!sq.contains(&(0, 0)));
    assert!(!sq.contains(&(3, 2)));
    let kn = get_drop_squares(&b, KE, SENTE, &NO_HAND, &NO_HAND, GameVariant::Normal);
    assert!(!kn.contains(&(1, 0)));
    assert!(kn.contains(&(2, 0)));
}

#[test]
fn pawn_drop_mate_is_forbidden() {
    // Gote king in the corner boxed in by its own pieces, a sente gold
    // guarding the square in front of it.
    let mut b = empty();
    put(&mut b, 0, 0, -OU);
    put(&mut b, 0, 1, -KY);
    put(&mut b, 1, 1, -KY);
    put(&mut b, 2, 0, KI);
    put(&mut b, 8, 8, OU);
    let sq = get_drop_squares(&b, FU, SENTE, &NO_HAND, &NO_HAND, GameVariant::Normal);
    assert!(!sq.contains(&(1, 0)));
    // A lance may be dropped there.
    let ky = get_drop_squares(&b, KY, SENTE, &NO_HAND, &NO_HAND, GameVariant::Normal);
    assert!(ky.contains(&(1, 0)));
}

#[test]
fn finds_kings_and_checks() {
    let mut b = empty();
    assert_eq!(find_king(&b, SENTE), None);
    assert!(is_in_check(&b, SENTE));
    put(&mut b, 8, 4, OU);
    put(&mut b, 0, 4, -OU);
    assert_eq!(find_king(&b, SENTE), Some((8, 4)));
    assert_eq!(find_king(&b, GOTE), Some((0, 4)));
    assert!(!is_in_check(&b, SENTE));
    put(&mut b, 3, 4, -HI);
    assert!(is_in_check(&b, SENTE));
    put(&mut b, 6, 4, GI);
    assert!(!is_in_check(&b, SENTE));
    // The silver is pinned: it may not leave the file.
    assert!(!is_legal_move(&b, 6, 4, 5, 3, SENTE));
    assert!(is_legal_move(&b, 6, 4, 5, 4, SENTE));
}

#[test]
fn checkmate_detection() {
    let mut b = empty();
    put(&mut b, 0, 4, -OU);
    put(&mut b, 1, 4, KI);
    put(&mut b, 2, 4, FU);
    put(&mut b, 8, 4, OU);
    assert!(is_in_check(&b, GOTE));
    assert!(is_checkmate_position(&b, GOTE, &NO_HAND, &NO_HAND, GameVariant::Normal));
    // With a gold in hand gote still cannot escape, but sente is fine.
    assert!(!is_checkmate_position(&b, SENTE, &NO_HAND, &NO_HAND, GameVariant::Normal));
}

#[test]
fn initial_position_has_thirty_moves() {
    let b = initial();
    let moves = get_all_legal_moves(&b, SENTE, &NO_HAND, &NO_HAND, GameVariant::Normal);
    assert_eq!(moves.len(), 30);
    let gote = get_all_legal_moves(&b, GOTE, &NO_HAND, &NO_HAND, GameVariant::Normal);
    assert_eq!(gote.len(), 30);
    assert_eq!(moves[0], ShogiMove::new_move(6, 0, 5, 0, false));
}

#[test]
fn promotion_choices_are_generated() {
    let mut b = empty();
    put(&mut b, 8, 8, OU);
    put(&mut b, 0, 0, -OU);
    put(&mut b, 3, 4, GI);
    put(&mut b, 1, 6, FU);
    let moves = get_all_legal_moves(&b, SENTE, &NO_HAND, &NO_HAND, GameVariant::Normal);
    // Silver into the zone: both choices.
    assert!(moves.contains(&ShogiMove::new_move(3, 4, 2, 4, true)));
    assert!(moves.contains(&ShogiMove::new_move(3, 4, 2, 4, false)));
    // Pawn onto the last rank: promotion forced.
    assert!(moves.contains(&ShogiMove::new_move(1, 6, 0, 6, true)));
    assert!(!moves.contains(&ShogiMove::new_move(1, 6, 0, 6, false)));
}

#[test]
fn drops_follow_board_moves() {
    let mut b = empty();
    put(&mut b, 8, 8, OU);
    put(&mut b, 0, 0, -OU);
    let mut hand: Hand = [0u8; 8];
    hand[2] = 1; // one gold
    let moves = get_all_legal_moves(&b, SENTE, &hand, &NO_HAND, GameVariant::Normal);
    let drops = moves.iter().filter(|m| m.move_type == 1).count();
    assert_eq!(drops, 81 - 2);
    assert_eq!(moves.len(), 3 + 79);
}

#[test]
fn ouke_nin_moves() {
    let mut b = empty();
    put(&mut b, 8, 4, OU);
    put(&mut b, 7, 4, KI);
    put(&mut b, 5, 0, NIN);
    put(&mut b, 0, 4, -OU);
    assert!(can_promote_to_nin(&b, 7, 4, SENTE));
    assert!(!can_promote_to_nin(&b, 5, 0, SENTE));
    let moves = get_all_legal_moves(&b, SENTE, &NO_HAND, &NO_HAND, GameVariant::Ouke);
    assert!(moves.contains(&ShogiMove::new_promote_nin(7, 4)));
    assert!(moves.contains(&ShogiMove::new_abort_nin(5, 0)));
    // The NIN itself does not move.
    assert!(!moves.iter().any(|m| m.move_type == 0 && m.fr == 5 && m.fc == 0));
    let normal = get_all_legal_moves(&b, SENTE, &NO_HAND, &NO_HAND, GameVariant::Normal);
    assert!(!normal.iter().any(|m| m.move_type >= 2));
}
