use shogi_engine::apply::apply_move;
use shogi_engine::check::{is_checkmate_position, is_in_check};
use shogi_engine::eval::evaluate;
use shogi_engine::movegen::{get_all_legal_moves, get_drop_squares, has_nifu};
use shogi_engine::types::{
    abs_piece, hand_index, piece_owner, Board, GameVariant, Hand, FU, GI, HI, KA, KE, KI, KO, KY,
    NIN, OU, SENTE, GOTE, TO, UM,
};

fn empty() -> Board {
    [0i8; 81]
}

fn put(b: &mut Board, r: usize, c: usize, v: i8) {
    b[r * 9 + c] = v;
}

fn busy_position() -> (Board, Hand, Hand) {
    let mut b = empty();
    put(&mut b, 8, 4, OU);
    put(&mut b, 7, 4, GI); // pinned by the rook on (2, 4)
    put(&mut b, 2, 4, -HI);
    put(&mut b, 0, 0, -OU);
    put(&mut b, 1, 1, -KA);
    put(&mut b, 5, 5, KE);
    put(&mut b, 6, 2, FU);
    put(&mut b, 3, 7, -UM);
    put(&mut b, 6, 7, KY);
    put(&mut b, 4, 0, -TO);
    put(&mut b, 7, 7, KI);
    let mut sh: Hand = [0u8; 8];
    sh[6] = 2; // pawns
    sh[2] = 1; // gold
    let mut gh: Hand = [0u8; 8];
    gh[1] = 1; // bishop
    (b, sh, gh)
}

#[test]
fn generated_moves_never_leave_the_king_in_check() {
    let (b, sh, gh) = busy_position();
    for (owner, variant) in [(SENTE, GameVariant::Normal), (GOTE, GameVariant::Normal), (SENTE, GameVariant::Ouke)] {
        let moves = get_all_legal_moves(&b, owner, &sh, &gh, variant);
        assert!(!moves.is_empty());
        for m in &moves {
            let (nb, _, _) = apply_move(&b, m, &sh, &gh, owner, variant);
            assert!(!is_in_check(&nb, owner), "{:?}", m);
        }
    }
    // The pinned silver only moves along the file.
    let moves = get_all_legal_moves(&b, SENTE, &sh, &gh, GameVariant::Normal);
    assert!(moves.iter().all(|m| !(m.move_type == 0 && m.fr == 7 && m.fc == 4 && m.tc != 4)));
}

#[test]
fn drops_are_of_held_kinds_onto_empty_squares() {
    let (b, sh, gh) = busy_position();
    let moves = get_all_legal_moves(&b, SENTE, &sh, &gh, GameVariant::Normal);
    let drops: Vec<_> = moves.iter().filter(|m| m.move_type == 1).collect();
    assert!(!drops.is_empty());
    for m in &drops {
        let i = hand_index(m.piece).unwrap();
        assert!(sh[i] > 0);
        assert_eq!(b[m.tr as usize * 9 + m.tc as usize], 0);
    }
    for (r, c) in get_drop_squares(&b, FU, SENTE, &sh, &gh, GameVariant::Normal) {
        assert_eq!(b[r * 9 + c], 0);
        assert!(r != 0);
        assert!(!has_nifu(&b, c, SENTE));
    }
}

fn mirrored(b: &Board) -> Board {
    let mut m = empty();
    for k in 0..81 {
        m[k] = -b[80 - k];
    }
    m
}

#[test]
fn evaluation_is_zero_sum_under_colour_swap() {
    let (b, sh, gh) = busy_position();
    for variant in [GameVariant::Normal, GameVariant::Ouke] {
        let e = evaluate(&b, &sh, &gh, variant);
        assert_eq!(evaluate(&mirrored(&b), &gh, &sh, variant), -e);
    }
    let mut n = empty();
    put(&mut n, 1, 3, NIN);
    put(&mut n, 0, 3, -KI);
    put(&mut n, 6, 6, -KO);
    put(&mut n, 8, 1, OU);
    let e = evaluate(&n, &[0; 8], &[0; 8], GameVariant::Ouke);
    assert_eq!(evaluate(&mirrored(&n), &[0; 8], &[0; 8], GameVariant::Ouke), -e);
}

#[test]
fn owner_times_kind_gives_back_the_square() {
    for v in -127i8..=127 {
        assert_eq!(piece_owner(v) * abs_piece(v), v);
    }
}

#[test]
fn checkmate_exactly_when_no_moves() {
    let mut b = empty();
    put(&mut b, 0, 4, -OU);
    put(&mut b, 1, 4, KI);
    put(&mut b, 2, 4, FU);
    put(&mut b, 8, 4, OU);
    let none: Hand = [0u8; 8];
    assert!(is_checkmate_position(&b, GOTE, &none, &none, GameVariant::Normal));
    assert!(get_all_legal_moves(&b, GOTE, &none, &none, GameVariant::Normal).is_empty());
    // A held pawn changes nothing: no drop removes the check.
    let mut gh: Hand = [0u8; 8];
    gh[6] = 1;
    assert!(is_checkmate_position(&b, GOTE, &none, &gh, GameVariant::Normal));
    assert!(get_all_legal_moves(&b, GOTE, &none, &gh, GameVariant::Normal).is_empty());
    // Take the protecting pawn away: the king captures the gold.
    put(&mut b, 2, 4, 0);
    assert!(!is_checkmate_position(&b, GOTE, &none, &none, GameVariant::Normal));
    assert!(!get_all_legal_moves(&b, GOTE, &none, &none, GameVariant::Normal).is_empty());
}

#[test]
fn check_is_colour_symmetric() {
    let (b, _, _) = busy_position();
    let m = mirrored(&b);
    assert_eq!(is_in_check(&m, GOTE), is_in_check(&b, SENTE));
    assert_eq!(is_in_check(&m, SENTE), is_in_check(&b, GOTE));
    let mut c = empty();
    put(&mut c, 4, 4, OU);
    put(&mut c, 1, 1, -KA);
    put(&mut c, 0, 0, -OU);
    assert!(is_in_check(&c, SENTE));
    assert!(is_in_check(&mirrored(&c), GOTE));
    assert!(!is_in_check(&mirrored(&c), SENTE));
}

fn piece_count(b: &Board, sh: &Hand, gh: &Hand) -> u32 {
    let on_board = b.iter().filter(|v| **v != 0).count() as u32;
    let held: u32 = sh.iter().chain(gh.iter()).map(|n| *n as u32).sum();
    on_board + held
}

#[test]
fn legal_moves_keep_the_pieces_in_play() {
    let (b, sh, gh) = busy_position();
    let before = piece_count(&b, &sh, &gh);
    for owner in [SENTE, GOTE] {
        for m in get_all_legal_moves(&b, owner, &sh, &gh, GameVariant::Normal) {
            let (nb, nsh, ngh) = apply_move(&b, &m, &sh, &gh, owner, GameVariant::Normal);
            let target = b[m.tr as usize * 9 + m.tc as usize];
            let lost = m.move_type == 0 && abs_piece(target) == OU;
            assert_eq!(piece_count(&nb, &nsh, &ngh) + lost as u32, before);
        }
    }
    // A capture moves the taken piece into the mover's hand.
    let mut b2 = empty();
    put(&mut b2, 8, 4, OU);
    put(&mut b2, 0, 4, -OU);
    put(&mut b2, 5, 5, HI);
    put(&mut b2, 2, 5, -KE);
    let m = get_all_legal_moves(&b2, SENTE, &[0; 8], &[0; 8], GameVariant::Normal)
        .into_iter()
        .find(|m| m.fr == 5 && m.fc == 5 && m.tr == 2 && m.tc == 5 && !m.promote)
        .unwrap();
    let (nb, nsh, _) = apply_move(&b2, &m, &[0; 8], &[0; 8], SENTE, GameVariant::Normal);
    assert_eq!(nsh[4], 1);
    assert_eq!(piece_count(&nb, &nsh, &[0; 8]), 4);
}

#[test]
fn stranded_pieces_always_promote() {
    let mut b = empty();
    put(&mut b, 8, 4, OU);
    put(&mut b, 0, 8, -OU);
    put(&mut b, 1, 0, FU);
    put(&mut b, 2, 2, KE);
    put(&mut b, 4, 6, GI);
    let moves = get_all_legal_moves(&b, SENTE, &[0; 8], &[0; 8], GameVariant::Normal);
    // The pawn reaching the last rank has only its promoted move.
    let pawn: Vec<_> = moves.iter().filter(|m| m.fr == 1 && m.fc == 0).collect();
    assert_eq!(pawn.len(), 1);
    assert!(pawn[0].promote);
    // The knight lands on rank 0: promoted only.
    let knight: Vec<_> = moves.iter().filter(|m| m.fr == 2 && m.fc == 2).collect();
    assert_eq!(knight.len(), 2);
    assert!(knight.iter().all(|m| m.promote));
    // A silver moving outside the zone does not promote.
    let silver_up: Vec<_> = moves.iter().filter(|m| m.fr == 4 && m.fc == 6 && m.tr == 3).collect();
    assert!(silver_up.iter().all(|m| !m.promote));
    for m in &moves {
        if m.move_type == 0 {
            let p = b[m.fr as usize * 9 + m.fc as usize];
            if shogi_engine::movegen::must_promote(p, m.tr as usize) {
                assert!(m.promote);
            }
        }
    }
}

#[test]
fn generator_misses_no_safe_move() {
    let (b, sh, gh) = busy_position();
    let moves = get_all_legal_moves(&b, SENTE, &sh, &gh, GameVariant::Normal);
    for r in 0..9 {
        for c in 0..9 {
            let p = b[r * 9 + c];
            if piece_owner(p) != SENTE {
                continue;
            }
            for (tr, tc) in shogi_engine::movegen::get_piece_moves(p, r, c, &b) {
                if !shogi_engine::check::is_legal_move(&b, r, c, tr, tc, SENTE) {
                    continue;
                }
                let must = shogi_engine::movegen::must_promote(p, tr);
                assert!(moves.iter().any(|m| m.move_type == 0
                    && (m.fr as usize, m.fc as usize, m.tr as usize, m.tc as usize) == (r, c, tr, tc)
                    && m.promote == must));
            }
        }
    }
    // Every empty square where a held gold may go is offered.
    for sq in get_drop_squares(&b, KI, SENTE, &sh, &gh, GameVariant::Normal) {
        assert!(moves.iter().any(|m| m.move_type == 1 && m.piece == KI
            && (m.tr as usize, m.tc as usize) == sq));
    }
}

fn flipped(m: &shogi_engine::types::ShogiMove) -> shogi_engine::types::ShogiMove {
    let mut f = *m;
    if m.move_type == 0 {
        f.fr = 8 - m.fr;
        f.fc = 8 - m.fc;
    }
    f.tr = 8 - m.tr;
    f.tc = 8 - m.tc;
    f
}

#[test]
fn legal_moves_are_colour_symmetric() {
    let (b, sh, gh) = busy_position();
    let mb = mirrored(&b);
    for (owner, other) in [(SENTE, GOTE), (GOTE, SENTE)] {
        for variant in [GameVariant::Normal, GameVariant::Ouke] {
            let here = get_all_legal_moves(&b, owner, &sh, &gh, variant);
            let there = get_all_legal_moves(&mb, other, &gh, &sh, variant);
            assert_eq!(here.len(), there.len());
            for m in &here {
                assert!(there.contains(&flipped(m)));
            }
            for m in &there {
                assert!(here.contains(&flipped(m)));
            }
        }
    }
}

#[test]
fn checkmate_is_colour_symmetric() {
    let mut b = empty();
    put(&mut b, 0, 4, -OU);
    put(&mut b, 1, 4, KI);
    put(&mut b, 2, 4, FU);
    put(&mut b, 8, 4, OU);
    let none: Hand = [0u8; 8];
    let mut sh: Hand = [0u8; 8];
    sh[6] = 1;
    assert!(is_checkmate_position(&b, GOTE, &sh, &none, GameVariant::Normal));
    assert!(is_checkmate_position(&mirrored(&b), SENTE, &none, &sh, GameVariant::Normal));
    assert!(!is_checkmate_position(&b, SENTE, &sh, &none, GameVariant::Normal));
    assert!(!is_checkmate_position(&mirrored(&b), GOTE, &none, &sh, GameVariant::Normal));
}

#[test]
fn checkmate_when_only_nin_moves_remain() {
    // Ouke, sente not in check: the king's free squares are covered by the
    // rook and the NIN beside it cannot move, only revert.
    let mut b = empty();
    put(&mut b, 8, 8, OU);
    put(&mut b, 7, 8, NIN);
    put(&mut b, 0, 7, -HI);
    put(&mut b, 0, 0, -OU);
    let none: Hand = [0u8; 8];
    assert!(!is_in_check(&b, SENTE));
    let moves = get_all_legal_moves(&b, SENTE, &none, &none, GameVariant::Ouke);
    assert_eq!(moves.len(), 1);
    assert_eq!(moves[0].move_type, 3);
    assert!(is_checkmate_position(&b, SENTE, &none, &none, GameVariant::Ouke));
}

fn turned_over(b: &Board) -> Board {
    let mut t = empty();
    for r in 0..9 {
        for c in 0..9 {
            t[r * 9 + c] = -b[(8 - r) * 9 + c];
        }
    }
    t
}

#[test]
fn turning_the_board_over_swaps_the_players() {
    let (b, sh, gh) = busy_position();
    let tb = turned_over(&b);
    for variant in [GameVariant::Normal, GameVariant::Ouke] {
        assert_eq!(evaluate(&tb, &gh, &sh, variant), -evaluate(&b, &sh, &gh, variant));
    }
    for r in 0..9 {
        for c in 0..9 {
            let p = b[r * 9 + c];
            let mut mine = shogi_engine::movegen::get_piece_moves(p, r, c, &b);
            let mut theirs: Vec<(usize, usize)> = shogi_engine::movegen::get_piece_moves(-p, 8 - r, c, &tb)
                .into_iter()
                .map(|(tr, tc)| (8 - tr, tc))
                .collect();
            mine.sort();
            theirs.sort();
            assert_eq!(mine, theirs);
        }
    }
}
